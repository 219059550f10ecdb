//! The trie node and its operations.
//!
//! A trie is its root node. What a trie stores is its view, a map from nibble
//! paths to values; a well-formed trie keeps no node but the root and those
//! on the way to a stored key, so the view also fixes the shape of the tree.

use vstd::prelude::*;
use vstd::string::*;
use crate::diagram::{
    continuation, depth_of, depth_within, diagram, hex_char, last_occupied,
    lemma_depth_of_branch, lines_below, node_line, occupied, value_suffix,
};
use crate::model::{
    branch, entry_at, lemma_branch_insert, lemma_branch_remove, lemma_entries_by_branches,
    on_path, Entries, FANOUT,
};
use crate::nibbles::{hex_to_nibbles, nibbles_of};

verus! {

/// A node of the trie. The root is a node like any other; the path from the
/// root to a node spells the nibbles of the key whose value the node holds.
pub struct Node {
    children: Vec<Option<Box<Node>>>,
    value: Option<String>,
}

impl View for Node {
    type V = Entries;

    open spec fn view(&self) -> Entries {
        self.entries()
    }
}

// What a node is.
impl Node {
    /// The value found by walking `key` down from this node.
    spec fn lookup(&self, key: Seq<usize>) -> Option<Seq<char>>
        decreases key.len(),
    {
        if key.len() == 0 {
            match self.value {
                Some(v) => Some(v@),
                None => None,
            }
        } else if key[0] < self.children@.len() {
            match self.children@[key[0] as int] {
                Some(child) => child.lookup(key.drop_first()),
                None => None,
            }
        } else {
            None
        }
    }

    /// The entries of the trie rooted at this node.
    pub closed spec fn entries(&self) -> Entries {
        Map::new(|k: Seq<usize>| self.lookup(k) is Some, |k: Seq<usize>| self.lookup(k).unwrap())
    }

    /// Whether the walk along `path` from this node finds a node at every
    /// step.
    pub closed spec fn has_node(&self, path: Seq<usize>) -> bool
        decreases path.len(),
    {
        if path.len() == 0 {
            true
        } else if path[0] < self.children@.len() {
            match self.children@[path[0] as int] {
                Some(child) => child.has_node(path.drop_first()),
                None => false,
            }
        } else {
            false
        }
    }

    /// A hollow node holds no value and has no child.
    spec fn hollow(&self) -> bool {
        &&& self.value is None
        &&& forall|i: int| 0 <= i < self.children@.len() ==> (#[trigger] self.children@[i]) is None
    }

    /// Well-formedness: every node has sixteen slots, and no node below this
    /// one is hollow.
    pub closed spec fn wf(&self) -> bool
        decreases self,
    {
        &&& self.children@.len() == FANOUT
        &&& forall|i: int|
            0 <= i < self.children@.len() ==> match #[trigger] self.children@[i] {
                Some(child) => child.wf() && !child.hollow(),
                None => true,
            }
    }

    /// The entries of the child in slot `i`, none where the slot is empty.
    spec fn child_entries(&self, i: usize) -> Entries {
        if i < self.children@.len() {
            match self.children@[i as int] {
                Some(child) => child@,
                None => Map::empty(),
            }
        } else {
            Map::empty()
        }
    }

    /// The number of levels below this node, counted through the slots from
    /// `from` on.
    spec fn height(&self, from: int) -> nat
        decreases self, self.children@.len() - from,
    {
        if from < 0 || from >= self.children@.len() {
            0
        } else {
            let rest = self.height(from + 1);
            match self.children@[from] {
                Some(child) => {
                    let below = 1 + child.height(0);
                    if below > rest {
                        below
                    } else {
                        rest
                    }
                },
                None => rest,
            }
        }
    }

    /// What a node on the way down from the root is owed by the rest of an
    /// insertion: to be left well-formed, not hollow, and with `value` added
    /// under `key`.
    spec fn grown(&self, after: Node, key: Seq<usize>, value: Seq<char>) -> bool {
        &&& after.wf()
        &&& !after.hollow()
        &&& after@ == self@.insert(key, value)
    }
}

// What holds of every node.
impl Node {
    /// The entries of a node are its own value under the empty key and, under
    /// each nibble, the entries of the child in that slot.
    proof fn lemma_entries(&self)
        ensures
            self@.contains_key(Seq::empty()) <==> self.value is Some,
            self.value matches Some(v) ==> self@[Seq::empty()] == v@,
            forall|i: usize| #[trigger] branch(self@, i) == self.child_entries(i),
    {
        assert forall|i: usize| #[trigger] branch(self@, i) == self.child_entries(i) by {
            let sub = branch(self@, i);
            let expect = self.child_entries(i);
            assert forall|k: Seq<usize>|
                #![trigger sub.dom().contains(k)]
                #![trigger expect.dom().contains(k)]
                sub.dom().contains(k) == expect.dom().contains(k) && (sub.dom().contains(k)
                    ==> sub[k] == expect[k]) by {
                let full = seq![i] + k;
                assert(full[0] == i);
                assert(full.drop_first() =~= k);
            }
            assert(sub =~= expect);
        }
    }

    /// A hollow node has no entries.
    proof fn lemma_hollow_is_empty(&self)
        requires
            self.hollow(),
        ensures
            self@ == Entries::empty(),
    {
        assert forall|k: Seq<usize>| !(#[trigger] self@.dom().contains(k)) by {}
        assert(self@ =~= Entries::empty());
    }

    /// A node that is not hollow has an entry.
    proof fn lemma_solid_has_entry(&self)
        requires
            self.wf(),
            !self.hollow(),
        ensures
            exists|k: Seq<usize>| self@.contains_key(k),
        decreases self,
    {
        self.lemma_entries();
        if self.value is Some {
            assert(self@.contains_key(Seq::empty()));
        } else {
            let i = choose|i: int| 0 <= i < self.children@.len() && self.children@[i] is Some;
            let child = self.children@[i].unwrap();
            child.lemma_solid_has_entry();
            let k = choose|k: Seq<usize>| child@.contains_key(k);
            assert(branch(self@, i as usize) == self.child_entries(i as usize));
            assert(branch(self@, i as usize).contains_key(k));
            assert(self@.contains_key(seq![i as usize] + k));
        }
    }

    /// The nodes of a well-formed trie are the root and the nodes on the
    /// way to a stored key: no other node is kept.
    pub proof fn lemma_nodes(&self, path: Seq<usize>)
        requires
            self.wf(),
        ensures
            self.has_node(path) == on_path(self@, path),
        decreases path.len(),
    {
        if path.len() > 0 {
            let i = path[0];
            let rest = path.drop_first();
            self.lemma_entries();
            assert(branch(self@, i) == self.child_entries(i));
            assert(path =~= seq![i] + rest);
            if self.has_node(path) {
                let child = self.children@[i as int].unwrap();
                child.lemma_nodes(rest);
                child.lemma_solid_has_entry();
                let below = if rest.len() == 0 {
                    choose|k: Seq<usize>| child@.contains_key(k)
                } else {
                    choose|k: Seq<usize>| #[trigger] child@.contains_key(k) && rest.is_prefix_of(k)
                };
                let k = seq![i] + below;
                assert(branch(self@, i).contains_key(below));
                assert(self@.contains_key(k));
                assert(path =~= k.subrange(0, path.len() as int));
            }
            if on_path(self@, path) {
                let k = choose|k: Seq<usize>| #[trigger]
                    self@.contains_key(k) && path.is_prefix_of(k);
                let below = k.drop_first();
                assert(k[0] == i);
                assert(k =~= seq![i] + below);
                assert(branch(self@, i).contains_key(below));
                let child = self.children@[i as int].unwrap();
                assert(rest =~= below.subrange(0, rest.len() as int));
                assert(on_path(child@, rest));
                child.lemma_nodes(rest);
            }
        }
    }

    /// Every key of a well-formed trie is made of nibbles.
    pub proof fn lemma_keys_are_nibbles(&self, key: Seq<usize>)
        requires
            self.wf(),
            self@.contains_key(key),
        ensures
            forall|i: int| 0 <= i < key.len() ==> key[i] < FANOUT,
        decreases key.len(),
    {
        if key.len() > 0 {
            let child = self.children@[key[0] as int].unwrap();
            child.lemma_keys_are_nibbles(key.drop_first());
            assert forall|i: int| 0 <= i < key.len() implies key[i] < FANOUT by {
                if i > 0 {
                    assert(key[i] == key.drop_first()[i - 1]);
                }
            }
        }
    }

    /// A slot of a well-formed node is occupied exactly where it has a child.
    proof fn lemma_occupied(&self)
        requires
            self.wf(),
        ensures
            forall|i: usize| #[trigger]
                occupied(self@, i) <==> i < FANOUT && self.children@[i as int] is Some,
    {
        self.lemma_entries();
        assert forall|i: usize| #[trigger]
            occupied(self@, i) <==> i < FANOUT && self.children@[i as int] is Some by {
            assert(branch(self@, i) == self.child_entries(i));
            if i < FANOUT && self.children@[i as int] is Some {
                let child = self.children@[i as int].unwrap();
                child.lemma_solid_has_entry();
                let k = choose|k: Seq<usize>| child@.contains_key(k);
                assert(branch(self@, i).contains_key(k));
            }
        }
    }

    /// The height covers every child from `from` on.
    proof fn lemma_height_covers(&self, from: int, i: int)
        requires
            0 <= from <= i < self.children@.len(),
        ensures
            self.children@[i] matches Some(child) ==> child.height(0) < self.height(from),
        decreases i - from,
    {
        if from < i {
            self.lemma_height_covers(from + 1, i);
        }
    }

    /// No key of a well-formed node is longer than its height.
    proof fn lemma_depth_within_height(&self)
        requires
            self.wf(),
        ensures
            depth_within(self@, self.height(0)),
        decreases self,
    {
        self.lemma_entries();
        assert forall|k: Seq<usize>| self@.contains_key(k) implies k.len() <= self.height(0) by {
            if k.len() > 0 {
                let i = k[0];
                let rest = k.drop_first();
                assert(k =~= seq![i] + rest);
                assert(branch(self@, i) == self.child_entries(i));
                assert(branch(self@, i).contains_key(rest));
                let child = self.children@[i as int].unwrap();
                child.lemma_depth_within_height();
                self.lemma_height_covers(0, i as int);
            }
        }
    }

    /// A node that is given a value has received it under the empty key.
    proof fn lemma_grown_here(here: Node, after: Node, value: Seq<char>)
        requires
            here.wf(),
            after.children == here.children,
            after.value matches Some(v) && v@ == value,
        ensures
            here.grown(after, Seq::empty(), value),
    {
        here.lemma_entries();
        after.lemma_entries();
        assert forall|j: usize| #[trigger]
            branch(after@, j) == branch(here@.insert(Seq::empty(), value), j) by {
            lemma_branch_insert(here@, Seq::empty(), value, j);
        }
        lemma_entries_by_branches(after@, here@.insert(Seq::empty(), value));
    }

    /// A node has received what it was owed once the child on the way down
    /// has: `child` is what stands in the slot of the key's first nibble
    /// when the walk steps into it, `child_after` what the walk leaves there.
    proof fn lemma_grown_step(
        here: Node,
        after: Node,
        child: Node,
        child_after: Node,
        key: Seq<usize>,
        value: Seq<char>,
    )
        requires
            here.wf(),
            key.len() > 0,
            key[0] < FANOUT,
            child@ == here.child_entries(key[0]),
            after.value == here.value,
            after.children@.len() == FANOUT,
            forall|j: int|
                0 <= j < FANOUT && j != key[0] ==> #[trigger] after.children@[j]
                    == here.children@[j],
            after.children@[key[0] as int] == Some(Box::new(child_after)),
        ensures
            child.grown(child_after, key.drop_first(), value) ==> here.grown(after, key, value),
    {
        if child.grown(child_after, key.drop_first(), value) {
            here.lemma_entries();
            after.lemma_entries();
            assert forall|j: usize| #[trigger]
                branch(after@, j) == branch(here@.insert(key, value), j) by {
                lemma_branch_insert(here@, key, value, j);
                assert(branch(after@, j) == after.child_entries(j));
                assert(branch(here@, j) == here.child_entries(j));
                if j < FANOUT && j != key[0] {
                    assert(after.children@[j as int] == here.children@[j as int]);
                }
            }
            lemma_entries_by_branches(after@, here@.insert(key, value));
            assert(after.children@[key[0] as int] is Some);
            assert forall|j: int| 0 <= j < after.children@.len() implies match #[trigger] after
                .children@[j] {
                Some(c) => c.wf() && !c.hollow(),
                None => true,
            } by {
                if j != key[0] {
                    assert(after.children@[j] == here.children@[j]);
                }
            }
        }
    }
}

// What a node does.
impl Node {
    /// An empty trie.
    pub fn new() -> (node: Self)
        ensures
            node.wf(),
            node@ == Entries::empty(),
    {
        let mut children: Vec<Option<Box<Node>>> = Vec::new();
        let mut i: usize = 0;
        while i < FANOUT
            invariant
                i <= FANOUT,
                children@.len() == i,
                forall|j: int| 0 <= j < i ==> (#[trigger] children@[j]) is None,
            decreases FANOUT - i,
        {
            children.push(None);
            i += 1;
        }
        let node = Node { children, value: None };
        proof {
            assert forall|k: Seq<usize>| !(#[trigger] node@.dom().contains(k)) by {}
            assert(node@ =~= Entries::empty());
        }
        node
    }

    /// Stores `value` under `hex_key`, replacing what was stored there.
    /// Characters of the key that are no hexadecimal digits are passed over.
    pub fn insert(&mut self, hex_key: &str, value: String)
        requires
            old(self).wf(),
        ensures
            final(self).wf(),
            final(self)@ == old(self)@.insert(nibbles_of(hex_key@), value@),
    {
        let nibbles = hex_to_nibbles(hex_key);
        self.insert_nibbles(nibbles, value);
    }

    /// Stores `value` under the key given by its nibbles, replacing what was
    /// stored there. Walks down from this node, one level for each nibble,
    /// and creates the nodes that are missing on the way.
    pub fn insert_nibbles(&mut self, nibbles: Vec<usize>, value: String)
        requires
            old(self).wf(),
            forall|i: int| 0 <= i < nibbles@.len() ==> nibbles@[i] < FANOUT,
        ensures
            final(self).wf(),
            final(self)@ == old(self)@.insert(nibbles@, value@),
    {
        let ghost stored = value@;
        let ghost root = *self;
        let ghost root_after = *final(self);
        let mut cur: &mut Node = self;
        let mut i: usize = 0;
        proof {
            assert(nibbles@.skip(0) =~= nibbles@);
        }
        while i < nibbles.len()
            invariant
                i <= nibbles@.len(),
                forall|j: int| 0 <= j < nibbles@.len() ==> nibbles@[j] < FANOUT,
                stored == value@,
                cur.wf(),
                cur.grown(*final(cur), nibbles@.skip(i as int), stored) ==> root.grown(
                    root_after,
                    nibbles@,
                    stored,
                ),
            decreases nibbles@.len() - i,
        {
            let slot = nibbles[i];
            let ghost here = *cur;
            let ghost here_after = *final(cur);
            if cur.children[slot].is_none() {
                cur.children[slot] = Some(Box::new(Node::new()));
            }
            cur = &mut **cur.children[slot].as_mut().unwrap();
            proof {
                let key = nibbles@.skip(i as int);
                assert(key.drop_first() =~= nibbles@.skip(i + 1));
                Self::lemma_grown_step(here, here_after, *cur, *final(cur), key, stored);
            }
            i += 1;
        }
        let ghost here = *cur;
        cur.value = Some(value);
        proof {
            assert(nibbles@.skip(i as int) =~= Seq::empty());
            Self::lemma_grown_here(here, *cur, stored);
        }
    }

    /// The value stored under `hex_key`, if there is one.
    pub fn get(&self, hex_key: &str) -> (found: Option<&String>)
        requires
            self.wf(),
        ensures
            entry_at(self@, nibbles_of(hex_key@)) == match found {
                Some(v) => Some(v@),
                None => None,
            },
    {
        let nibbles = hex_to_nibbles(hex_key);
        let mut cur: &Node = self;
        let mut i: usize = 0;
        proof {
            assert(nibbles@.skip(0) =~= nibbles@);
        }
        while i < nibbles.len()
            invariant
                i <= nibbles@.len(),
                nibbles@ == nibbles_of(hex_key@),
                forall|j: int| 0 <= j < nibbles@.len() ==> nibbles@[j] < FANOUT,
                cur.wf(),
                self.lookup(nibbles@) == cur.lookup(nibbles@.skip(i as int)),
            decreases nibbles@.len() - i,
        {
            proof {
                assert(nibbles@.skip(i as int)[0] == nibbles@[i as int]);
                assert(nibbles@.skip(i as int).drop_first() =~= nibbles@.skip(i + 1));
            }
            match &cur.children[nibbles[i]] {
                Some(child) => {
                    cur = child;
                },
                None => {
                    return None;
                },
            }
            i += 1;
        }
        cur.value.as_ref()
    }

    /// Removes what is stored under `hex_key`, and every node that served
    /// that key alone. A key under which nothing is stored is left alone.
    pub fn delete(&mut self, hex_key: &str)
        requires
            old(self).wf(),
        ensures
            final(self).wf(),
            final(self)@ == old(self)@.remove(nibbles_of(hex_key@)),
    {
        let nibbles = hex_to_nibbles(hex_key);
        proof {
            assert(nibbles@.skip(0) =~= nibbles@);
        }
        self.delete_from(&nibbles, 0);
    }

    /// Removes what is stored under the nibbles of `nibbles` from `start`
    /// on, and then, on the way back up, every node on that path that is
    /// left hollow. Tells whether this node itself is left hollow.
    fn delete_from(&mut self, nibbles: &Vec<usize>, start: usize) -> (hollow: bool)
        requires
            old(self).wf(),
            start <= nibbles@.len(),
            forall|i: int| 0 <= i < nibbles@.len() ==> nibbles@[i] < FANOUT,
        ensures
            final(self).wf(),
            hollow == final(self).hollow(),
            final(self)@ == old(self)@.remove(nibbles@.skip(start as int)),
        decreases nibbles@.len() - start,
    {
        let ghost key = nibbles@.skip(start as int);
        if start == nibbles.len() {
            self.value = None;
            proof {
                assert(key =~= Seq::empty());
            }
        } else {
            let slot = nibbles[start];
            let mut prune = false;
            match &mut self.children[slot] {
                Some(child) => {
                    prune = child.delete_from(nibbles, start + 1);
                },
                None => {},
            }
            let ghost unpruned = *self;
            if prune {
                self.children[slot] = None;
            }
            proof {
                assert(key.drop_first() =~= nibbles@.skip(start + 1));
                unpruned.lemma_entries();
                if prune {
                    unpruned.children@[slot as int].unwrap().lemma_hollow_is_empty();
                }
            }
        }
        proof {
            old(self).lemma_entries();
            self.lemma_entries();
            assert forall|i: usize| #[trigger]
                branch(self@, i) == branch(old(self)@.remove(key), i) by {
                lemma_branch_remove(old(self)@, key, i);
            }
            lemma_entries_by_branches(self@, old(self)@.remove(key));
        }
        self.is_hollow()
    }

    /// Whether this node holds no value and has no child.
    fn is_hollow(&self) -> (r: bool)
        requires
            self.children@.len() == FANOUT,
        ensures
            r == self.hollow(),
    {
        if self.value.is_some() {
            return false;
        }
        let mut i: usize = 0;
        while i < FANOUT
            invariant
                i <= FANOUT,
                self.children@.len() == FANOUT,
                forall|j: int| 0 <= j < i ==> (#[trigger] self.children@[j]) is None,
            decreases FANOUT - i,
        {
            if self.children[i].is_some() {
                return false;
            }
            i += 1;
        }
        true
    }

    /// The diagram of the trie: the root on the first line, then every node
    /// below it on a line of its own, depth first and in nibble order.
    pub fn render(&self) -> (text: String)
        requires
            self.wf(),
        ensures
            text@ == diagram(self@),
    {
        let mut out = String::from_str("(root)");
        match &self.value {
            Some(v) => {
                out.append(" = ");
                out.append(v.as_str());
            },
            None => {},
        }
        out.append("\n");
        proof {
            self.lemma_entries();
            self.lemma_depth_within_height();
            reveal_strlit("\n");
            reveal_strlit("");
            assert(out@ =~= "(root)"@ + value_suffix(self@) + seq!['\n']);
            assert(""@ =~= Seq::<char>::empty());
        }
        self.render_below("", &mut out, Ghost(depth_of(self@)));
        out
    }

    /// Appends to `out` the lines of all nodes below this one, each behind
    /// `indent`.
    fn render_below(&self, indent: &str, out: &mut String, Ghost(depth): Ghost<nat>)
        requires
            self.wf(),
            depth_within(self@, depth),
        ensures
            final(out)@ == old(out)@ + lines_below(self@, indent@, 0, depth),
        decreases depth,
    {
        let last = self.last_slot();
        let ghost before = out@;
        let mut i: usize = 0;
        proof {
            self.lemma_occupied();
            self.lemma_entries();
            assert(out@ =~= before + Seq::<char>::empty());
        }
        while i < FANOUT
            invariant
                i <= FANOUT,
                self.wf(),
                depth_within(self@, depth),
                last <= FANOUT,
                last < FANOUT ==> self.children@[last as int] is Some,
                forall|j: int| last < j < FANOUT ==> (#[trigger] self.children@[j]) is None,
                last == FANOUT ==> forall|j: int|
                    0 <= j < FANOUT ==> (#[trigger] self.children@[j]) is None,
                forall|j: usize| #[trigger]
                    occupied(self@, j) <==> j < FANOUT && self.children@[j as int] is Some,
                forall|j: usize| #[trigger] branch(self@, j) == self.child_entries(j),
                out@ + lines_below(self@, indent@, i, depth) == before + lines_below(
                    self@,
                    indent@,
                    0,
                    depth,
                ),
            decreases FANOUT - i,
        {
            let ghost so_far = out@;
            match &self.children[i] {
                Some(child) => {
                    let is_last = i == last;
                    proof {
                        assert(occupied(self@, i));
                        assert(branch(self@, i) == self.child_entries(i));
                        lemma_depth_of_branch(self@, i, depth);
                        assert(is_last == last_occupied(self@, i)) by {
                            if is_last {
                                assert forall|j: usize| i < j < FANOUT implies !occupied(
                                    self@,
                                    j,
                                ) by {
                                    assert(self.children@[j as int] is None);
                                }
                            } else {
                                assert(self.children@[i as int] is Some);
                                assert(i < last < FANOUT);
                                assert(occupied(self@, last));
                            }
                        }
                        child.lemma_entries();
                        reveal_strlit("└── ");
                        reveal_strlit("├── ");
                        reveal_strlit("    ");
                        reveal_strlit("│   ");
                        reveal_strlit(" = ");
                        reveal_strlit("\n");
                    }
                    out.append(indent);
                    out.append(if is_last { "└── " } else { "├── " });
                    out.append(hex_str(i));
                    match &child.value {
                        Some(v) => {
                            out.append(" = ");
                            out.append(v.as_str());
                        },
                        None => {},
                    }
                    out.append("\n");
                    assert(out@ =~= so_far + node_line(self@, indent@, i));
                    let mut deeper = String::from_str(indent);
                    deeper.append(if is_last { "    " } else { "│   " });
                    assert(deeper@ =~= indent@ + continuation(is_last));
                    child.render_below(deeper.as_str(), out, Ghost((depth - 1) as nat));
                    proof {
                        let here = node_line(self@, indent@, i) + lines_below(
                            child@,
                            deeper@,
                            0,
                            (depth - 1) as nat,
                        );
                        let rest = lines_below(self@, indent@, (i + 1) as usize, depth);
                        assert(lines_below(self@, indent@, i, depth) == here + rest);
                        assert(out@ + rest =~= so_far + (here + rest));
                    }
                },
                None => {
                    assert(!occupied(self@, i));
                },
            }
            i += 1;
        }
        proof {
            assert(lines_below(self@, indent@, FANOUT, depth) =~= Seq::<char>::empty());
            assert(out@ =~= out@ + Seq::<char>::empty());
        }
    }

    /// The slot of the last child, or `FANOUT` where there is no child.
    fn last_slot(&self) -> (last: usize)
        requires
            self.children@.len() == FANOUT,
        ensures
            last <= FANOUT,
            last < FANOUT ==> self.children@[last as int] is Some,
            forall|j: int| last < j < FANOUT ==> (#[trigger] self.children@[j]) is None,
            last == FANOUT ==> forall|j: int|
                0 <= j < FANOUT ==> (#[trigger] self.children@[j]) is None,
    {
        let mut last: usize = FANOUT;
        let mut i: usize = 0;
        while i < FANOUT
            invariant
                i <= FANOUT,
                self.children@.len() == FANOUT,
                last == FANOUT || last < i,
                last < FANOUT ==> self.children@[last as int] is Some,
                forall|j: int| last < j < i ==> (#[trigger] self.children@[j]) is None,
                last == FANOUT ==> forall|j: int|
                    0 <= j < i ==> (#[trigger] self.children@[j]) is None,
            decreases FANOUT - i,
        {
            if self.children[i].is_some() {
                last = i;
            }
            i += 1;
        }
        last
    }
}

impl Default for Node {
    /// An empty trie.
    fn default() -> (node: Self)
        ensures
            node.wf(),
            node@ == Entries::empty(),
    {
        Node::new()
    }
}

impl Clone for Node {
    /// A trie of its own with the same entries.
    fn clone(&self) -> (copy: Self)
        ensures
            copy@ == self@,
            self.wf() ==> copy.wf(),
        decreases self,
    {
        let mut children: Vec<Option<Box<Node>>> = Vec::new();
        let mut i: usize = 0;
        while i < self.children.len()
            invariant
                i <= self.children@.len(),
                children@.len() == i,
                forall|j: int|
                    0 <= j < i ==> match (#[trigger] self.children@[j], children@[j]) {
                        (Some(theirs), Some(ours)) => ours@ == theirs@ && (theirs.wf()
                            ==> ours.wf()),
                        (None, None) => true,
                        _ => false,
                    },
            decreases self.children@.len() - i,
        {
            let slot = match &self.children[i] {
                Some(child) => Some(Box::new((&**child).clone())),
                None => None,
            };
            children.push(slot);
            i += 1;
        }
        let value = match &self.value {
            Some(v) => Some(v.clone()),
            None => None,
        };
        let copy = Node { children, value };
        proof {
            self.lemma_entries();
            copy.lemma_entries();
            assert forall|j: usize| #[trigger] branch(copy@, j) == branch(self@, j) by {
                assert(branch(copy@, j) == copy.child_entries(j));
                assert(branch(self@, j) == self.child_entries(j));
                if j < self.children@.len() {
                    assert(self.children@[j as int] is Some == copy.children@[j as int] is Some);
                }
            }
            lemma_entries_by_branches(copy@, self@);
            if self.wf() {
                assert forall|j: int| 0 <= j < copy.children@.len() implies match #[trigger] copy
                    .children@[j] {
                    Some(child) => child.wf() && !child.hollow(),
                    None => true,
                } by {
                    if let Some(ours) = copy.children@[j] {
                        let theirs = self.children@[j].unwrap();
                        theirs.lemma_solid_has_entry();
                        if ours.hollow() {
                            ours.lemma_hollow_is_empty();
                        }
                    }
                }
            }
        }
        copy
    }
}

/// The lower-case hexadecimal digit of the nibble `n`, as a string.
fn hex_str(n: usize) -> (digit: &'static str)
    requires
        n < FANOUT,
    ensures
        digit@ == seq![hex_char(n)],
{
    let digits: &'static str = "0123456789abcdef";
    proof {
        reveal_strlit("0123456789abcdef");
        assert(is_ascii(digits));
    }
    let digit = digits.substring_ascii(n, n + 1);
    assert(digit@ =~= seq![hex_char(n)]);
    digit
}

} // verus!
