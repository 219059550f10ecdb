//! The tree diagram of a trie, stated over its entries.
//!
//! The diagram has one line for the root and one for every node below it,
//! depth first, the children of a node in ascending nibble order. A node
//! exists wherever an entry's key passes through or ends.

use vstd::prelude::*;
use crate::model::{branch, Entries, FANOUT};

verus! {

/// Whether the trie has a node in slot `i` of its root: some key begins
/// with `i`.
pub open spec fn occupied(m: Entries, i: usize) -> bool {
    exists|k: Seq<usize>| #[trigger] branch(m, i).contains_key(k)
}

/// Whether no slot after `i` is occupied.
pub open spec fn last_occupied(m: Entries, i: usize) -> bool {
    forall|j: usize| i < j < FANOUT ==> !occupied(m, j)
}

/// Whether no key of the trie is longer than `depth`.
pub open spec fn depth_within(m: Entries, depth: nat) -> bool {
    forall|k: Seq<usize>| m.contains_key(k) ==> k.len() <= depth
}

/// A depth that no key of the trie exceeds, where there is one.
pub open spec fn depth_of(m: Entries) -> nat {
    choose|depth: nat| depth_within(m, depth)
}

/// The lower-case hexadecimal digit of the nibble `n`.
pub open spec fn hex_char(n: usize) -> char {
    if n < 10 {
        ('0' as int + n) as char
    } else {
        ('a' as int + n - 10) as char
    }
}

/// What a line shows of the value at the root of `m`: nothing where there
/// is none.
pub open spec fn value_suffix(m: Entries) -> Seq<char> {
    if m.contains_key(Seq::empty()) {
        " = "@ + m[Seq::empty()]
    } else {
        Seq::empty()
    }
}

/// The glyph that joins a node to its parent.
pub open spec fn connector(last: bool) -> Seq<char> {
    if last {
        "└── "@
    } else {
        "├── "@
    }
}

/// What a node adds to the indentation of the lines below it: a vertical
/// bar while siblings follow, blanks after the last one.
pub open spec fn continuation(last: bool) -> Seq<char> {
    if last {
        "    "@
    } else {
        "│   "@
    }
}

/// The line of the node in slot `i` of the root of `m`.
pub open spec fn node_line(m: Entries, indent: Seq<char>, i: usize) -> Seq<char> {
    indent + connector(last_occupied(m, i)) + seq![hex_char(i)] + value_suffix(branch(m, i))
        + seq!['\n']
}

/// The lines of all nodes below the root of `m` that are reached through
/// the slots from `from` on, down to `depth` levels.
pub open spec fn lines_below(m: Entries, indent: Seq<char>, from: usize, depth: nat) -> Seq<char>
    decreases depth, FANOUT - from,
{
    if from >= FANOUT {
        Seq::empty()
    } else if occupied(m, from) && depth > 0 {
        node_line(m, indent, from) + lines_below(
            branch(m, from),
            indent + continuation(last_occupied(m, from)),
            0,
            (depth - 1) as nat,
        ) + lines_below(m, indent, (from + 1) as usize, depth)
    } else {
        lines_below(m, indent, (from + 1) as usize, depth)
    }
}

/// The diagram of the trie with the entries `m`.
pub open spec fn diagram(m: Entries) -> Seq<char> {
    "(root)"@ + value_suffix(m) + seq!['\n'] + lines_below(m, Seq::empty(), 0, depth_of(m))
}

/// Below an occupied slot every key is one nibble shorter.
pub proof fn lemma_depth_of_branch(m: Entries, i: usize, depth: nat)
    requires
        depth_within(m, depth),
        occupied(m, i),
    ensures
        depth > 0,
        depth_within(branch(m, i), (depth - 1) as nat),
{
    let k = choose|k: Seq<usize>| #[trigger] branch(m, i).contains_key(k);
    assert(m.contains_key(seq![i] + k));
    assert forall|k: Seq<usize>| branch(m, i).contains_key(k) implies k.len() <= depth - 1 by {
        assert(m.contains_key(seq![i] + k));
    }
}

/// The lines do not depend on the depth, once it covers every key.
pub proof fn lemma_lines_any_depth(m: Entries, indent: Seq<char>, from: usize, d1: nat, d2: nat)
    requires
        depth_within(m, d1),
        depth_within(m, d2),
    ensures
        lines_below(m, indent, from, d1) == lines_below(m, indent, from, d2),
    decreases d1, FANOUT - from,
{
    if from < FANOUT {
        lemma_lines_any_depth(m, indent, (from + 1) as usize, d1, d2);
        if occupied(m, from) {
            lemma_depth_of_branch(m, from, d1);
            lemma_depth_of_branch(m, from, d2);
            lemma_lines_any_depth(
                branch(m, from),
                indent + continuation(last_occupied(m, from)),
                0,
                (d1 - 1) as nat,
                (d2 - 1) as nat,
            );
        }
    }
}

/// The diagram of the empty trie is the line of the root alone.
pub proof fn lemma_diagram_of_empty()
    ensures
        diagram(Entries::empty()) == "(root)"@ + seq!['\n'],
{
    let m = Entries::empty();
    assert(depth_within(m, 0));
    lemma_lines_none_occupied(m, Seq::empty(), 0, depth_of(m));
    assert(diagram(m) =~= "(root)"@ + seq!['\n']);
}

/// Where no slot from `from` on is occupied, there are no lines.
pub proof fn lemma_lines_none_occupied(m: Entries, indent: Seq<char>, from: usize, depth: nat)
    requires
        forall|j: usize| from <= j < FANOUT ==> !occupied(m, j),
    ensures
        lines_below(m, indent, from, depth) == Seq::<char>::empty(),
    decreases FANOUT - from,
{
    if from < FANOUT {
        lemma_lines_none_occupied(m, indent, (from + 1) as usize, depth);
    }
}

} // verus!
