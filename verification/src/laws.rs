//! What holds of the trie whatever it stores.
//!
//! The operations are stated over the entries of a trie, so the laws are
//! stated over entries too: `insert` is `Map::insert` under the nibbles of
//! the key, `delete` is `Map::remove`, `get` is `entry_at`.

use vstd::prelude::*;
use crate::diagram::{diagram, lemma_diagram_of_empty, value_suffix};
use crate::model::{entry_at, on_path, Entries};
use crate::nibbles::{is_hex, nibbles_of};
use crate::node::Node;

verus! {

/// What is stored under a key is what is found under that key.
pub proof fn law_round_trip(m: Entries, key: Seq<char>, value: Seq<char>)
    ensures
        entry_at(m.insert(nibbles_of(key), value), nibbles_of(key)) == Some(value),
{
}

/// Of two values stored under one key only the later one is kept: the first
/// insertion might as well not have happened.
pub proof fn law_overwrite(m: Entries, key: Seq<char>, first: Seq<char>, second: Seq<char>)
    ensures
        m.insert(nibbles_of(key), first).insert(nibbles_of(key), second) == m.insert(
            nibbles_of(key),
            second,
        ),
        entry_at(
            m.insert(nibbles_of(key), first).insert(nibbles_of(key), second),
            nibbles_of(key),
        ) == Some(second),
{
    assert(m.insert(nibbles_of(key), first).insert(nibbles_of(key), second) =~= m.insert(
        nibbles_of(key),
        second,
    ));
}

/// The entries of a trie that started empty and had `pairs` inserted one
/// after the other.
pub open spec fn filled(pairs: Seq<(Seq<char>, Seq<char>)>) -> Entries
    decreases pairs.len(),
{
    if pairs.len() == 0 {
        Entries::empty()
    } else {
        filled(pairs.drop_last()).insert(nibbles_of(pairs.last().0), pairs.last().1)
    }
}

/// Nothing is found under a key whose nibbles are those of no inserted key.
pub proof fn law_absence(pairs: Seq<(Seq<char>, Seq<char>)>, key: Seq<char>)
    requires
        forall|i: int|
            0 <= i < pairs.len() ==> nibbles_of(#[trigger] pairs[i].0) != nibbles_of(key),
    ensures
        entry_at(filled(pairs), nibbles_of(key)) == None::<Seq<char>>,
    decreases pairs.len(),
{
    if pairs.len() > 0 {
        assert forall|i: int| 0 <= i < pairs.drop_last().len() implies nibbles_of(
            #[trigger] pairs.drop_last()[i].0,
        ) != nibbles_of(key) by {
            assert(pairs.drop_last()[i] == pairs[i]);
        }
        law_absence(pairs.drop_last(), key);
        assert(nibbles_of(pairs[pairs.len() - 1].0) != nibbles_of(key));
    }
}

/// Insertion and deletion under one key leave every other key as it was.
pub proof fn law_other_keys_untouched(
    m: Entries,
    key: Seq<char>,
    value: Seq<char>,
    other: Seq<char>,
)
    requires
        nibbles_of(other) != nibbles_of(key),
    ensures
        entry_at(m.insert(nibbles_of(key), value), nibbles_of(other)) == entry_at(
            m,
            nibbles_of(other),
        ),
        entry_at(m.remove(nibbles_of(key)), nibbles_of(other)) == entry_at(m, nibbles_of(other)),
{
}

/// Nothing is found under a deleted key.
pub proof fn law_delete_removes(m: Entries, key: Seq<char>)
    ensures
        entry_at(m.remove(nibbles_of(key)), nibbles_of(key)) == None::<Seq<char>>,
{
}

/// Deleting a key a second time changes nothing.
pub proof fn law_delete_idempotent(m: Entries, key: Seq<char>)
    ensures
        m.remove(nibbles_of(key)).remove(nibbles_of(key)) == m.remove(nibbles_of(key)),
{
    assert(m.remove(nibbles_of(key)).remove(nibbles_of(key)) =~= m.remove(nibbles_of(key)));
}

/// Deleting a key under which nothing is stored changes nothing.
pub proof fn law_delete_absent(m: Entries, key: Seq<char>)
    requires
        !m.contains_key(nibbles_of(key)),
    ensures
        m.remove(nibbles_of(key)) == m,
{
    assert(m.remove(nibbles_of(key)) =~= m);
}

/// A trie that holds nothing but one key, and has that key deleted, is
/// back to the root alone: it has no other node, and its diagram is the
/// line of the root.
pub proof fn law_pruning(trie: Node, key: Seq<char>, value: Seq<char>, path: Seq<usize>)
    requires
        trie.wf(),
        trie@ == Entries::empty().insert(nibbles_of(key), value).remove(nibbles_of(key)),
    ensures
        trie@ == Entries::empty(),
        trie.has_node(path) <==> path.len() == 0,
        diagram(trie@) == "(root)"@ + seq!['\n'],
{
    assert(trie@ =~= Entries::empty());
    trie.lemma_nodes(path);
    lemma_diagram_of_empty();
}

/// Deleting one key keeps every other key, its value, and every node on the
/// way to it.
pub proof fn law_non_interference(
    before: Node,
    after: Node,
    gone: Seq<usize>,
    kept: Seq<usize>,
    path: Seq<usize>,
)
    requires
        before.wf(),
        after.wf(),
        after@ == before@.remove(gone),
        before@.contains_key(kept),
        kept != gone,
        path.is_prefix_of(kept),
    ensures
        entry_at(after@, kept) == entry_at(before@, kept),
        after.has_node(path),
{
    after.lemma_nodes(path);
    assert(after@.contains_key(kept));
}

/// Deleting a key removes exactly the nodes that served no other key.
pub proof fn law_delete_prunes(before: Node, after: Node, gone: Seq<usize>, path: Seq<usize>)
    requires
        before.wf(),
        after.wf(),
        after@ == before@.remove(gone),
    ensures
        after.has_node(path) <==> path.len() == 0 || exists|k: Seq<usize>| #[trigger]
            before@.contains_key(k) && k != gone && path.is_prefix_of(k),
{
    after.lemma_nodes(path);
    if after.has_node(path) && path.len() > 0 {
        let k = choose|k: Seq<usize>| #[trigger] after@.contains_key(k) && path.is_prefix_of(k);
        assert(before@.contains_key(k) && k != gone);
    }
    if path.len() > 0 && exists|k: Seq<usize>| #[trigger]
        before@.contains_key(k) && k != gone && path.is_prefix_of(k) {
        let k = choose|k: Seq<usize>| #[trigger]
            before@.contains_key(k) && k != gone && path.is_prefix_of(k);
        assert(after@.contains_key(k));
    }
}

/// A character that is no hexadecimal digit can be left out of a key,
/// wherever it stands: the key names the same path.
pub proof fn law_permissive_parsing(head: Seq<char>, c: char, tail: Seq<char>)
    requires
        !is_hex(c),
    ensures
        nibbles_of(head + seq![c] + tail) == nibbles_of(head + tail),
{
    let pred = |c: char| is_hex(c);
    Seq::filter_distributes_over_add(head + seq![c], tail, pred);
    Seq::filter_distributes_over_add(head, seq![c], pred);
    Seq::filter_distributes_over_add(head, tail, pred);
    reveal_with_fuel(Seq::filter, 2);
    assert(seq![c].drop_last() =~= Seq::<char>::empty());
    assert(seq![c].filter(pred) =~= Seq::<char>::empty());
    assert((head + seq![c] + tail).filter(pred) =~= (head + tail).filter(pred));
}

/// The empty key names the root: a value stored under it is found under
/// it, shows on the line of the root, and no node is added for it.
pub proof fn law_empty_key(m: Entries, value: Seq<char>, path: Seq<usize>)
    ensures
        nibbles_of(Seq::empty()) == Seq::<usize>::empty(),
        entry_at(m.insert(Seq::empty(), value), nibbles_of(Seq::empty())) == Some(value),
        value_suffix(m.insert(Seq::empty(), value)) == " = "@ + value,
        on_path(m.insert(Seq::empty(), value), path) == on_path(m, path),
{
    let after = m.insert(Seq::empty(), value);
    reveal_with_fuel(Seq::filter, 1);
    assert(nibbles_of(Seq::empty()) =~= Seq::<usize>::empty());
    if on_path(after, path) && path.len() > 0 {
        let k = choose|k: Seq<usize>| #[trigger] after.contains_key(k) && path.is_prefix_of(k);
        assert(m.contains_key(k));
    }
    if on_path(m, path) && path.len() > 0 {
        let k = choose|k: Seq<usize>| #[trigger] m.contains_key(k) && path.is_prefix_of(k);
        assert(after.contains_key(k));
    }
}

} // verus!
