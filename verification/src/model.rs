//! The mathematical model of a trie: a map from nibble paths to values.

use vstd::prelude::*;

verus! {

/// The number of child slots of a node, one for each nibble.
pub const FANOUT: usize = 16;

/// What a trie holds: each stored value under the nibble path of its key.
pub type Entries = Map<Seq<usize>, Seq<char>>;

/// The entries below slot `i`: the keys that begin with `i`, with that first
/// nibble taken off.
pub open spec fn branch(m: Entries, i: usize) -> Entries {
    Map::new(|k: Seq<usize>| m.contains_key(seq![i] + k), |k: Seq<usize>| m[seq![i] + k])
}

/// Whether a trie with the entries `m` has a node at `path`: the root is
/// always there, and below it the nodes that the key of an entry passes
/// through or ends at.
pub open spec fn on_path(m: Entries, path: Seq<usize>) -> bool {
    path.len() == 0 || exists|k: Seq<usize>| #[trigger] m.contains_key(k) && path.is_prefix_of(k)
}

/// What is stored under `key`, if anything.
pub open spec fn entry_at(m: Entries, key: Seq<usize>) -> Option<Seq<char>> {
    if m.contains_key(key) {
        Some(m[key])
    } else {
        None
    }
}

/// Two tries are equal when they agree on the empty key and on every branch.
pub proof fn lemma_entries_by_branches(a: Entries, b: Entries)
    requires
        a.contains_key(Seq::empty()) == b.contains_key(Seq::empty()),
        a.contains_key(Seq::empty()) ==> a[Seq::empty()] == b[Seq::empty()],
        forall|i: usize| #[trigger] branch(a, i) == branch(b, i),
    ensures
        a == b,
{
    assert forall|k: Seq<usize>|
        #![trigger a.dom().contains(k)]
        #![trigger b.dom().contains(k)]
        a.dom().contains(k) == b.dom().contains(k) && (a.dom().contains(k) ==> a[k] == b[k]) by {
        if k.len() == 0 {
            assert(k =~= Seq::empty());
        } else {
            let rest = k.drop_first();
            assert(k =~= seq![k[0]] + rest);
            assert(branch(a, k[0]) == branch(b, k[0]));
            assert(branch(a, k[0]).contains_key(rest) == a.contains_key(k));
            assert(branch(b, k[0]).contains_key(rest) == b.contains_key(k));
            if a.contains_key(k) {
                assert(branch(a, k[0])[rest] == a[k]);
                assert(branch(b, k[0])[rest] == b[k]);
            }
        }
    }
    assert(a =~= b);
}

/// Storing under a key changes only the branch of the key's first nibble.
pub proof fn lemma_branch_insert(m: Entries, key: Seq<usize>, value: Seq<char>, i: usize)
    ensures
        branch(m.insert(key, value), i) == if key.len() > 0 && key[0] == i {
            branch(m, i).insert(key.drop_first(), value)
        } else {
            branch(m, i)
        },
{
    let after = branch(m.insert(key, value), i);
    let expect = if key.len() > 0 && key[0] == i {
        branch(m, i).insert(key.drop_first(), value)
    } else {
        branch(m, i)
    };
    assert forall|k: Seq<usize>|
        #![trigger after.dom().contains(k)]
        #![trigger expect.dom().contains(k)]
        after.dom().contains(k) == expect.dom().contains(k) && (after.dom().contains(k)
            ==> after[k] == expect[k]) by {
        let full = seq![i] + k;
        assert(full[0] == i);
        assert(full.drop_first() =~= k);
        if key.len() > 0 && key[0] == i {
            assert(key =~= seq![i] + key.drop_first());
        }
    }
    assert(after =~= expect);
}

/// Removing a key changes only the branch of the key's first nibble.
pub proof fn lemma_branch_remove(m: Entries, key: Seq<usize>, i: usize)
    ensures
        branch(m.remove(key), i) == if key.len() > 0 && key[0] == i {
            branch(m, i).remove(key.drop_first())
        } else {
            branch(m, i)
        },
{
    let after = branch(m.remove(key), i);
    let expect = if key.len() > 0 && key[0] == i {
        branch(m, i).remove(key.drop_first())
    } else {
        branch(m, i)
    };
    assert forall|k: Seq<usize>|
        #![trigger after.dom().contains(k)]
        #![trigger expect.dom().contains(k)]
        after.dom().contains(k) == expect.dom().contains(k) && (after.dom().contains(k)
            ==> after[k] == expect[k]) by {
        let full = seq![i] + k;
        assert(full[0] == i);
        assert(full.drop_first() =~= k);
        if key.len() > 0 && key[0] == i {
            assert(key =~= seq![i] + key.drop_first());
        }
    }
    assert(after =~= expect);
}

} // verus!
