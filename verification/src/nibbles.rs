//! Decomposition of textual keys into nibbles.

use vstd::prelude::*;
use crate::model::FANOUT;

verus! {

/// The value of `c` read as a hexadecimal digit, in either case, or `None`
/// when `c` is no such digit.
pub open spec fn hex_value(c: char) -> Option<usize> {
    if '0' <= c <= '9' {
        Some((c as int - '0' as int) as usize)
    } else if 'a' <= c <= 'f' {
        Some((c as int - 'a' as int + 10) as usize)
    } else if 'A' <= c <= 'F' {
        Some((c as int - 'A' as int + 10) as usize)
    } else {
        None
    }
}

/// Whether `c` is a hexadecimal digit.
pub open spec fn is_hex(c: char) -> bool {
    hex_value(c) is Some
}

/// The nibbles of a key: the values of its hexadecimal digits in order, every
/// other character left out.
pub open spec fn nibbles_of(key: Seq<char>) -> Seq<usize> {
    key.filter(|c: char| is_hex(c)).map_values(|c: char| hex_value(c).unwrap())
}

/// Decodes one character as a hexadecimal digit.
pub fn hex_digit(c: char) -> (r: Option<usize>)
    ensures
        r == hex_value(c),
{
    if '0' <= c && c <= '9' {
        Some((c as u32 - '0' as u32) as usize)
    } else if 'a' <= c && c <= 'f' {
        Some((c as u32 - 'a' as u32 + 10) as usize)
    } else if 'A' <= c && c <= 'F' {
        Some((c as u32 - 'A' as u32 + 10) as usize)
    } else {
        None
    }
}

/// Appending one character to a key appends its nibble, if it has one.
pub proof fn lemma_nibbles_push(key: Seq<char>, c: char)
    ensures
        nibbles_of(key.push(c)) == match hex_value(c) {
            Some(d) => nibbles_of(key).push(d),
            None => nibbles_of(key),
        },
{
    let pred = |c: char| is_hex(c);
    reveal_with_fuel(Seq::filter, 2);
    assert(key.push(c).drop_last() =~= key);
    assert(key.push(c).filter(pred) == if is_hex(c) {
        key.filter(pred).push(c)
    } else {
        key.filter(pred)
    });
}

/// Every nibble of a key is below sixteen.
pub proof fn lemma_nibbles_in_range(key: Seq<char>)
    ensures
        forall|i: int| 0 <= i < nibbles_of(key).len() ==> #[trigger] nibbles_of(key)[i] < FANOUT,
{
    let pred = |c: char| is_hex(c);
    let digits = key.filter(pred);
    assert forall|i: int| 0 <= i < nibbles_of(key).len() implies #[trigger] nibbles_of(key)[i]
        < FANOUT by {
        key.lemma_filter_pred(pred, i);
        assert(pred(digits[i]));
    }
}

/// Decomposes a key into its nibbles.
pub fn hex_to_nibbles(s: &str) -> (r: Vec<usize>)
    ensures
        r@ == nibbles_of(s@),
        forall|i: int| 0 <= i < r@.len() ==> r@[i] < FANOUT,
{
    let mut out: Vec<usize> = Vec::new();
    proof {
        assert(s@.take(0) =~= Seq::<char>::empty());
        reveal_with_fuel(Seq::filter, 1);
    }
    for c in it: s.chars()
        invariant
            it.seq() == s@,
            out@ == nibbles_of(s@.take(it.index())),
    {
        proof {
            let done = it.index();
            assert(c == it.seq()[done]);
            assert(s@.take(done + 1) =~= s@.take(done).push(c));
            lemma_nibbles_push(s@.take(done), c);
        }
        match hex_digit(c) {
            Some(d) => out.push(d),
            None => {},
        }
    }
    proof {
        assert(s@.take(s@.len() as int) =~= s@);
        lemma_nibbles_in_range(s@);
    }
    out
}

} // verus!
