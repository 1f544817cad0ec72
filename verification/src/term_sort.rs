//! Sorting the terms of a field by their keys.
use crate::arena::Addr;
use crate::order::{key_le, lemma_lex_le_transitive, lex_le};
use crate::term_map::UnorderedTermId;
use vstd::multiset::Multiset;
use vstd::prelude::*;
use vstd::seq_lib::lemma_multiset_commutative;
use vstd::slice::*;

verus! {

/// No key comes before the key of an earlier triple.
pub open spec fn sorted_by_key(s: Seq<(&[u8], Addr, UnorderedTermId)>) -> bool {
    forall|i: int, j: int|
        0 <= i < j < s.len() ==> lex_le((#[trigger] s[i]).0@, (#[trigger] s[j]).0@)
}

/// A list without triples has the empty multiset.
proof fn lemma_empty_list(s: Seq<(&[u8], Addr, UnorderedTermId)>)
    requires
        s.len() == 0,
    ensures
        s.to_multiset() == Multiset::<(&[u8], Addr, UnorderedTermId)>::empty(),
{
    broadcast use vstd::multiset::group_multiset_axioms;

    s.to_multiset_ensures();
    assert(s.to_multiset() =~= Multiset::<(&[u8], Addr, UnorderedTermId)>::empty());
}

/// Merges two sorted lists into one.
fn merge<'a>(
    left: &Vec<(&'a [u8], Addr, UnorderedTermId)>,
    right: &Vec<(&'a [u8], Addr, UnorderedTermId)>,
) -> (out: Vec<(&'a [u8], Addr, UnorderedTermId)>)
    requires
        sorted_by_key(left@),
        sorted_by_key(right@),
    ensures
        sorted_by_key(out@),
        out@.to_multiset() == left@.to_multiset().add(right@.to_multiset()),
{
    let mut out: Vec<(&'a [u8], Addr, UnorderedTermId)> = Vec::new();
    let mut i: usize = 0;
    let mut j: usize = 0;
    proof {
        assert(left@.take(0) == Seq::<(&[u8], Addr, UnorderedTermId)>::empty());
        assert(right@.take(0) == Seq::<(&[u8], Addr, UnorderedTermId)>::empty());
        lemma_empty_list(out@);
        lemma_empty_list(left@.take(0));
        lemma_empty_list(right@.take(0));
        assert(out@.to_multiset() =~= left@.take(0).to_multiset().add(right@.take(0).to_multiset()));
    }
    while i < left.len() || j < right.len()
        invariant
            i <= left@.len(),
            j <= right@.len(),
            sorted_by_key(left@),
            sorted_by_key(right@),
            sorted_by_key(out@),
            out@.to_multiset() == left@.take(i as int).to_multiset().add(
                right@.take(j as int).to_multiset(),
            ),
            forall|k: int, m: int|
                0 <= k < out@.len() && i <= m < left@.len() ==> lex_le(
                    (#[trigger] out@[k]).0@,
                    (#[trigger] left@[m]).0@,
                ),
            forall|k: int, m: int|
                0 <= k < out@.len() && j <= m < right@.len() ==> lex_le(
                    (#[trigger] out@[k]).0@,
                    (#[trigger] right@[m]).0@,
                ),
        decreases left@.len() - i + right@.len() - j,
    {
        let from_left = if i < left.len() && j < right.len() {
            key_le(left[i].0, right[j].0)
        } else {
            i < left.len()
        };
        let ghost before = out@;
        if from_left {
            let entry = left[i];
            out.push(entry);
            proof {
                assert(left@.take(i + 1) == left@.take(i as int).push(entry));
                left@.take(i as int).to_multiset_ensures();
                before.to_multiset_ensures();
                assert(out@.to_multiset() =~= left@.take(i + 1).to_multiset().add(
                    right@.take(j as int).to_multiset(),
                ));
                assert forall|k: int, m: int|
                    0 <= k < out@.len() && j <= m < right@.len() implies lex_le(
                    (#[trigger] out@[k]).0@,
                    (#[trigger] right@[m]).0@,
                ) by {
                    if k == before.len() {
                        assert(lex_le(left@[i as int].0@, right@[j as int].0@));
                        if j < m {
                            assert(lex_le(right@[j as int].0@, right@[m].0@));
                            lemma_lex_le_transitive(entry.0@, right@[j as int].0@, right@[m].0@);
                        }
                    } else {
                        assert(out@[k] == before[k]);
                    }
                }
                assert forall|k: int, m: int|
                    0 <= k < out@.len() && i + 1 <= m < left@.len() implies lex_le(
                    (#[trigger] out@[k]).0@,
                    (#[trigger] left@[m]).0@,
                ) by {
                    if k == before.len() {
                        assert(lex_le(left@[i as int].0@, left@[m].0@));
                    } else {
                        assert(out@[k] == before[k]);
                    }
                }
                assert forall|k: int, m: int| 0 <= k < m < out@.len() implies lex_le(
                    (#[trigger] out@[k]).0@,
                    (#[trigger] out@[m]).0@,
                ) by {
                    if m == before.len() {
                        assert(out@[k] == before[k]);
                        assert(lex_le(before[k].0@, left@[i as int].0@));
                    } else {
                        assert(out@[k] == before[k] && out@[m] == before[m]);
                    }
                }
            }
            i = i + 1;
        } else {
            let entry = right[j];
            out.push(entry);
            proof {
                assert(right@.take(j + 1) == right@.take(j as int).push(entry));
                right@.take(j as int).to_multiset_ensures();
                before.to_multiset_ensures();
                assert(out@.to_multiset() =~= left@.take(i as int).to_multiset().add(
                    right@.take(j + 1).to_multiset(),
                ));
                assert forall|k: int, m: int|
                    0 <= k < out@.len() && i <= m < left@.len() implies lex_le(
                    (#[trigger] out@[k]).0@,
                    (#[trigger] left@[m]).0@,
                ) by {
                    if k == before.len() {
                        assert(lex_le(right@[j as int].0@, left@[i as int].0@));
                        if i < m {
                            assert(lex_le(left@[i as int].0@, left@[m].0@));
                            lemma_lex_le_transitive(entry.0@, left@[i as int].0@, left@[m].0@);
                        }
                    } else {
                        assert(out@[k] == before[k]);
                    }
                }
                assert forall|k: int, m: int|
                    0 <= k < out@.len() && j + 1 <= m < right@.len() implies lex_le(
                    (#[trigger] out@[k]).0@,
                    (#[trigger] right@[m]).0@,
                ) by {
                    if k == before.len() {
                        assert(lex_le(right@[j as int].0@, right@[m].0@));
                    } else {
                        assert(out@[k] == before[k]);
                    }
                }
                assert forall|k: int, m: int| 0 <= k < m < out@.len() implies lex_le(
                    (#[trigger] out@[k]).0@,
                    (#[trigger] out@[m]).0@,
                ) by {
                    if m == before.len() {
                        assert(out@[k] == before[k]);
                        assert(lex_le(before[k].0@, right@[j as int].0@));
                    } else {
                        assert(out@[k] == before[k] && out@[m] == before[m]);
                    }
                }
            }
            j = j + 1;
        }
    }
    proof {
        assert(left@.take(left@.len() as int) == left@);
        assert(right@.take(right@.len() as int) == right@);
    }
    out
}

/// The triples of `entries` sorted by their keys: the same triples, and no
/// key comes before the key of an earlier one.
pub fn sort_by_term<'a>(entries: &[(&'a [u8], Addr, UnorderedTermId)]) -> (out: Vec<
    (&'a [u8], Addr, UnorderedTermId),
>)
    ensures
        sorted_by_key(out@),
        out@.to_multiset() == entries@.to_multiset(),
    decreases entries@.len(),
{
    let n: usize = entries.len();
    if n <= 1 {
        let mut out: Vec<(&'a [u8], Addr, UnorderedTermId)> = Vec::new();
        if n == 1 {
            out.push(entries[0]);
        }
        assert(out@ =~= entries@);
        out
    } else {
        let mid: usize = n / 2;
        let left = sort_by_term(slice_subrange(entries, 0, mid));
        let right = sort_by_term(slice_subrange(entries, mid, n));
        proof {
            assert(entries@ == entries@.subrange(0, mid as int) + entries@.subrange(
                mid as int,
                n as int,
            ));
            lemma_multiset_commutative(
                entries@.subrange(0, mid as int),
                entries@.subrange(mid as int, n as int),
            );
        }
        merge(&left, &right)
    }
}

} // verus!
