//! The open-addressed slot table behind a term map, and the hash of its keys.
//!
//! A slot holds `0` when it is free and `i + 1` when it points at entry `i`.
//! An entry is searched from the home slot of its hash onwards, wrapping at
//! the end of the table, until a free slot is met.
use vstd::prelude::*;

verus! {

/// The 64-bit FNV-1a hash of `bytes`.
pub open spec fn hash_of(bytes: Seq<u8>) -> u64
    decreases bytes.len(),
{
    if bytes.len() == 0 {
        0xcbf29ce484222325u64
    } else {
        (hash_of(bytes.drop_last()) ^ (bytes.last() as u64)).wrapping_mul(0x100000001b3u64)
    }
}

pub fn hash_bytes(bytes: &[u8]) -> (h: u64)
    ensures
        h == hash_of(bytes@),
{
    let mut h: u64 = 0xcbf29ce484222325u64;
    let mut i: usize = 0;
    while i < bytes.len()
        invariant
            i <= bytes@.len(),
            h == hash_of(bytes@.subrange(0, i as int)),
        decreases bytes@.len() - i,
    {
        proof {
            assert(bytes@.subrange(0, i + 1).drop_last() == bytes@.subrange(0, i as int));
        }
        h = (h ^ (bytes[i] as u64)).wrapping_mul(0x100000001b3u64);
        i = i + 1;
    }
    assert(bytes@.subrange(0, bytes@.len() as int) == bytes@);
    h
}

pub fn bytes_eq(a: &[u8], b: &[u8]) -> (same: bool)
    ensures
        same == (a@ == b@),
{
    if a.len() != b.len() {
        return false;
    }
    let mut i: usize = 0;
    while i < a.len()
        invariant
            a@.len() == b@.len(),
            i <= a@.len(),
            a@.subrange(0, i as int) == b@.subrange(0, i as int),
        decreases a@.len() - i,
    {
        if a[i] != b[i] {
            assert(a@[i as int] != b@[i as int]);
            return false;
        }
        proof {
            assert(a@.subrange(0, i + 1) == a@.subrange(0, i as int).push(a@[i as int]));
            assert(b@.subrange(0, i + 1) == b@.subrange(0, i as int).push(b@[i as int]));
        }
        i = i + 1;
    }
    assert(a@.subrange(0, a@.len() as int) == a@);
    assert(b@.subrange(0, b@.len() as int) == b@);
    true
}

/// The slot at which the search for `hash` starts in a table of `cap` slots.
pub open spec fn home(hash: u64, cap: nat) -> int {
    (hash as int) % (cap as int)
}

/// The slot reached `d` steps after `h`.
pub open spec fn probe(h: int, d: int, cap: int) -> int {
    if h + d < cap {
        h + d
    } else {
        h + d - cap
    }
}

/// No slot is free among the first `d` of the search that starts at `h`.
pub open spec fn run_is_full(t: Seq<usize>, h: int, d: int) -> bool {
    forall|j: int| 0 <= j < d ==> t[#[trigger] probe(h, j, t.len() as int)] != 0
}

/// The search that starts at `h` meets `value` after `d` steps, and no free
/// slot before it.
pub open spec fn found_at(t: Seq<usize>, h: int, d: int, value: usize) -> bool {
    &&& 0 <= d < t.len()
    &&& t[probe(h, d, t.len() as int)] == value
    &&& run_is_full(t, h, d)
}

/// The search for `hash` meets `value`.
pub open spec fn reachable(t: Seq<usize>, hash: u64, value: usize) -> bool {
    exists|d: int| #[trigger] found_at(t, home(hash, t.len()), d, value)
}

/// Number of slots in use.
pub open spec fn count_used(t: Seq<usize>) -> nat
    decreases t.len(),
{
    if t.len() == 0 {
        0
    } else {
        count_used(t.drop_last()) + if t.last() != 0 {
            1nat
        } else {
            0nat
        }
    }
}

pub proof fn lemma_count_after_claim(t: Seq<usize>, s: int, value: usize)
    requires
        0 <= s < t.len(),
        t[s] == 0,
        value != 0,
    ensures
        count_used(t.update(s, value)) == count_used(t) + 1,
    decreases t.len(),
{
    let u = t.update(s, value);
    if s == t.len() - 1 {
        assert(u.drop_last() == t.drop_last());
    } else {
        assert(u.drop_last() == t.drop_last().update(s, value));
        lemma_count_after_claim(t.drop_last(), s, value);
    }
}

pub proof fn lemma_count_bound(t: Seq<usize>)
    ensures
        count_used(t) <= t.len(),
        (forall|s: int| 0 <= s < t.len() ==> t[s] != 0) ==> count_used(t) == t.len(),
    decreases t.len(),
{
    if t.len() > 0 {
        lemma_count_bound(t.drop_last());
        if forall|s: int| 0 <= s < t.len() ==> t[s] != 0 {
            assert forall|s: int| 0 <= s < t.drop_last().len() implies t.drop_last()[s] != 0 by {
                assert(t.drop_last()[s] == t[s]);
            }
        }
    }
}

pub proof fn lemma_count_of_free_table(t: Seq<usize>)
    requires
        forall|s: int| 0 <= s < t.len() ==> t[s] == 0,
    ensures
        count_used(t) == 0,
    decreases t.len(),
{
    if t.len() > 0 {
        assert forall|s: int| 0 <= s < t.drop_last().len() implies t.drop_last()[s] == 0 by {
            assert(t.drop_last()[s] == t[s]);
        }
        lemma_count_of_free_table(t.drop_last());
    }
}

/// A search that is full for as many steps as the table has slots has seen
/// every slot.
pub proof fn lemma_full_run_is_full_table(t: Seq<usize>, h: int)
    requires
        0 <= h < t.len(),
        run_is_full(t, h, t.len() as int),
    ensures
        count_used(t) == t.len(),
{
    let cap = t.len() as int;
    assert forall|s: int| 0 <= s < t.len() implies t[s] != 0 by {
        let d = if s >= h {
            s - h
        } else {
            s + cap - h
        };
        assert(probe(h, d, cap) == s);
    }
    lemma_count_bound(t);
}

/// Claiming a free slot keeps every entry where the search finds it.
pub proof fn lemma_claim_keeps_found(t: Seq<usize>, s: int, w: usize, h: int, d: int, value: usize)
    requires
        0 <= s < t.len(),
        0 <= h < t.len(),
        t[s] == 0,
        w != 0,
        value != 0,
        found_at(t, h, d, value),
    ensures
        found_at(t.update(s, w), h, d, value),
{
    let u = t.update(s, w);
    let cap = t.len() as int;
    assert forall|j: int| 0 <= j < d implies u[#[trigger] probe(h, j, cap)] != 0 by {
        assert(t[probe(h, j, cap)] != 0);
    }
}

pub proof fn lemma_home_in_range(hash: u64, cap: nat)
    requires
        cap > 0,
    ensures
        0 <= home(hash, cap) < cap,
{
}

/// A table of `cap` free slots.
pub fn new_table(cap: usize) -> (t: Vec<usize>)
    ensures
        t@.len() == cap,
        forall|s: int| 0 <= s < cap ==> t@[s] == 0,
        count_used(t@) == 0,
{
    let mut t: Vec<usize> = Vec::new();
    let mut i: usize = 0;
    while i < cap
        invariant
            i <= cap,
            t@.len() == i,
            forall|s: int| 0 <= s < i ==> t@[s] == 0,
        decreases cap - i,
    {
        t.push(0usize);
        i = i + 1;
    }
    proof {
        lemma_count_of_free_table(t@);
    }
    t
}

/// Puts `value` into the first free slot of the search for `hash`.
pub fn claim_slot(table: &mut Vec<usize>, hash: u64, value: usize)
    requires
        value != 0,
        count_used(old(table)@) < old(table)@.len(),
    ensures
        final(table)@.len() == old(table)@.len(),
        exists|s: int|
            0 <= s < old(table)@.len() && old(table)@[s] == 0 && #[trigger] old(table)@.update(
                s,
                value,
            ) == final(table)@,
        reachable(final(table)@, hash, value),
        count_used(final(table)@) == count_used(old(table)@) + 1,
{
    let cap: usize = table.len();
    let h: usize = (hash % (cap as u64)) as usize;
    let ghost t = table@;
    proof {
        lemma_home_in_range(hash, cap as nat);
    }
    let mut s: usize = h;
    let mut d: usize = 0;
    while d < cap
        invariant
            table@ == t,
            t == old(table)@,
            count_used(t) < t.len(),
            cap == t.len(),
            0 <= h < cap,
            h == home(hash, cap as nat),
            d <= cap,
            d < cap ==> s == probe(h as int, d as int, cap as int),
            run_is_full(t, h as int, d as int),
            value != 0,
        decreases cap - d,
    {
        if table[s] == 0 {
            table.set(s, value);
            proof {
                lemma_count_after_claim(t, s as int, value);
                let u = t.update(s as int, value);
                assert forall|j: int| 0 <= j < d implies u[#[trigger] probe(
                    h as int,
                    j,
                    cap as int,
                )] != 0 by {
                    assert(t[probe(h as int, j, cap as int)] != 0);
                }
                assert(found_at(u, home(hash, u.len()), d as int, value));
            }
            return ;
        }
        d = d + 1;
        s = if s + 1 == cap {
            0
        } else {
            s + 1
        };
    }
    proof {
        lemma_full_run_is_full_table(t, h as int);
    }
}

} // verus!
