//! The term map: byte keys to recorders, in an arena.
//!
//! Each first-seen key gets a bucket in the arena, made of the key's length,
//! the key and the key's recorder, and the next identifier in insertion
//! order. Buckets are found again through an open-addressed slot table.
use crate::arena::{addr_at, is_prefix_of, lemma_read_appended_addr, splice, Addr, Arena};
use crate::hash_index::{
    bytes_eq, claim_slot, count_used, found_at, hash_bytes, hash_of, home, lemma_claim_keeps_found,
    lemma_home_in_range, new_table, probe, reachable, run_is_full,
};
use crate::recorder::{Recorder, RecorderUpdate, RECORDER_SIZE};
use vstd::bytes::*;
use vstd::prelude::*;

verus! {

/// Rank of a term in the order in which a term map first saw its keys.
pub type UnorderedTermId = u64;

/// Bytes that a bucket takes besides its key.
pub const BUCKET_OVERHEAD: usize = 38;

/// Where a bucket starts, and the hash of its key.
struct Bucket {
    addr: Addr,
    hash: u64,
}

/// The terms of one field: the slot table, and the buckets in the order in
/// which their keys were first seen. The keys and recorders themselves are
/// in the arena that every operation is given.
pub struct TermMap {
    table: Vec<usize>,
    buckets: Vec<Bucket>,
    arena_bytes: usize,
}

impl TermMap {
    /// Number of keys.
    pub closed spec fn spec_len(&self) -> nat {
        self.buckets@.len()
    }

    pub closed spec fn bucket_addr(&self, i: int) -> Addr {
        self.buckets@[i].addr
    }

    /// The key with identifier `i`.
    pub closed spec fn key(&self, a: Seq<u8>, i: int) -> Seq<u8> {
        let at = self.buckets@[i].addr;
        a.subrange(at + 8, at + 8 + addr_at(a, at as int))
    }

    /// Where the recorder of the key with identifier `i` is stored.
    pub closed spec fn payload_addr(&self, a: Seq<u8>, i: int) -> int {
        let at = self.buckets@[i].addr;
        at + 8 + addr_at(a, at as int)
    }

    /// The recorder of the key with identifier `i`.
    pub closed spec fn recorder(&self, a: Seq<u8>, i: int) -> Recorder {
        Recorder::decode(a.subrange(self.payload_addr(a, i), self.payload_addr(a, i) + 30))
    }

    /// The byte at `p` belongs to one of the map's buckets.
    pub closed spec fn owns(&self, a: Seq<u8>, p: int) -> bool {
        exists|i: int|
            0 <= i < self.buckets@.len() && self.bucket_addr(i) <= p < #[trigger] self.payload_addr(
                a,
                i,
            ) + 30
    }

    /// Bytes of the first `k` buckets.
    pub open spec fn bytes_used(&self, a: Seq<u8>, k: nat) -> nat
        decreases k,
    {
        if k == 0 {
            0
        } else {
            self.bytes_used(a, (k - 1) as nat) + self.key(a, k - 1).len() + BUCKET_OVERHEAD as nat
        }
    }

    /// The buckets lie inside `a`, one after the other.
    closed spec fn layout_ok(&self, a: Seq<u8>) -> bool {
        &&& forall|i: int|
            0 <= i < self.buckets@.len() ==> #[trigger] self.payload_addr(a, i) + 30 <= a.len()
        &&& forall|i: int, j: int|
            0 <= i < j < self.buckets@.len() ==> #[trigger] self.payload_addr(a, i) + 30
                <= #[trigger] self.bucket_addr(j)
    }

    /// The stored hashes are those of the keys, and no key occurs twice.
    closed spec fn keys_ok(&self, a: Seq<u8>) -> bool {
        &&& forall|i: int|
            0 <= i < self.buckets@.len() ==> (#[trigger] self.buckets@[i]).hash == hash_of(
                self.key(a, i),
            )
        &&& forall|i: int, j: int|
            0 <= i < j < self.buckets@.len() ==> #[trigger] self.key(a, i) != #[trigger] self.key(
                a,
                j,
            )
    }

    /// Every bucket is found by the search for its hash, and at most half of
    /// the slots are in use.
    closed spec fn table_ok(&self) -> bool {
        &&& self.table@.len() > 0
        &&& 2 * self.buckets@.len() <= self.table@.len()
        &&& forall|s: int| 0 <= s < self.table@.len() ==> #[trigger] self.table@[s] <= self.buckets@.len()
        &&& count_used(self.table@) == self.buckets@.len()
        &&& forall|i: int|
            0 <= i < self.buckets@.len() ==> reachable(
                self.table@,
                (#[trigger] self.buckets@[i]).hash,
                (i + 1) as usize,
            )
    }

    /// The map is consistent with the arena `a` that holds its buckets.
    pub closed spec fn wf(&self, a: Seq<u8>) -> bool {
        &&& self.layout_ok(a)
        &&& self.keys_ok(a)
        &&& self.table_ok()
        &&& self.arena_bytes == self.bytes_used(a, self.buckets@.len())
        &&& self.buckets@.len() * 38 <= self.arena_bytes <= a.len()
    }

    /// The identifier of `key`, if the map holds it.
    pub open spec fn index_of(&self, a: Seq<u8>, key: Seq<u8>) -> Option<int> {
        if exists|i: int| 0 <= i < self.spec_len() && self.key(a, i) == key {
            Some(choose|i: int| 0 <= i < self.spec_len() && self.key(a, i) == key)
        } else {
            None
        }
    }

    /// The recorder of `key`, if the map holds it.
    pub open spec fn existing(&self, a: Seq<u8>, key: Seq<u8>) -> Option<Recorder> {
        match self.index_of(a, key) {
            Some(i) => Some(self.recorder(a, i)),
            None => None,
        }
    }

    /// No key occurs twice.
    pub proof fn lemma_keys_distinct(&self, a: Seq<u8>, i: int, j: int)
        requires
            self.wf(a),
            0 <= i < self.spec_len(),
            0 <= j < self.spec_len(),
            self.key(a, i) == self.key(a, j),
        ensures
            i == j,
    {
        if i < j {
            assert(self.key(a, i) != self.key(a, j));
        } else if j < i {
            assert(self.key(a, j) != self.key(a, i));
        }
    }

    /// The identifier under which the map holds a key is that of the key.
    pub proof fn lemma_index_of(&self, a: Seq<u8>, i: int)
        requires
            self.wf(a),
            0 <= i < self.spec_len(),
        ensures
            self.index_of(a, self.key(a, i)) == Some(i),
    {
        let key = self.key(a, i);
        let j = choose|j: int| 0 <= j < self.spec_len() && self.key(a, j) == key;
        self.lemma_keys_distinct(a, i, j);
    }

    /// Every stored recorder lies inside the arena.
    pub proof fn lemma_payload_in_bounds(&self, a: Seq<u8>, i: int)
        requires
            self.wf(a),
            0 <= i < self.spec_len(),
        ensures
            0 <= self.payload_addr(a, i),
            self.payload_addr(a, i) + RECORDER_SIZE <= a.len(),
    {
    }

    /// A map without keys.
    pub fn new() -> (m: TermMap)
        ensures
            m.spec_len() == 0,
            forall|a: Seq<u8>| #[trigger] m.wf(a),
    {
        let m = TermMap { table: new_table(16), buckets: Vec::new(), arena_bytes: 0 };
        assert forall|a: Seq<u8>| #[trigger] m.wf(a) by {
            assert(m.bytes_used(a, 0) == 0);
        }
        m
    }

    /// Number of keys.
    pub fn len(&self) -> (n: usize)
        ensures
            n == self.spec_len(),
    {
        self.buckets.len()
    }

    /// Bytes of the arena that the map's buckets take.
    pub fn mem_usage(&self, arena: &Arena) -> (n: usize)
        requires
            self.wf(arena@),
        ensures
            n == self.bytes_used(arena@, self.spec_len()),
    {
        self.arena_bytes
    }

    /// The recorder stored at `addr`.
    pub fn read(&self, addr: Addr, arena: &Arena) -> (r: Recorder)
        requires
            addr + RECORDER_SIZE <= arena@.len(),
        ensures
            r == Recorder::decode(arena@.subrange(addr as int, addr + RECORDER_SIZE)),
    {
        Recorder::from_bytes(arena.slice(addr, RECORDER_SIZE))
    }

    /// The identifier of `key`, if the map holds it.
    fn find(&self, key: &[u8], hash: u64, arena: &Arena) -> (r: Option<usize>)
        requires
            self.wf(arena@),
            hash == hash_of(key@),
        ensures
            match r {
                Some(i) => i < self.spec_len() && self.key(arena@, i as int) == key@,
                None => forall|i: int| 0 <= i < self.spec_len() ==> self.key(arena@, i) != key@,
            },
    {
        let ghost a = arena@;
        let ghost t = self.table@;
        let cap: usize = self.table.len();
        let h: usize = (hash % (cap as u64)) as usize;
        proof {
            lemma_home_in_range(hash, cap as nat);
            arena.lemma_len_fits();
        }
        let mut s: usize = h;
        let mut d: usize = 0;
        while d < cap
            invariant
                self.wf(a),
                a == arena@,
                a.len() <= usize::MAX,
                t == self.table@,
                cap == t.len(),
                hash == hash_of(key@),
                0 <= h < cap,
                h == home(hash, cap as nat),
                d <= cap,
                d < cap ==> s == probe(h as int, d as int, cap as int),
                run_is_full(t, h as int, d as int),
                forall|j: int|
                    0 <= j < d ==> self.key(a, t[#[trigger] probe(h as int, j, cap as int)] - 1)
                        != key@,
            decreases cap - d,
        {
            let v: usize = self.table[s];
            if v == 0 {
                proof {
                    assert forall|i: int| 0 <= i < self.spec_len() implies self.key(a, i)
                        != key@ by {
                        self.lemma_not_missed(a, key@, hash, i, d as int);
                    }
                }
                return None;
            }
            let i: usize = v - 1;
            assert(t[s as int] <= self.buckets@.len());
            if self.buckets[i].hash == hash {
                let at: Addr = self.buckets[i].addr;
                assert(self.payload_addr(a, i as int) + 30 <= a.len());
                let key_len: usize = arena.read_addr(at);
                if bytes_eq(arena.slice(at + 8, key_len), key) {
                    return Some(i);
                }
            } else {
                assert(self.buckets@[i as int].hash == hash_of(self.key(a, i as int)));
            }
            d = d + 1;
            s = if s + 1 == cap {
                0
            } else {
                s + 1
            };
        }
        proof {
            assert forall|i: int| 0 <= i < self.spec_len() implies self.key(a, i) != key@ by {
                self.lemma_not_missed(a, key@, hash, i, cap as int);
            }
        }
        None
    }

    /// A search that has met no free slot and not the key in its first `d`
    /// steps, and that ends at step `d`, has not missed the key: no bucket
    /// holds it.
    proof fn lemma_not_missed(&self, a: Seq<u8>, key: Seq<u8>, hash: u64, i: int, d: int)
        requires
            self.wf(a),
            hash == hash_of(key),
            0 <= i < self.spec_len(),
            0 <= d <= self.table@.len(),
            run_is_full(self.table@, home(hash, self.table@.len()), d),
            forall|j: int|
                0 <= j < d ==> self.key(
                    a,
                    self.table@[#[trigger] probe(
                        home(hash, self.table@.len()),
                        j,
                        self.table@.len() as int,
                    )] - 1,
                ) != key,
            d < self.table@.len() ==> self.table@[probe(
                home(hash, self.table@.len()),
                d,
                self.table@.len() as int,
            )] == 0,
        ensures
            self.key(a, i) != key,
    {
        if self.key(a, i) == key {
            let t = self.table@;
            let cap = t.len() as int;
            let h = home(hash, t.len());
            assert(self.buckets@[i].hash == hash);
            assert(reachable(t, self.buckets@[i].hash, (i + 1) as usize));
            let e = choose|e: int| #[trigger] found_at(t, h, e, (i + 1) as usize);
            if e < d {
                assert(self.key(a, t[probe(h, e, cap)] - 1) != key);
            } else if e > d {
                assert(t[probe(h, d, cap)] != 0);
            }
        }
    }

    /// Bytes that only the bucket `skip` may have changed in, and bytes added
    /// at the end, leave the map as it was but for the recorder of `skip`.
    proof fn lemma_carried_over(&self, a: Seq<u8>, b: Seq<u8>, skip: int)
        requires
            self.wf(a),
            a.len() <= b.len(),
            forall|p: int|
                0 <= p < a.len() && self.owns(a, p) && !(0 <= skip < self.spec_len()
                    && self.payload_addr(a, skip) <= p) ==> b[p] == a[p],
            forall|p: int|
                0 <= p < a.len() && self.owns(a, p) && 0 <= skip < self.spec_len() && p
                    >= self.payload_addr(a, skip) + 30 ==> b[p] == a[p],
        ensures
            self.wf(b),
            forall|i: int|
                0 <= i < self.spec_len() ==> #[trigger] self.key(b, i) == self.key(a, i),
            forall|i: int|
                0 <= i < self.spec_len() ==> #[trigger] self.payload_addr(b, i)
                    == self.payload_addr(a, i),
            forall|i: int|
                0 <= i < self.spec_len() && i != skip ==> #[trigger] self.recorder(b, i)
                    == self.recorder(a, i),
            forall|p: int| self.owns(b, p) == self.owns(a, p),
    {
        let n = self.buckets@.len() as int;
        assert forall|i: int| 0 <= i < n implies self.payload_addr(b, i) == self.payload_addr(a, i)
            && self.key(b, i) == self.key(a, i) && (i != skip ==> self.recorder(b, i)
            == self.recorder(a, i)) by {
            let at = self.buckets@[i].addr as int;
            let pay = self.payload_addr(a, i);
            assert(pay + 30 <= a.len());
            assert forall|p: int| at <= p < pay + 30 && (i == skip ==> p < pay) implies b[p]
                == a[p] by {
                assert(self.bucket_addr(i) <= p < self.payload_addr(a, i) + 30);
                assert(self.owns(a, p));
                if 0 <= skip < n && skip != i {
                    if skip < i {
                        assert(self.payload_addr(a, skip) + 30 <= self.bucket_addr(i));
                    } else {
                        assert(self.payload_addr(a, i) + 30 <= self.bucket_addr(skip));
                    }
                }
            }
            assert(b.subrange(at, at + 8) == a.subrange(at, at + 8));
            assert(b.subrange(at + 8, pay) == a.subrange(at + 8, pay));
            if i != skip {
                assert(b.subrange(pay, pay + 30) == a.subrange(pay, pay + 30));
            }
        }
        self.lemma_bytes_used_same(a, b, self.buckets@.len());
        assert forall|p: int| self.owns(b, p) == self.owns(a, p) by {
            if self.owns(a, p) {
                let i = choose|i: int|
                    0 <= i < self.buckets@.len() && self.bucket_addr(i) <= p
                        < #[trigger] self.payload_addr(a, i) + 30;
                assert(self.bucket_addr(i) <= p < self.payload_addr(b, i) + 30);
            }
            if self.owns(b, p) {
                let i = choose|i: int|
                    0 <= i < self.buckets@.len() && self.bucket_addr(i) <= p
                        < #[trigger] self.payload_addr(b, i) + 30;
                assert(self.bucket_addr(i) <= p < self.payload_addr(a, i) + 30);
            }
        }
        assert(self.layout_ok(b)) by {
            assert forall|i: int, j: int| 0 <= i < j < n implies #[trigger] self.payload_addr(b, i)
                + 30 <= #[trigger] self.bucket_addr(j) by {
                assert(self.payload_addr(a, i) + 30 <= self.bucket_addr(j));
            }
        }
        assert(self.keys_ok(b)) by {
            assert forall|i: int, j: int| 0 <= i < j < n implies #[trigger] self.key(b, i)
                != #[trigger] self.key(b, j) by {
                assert(self.key(a, i) != self.key(a, j));
            }
        }
    }

    proof fn lemma_bytes_used_same(&self, a: Seq<u8>, b: Seq<u8>, k: nat)
        requires
            k <= self.spec_len(),
            forall|i: int| 0 <= i < self.spec_len() ==> #[trigger] self.key(b, i) == self.key(a, i),
        ensures
            self.bytes_used(b, k) == self.bytes_used(a, k),
        decreases k,
    {
        if k > 0 {
            self.lemma_bytes_used_same(a, b, (k - 1) as nat);
            assert(self.key(b, k - 1) == self.key(a, k - 1));
        }
    }

    /// The map reads the same in an arena that kept the bytes of its buckets.
    pub proof fn lemma_stable(&self, a: Seq<u8>, b: Seq<u8>)
        requires
            self.wf(a),
            a.len() <= b.len(),
            forall|p: int| 0 <= p < a.len() && self.owns(a, p) ==> b[p] == a[p],
        ensures
            self.wf(b),
            forall|i: int|
                0 <= i < self.spec_len() ==> #[trigger] self.key(b, i) == self.key(a, i),
            forall|i: int|
                0 <= i < self.spec_len() ==> #[trigger] self.payload_addr(b, i)
                    == self.payload_addr(a, i),
            forall|i: int|
                0 <= i < self.spec_len() ==> #[trigger] self.recorder(b, i) == self.recorder(a, i),
            forall|p: int| self.owns(b, p) == self.owns(a, p),
    {
        self.lemma_carried_over(a, b, -1);
    }

    /// Every byte the map owns lies inside the arena.
    pub proof fn lemma_owned_in_bounds(&self, a: Seq<u8>, p: int)
        requires
            self.wf(a),
            self.owns(a, p),
        ensures
            0 <= p < a.len(),
    {
    }

    /// Doubles the slot table.
    fn grow(&mut self)
        requires
            old(self).table_ok(),
            2 * old(self).table@.len() <= usize::MAX,
        ensures
            final(self).buckets@ == old(self).buckets@,
            final(self).arena_bytes == old(self).arena_bytes,
            final(self).table@.len() == 2 * old(self).table@.len(),
            final(self).table_ok(),
    {
        let cap: usize = self.table.len() * 2;
        let n: usize = self.buckets.len();
        let mut table = new_table(cap);
        let mut i: usize = 0;
        while i < n
            invariant
                i <= n,
                n == self.buckets@.len(),
                2 * n <= cap,
                table@.len() == cap,
                count_used(table@) == i,
                forall|s: int| 0 <= s < cap ==> #[trigger] table@[s] <= i,
                forall|j: int|
                    0 <= j < i ==> reachable(
                        table@,
                        (#[trigger] self.buckets@[j]).hash,
                        (j + 1) as usize,
                    ),
            decreases n - i,
        {
            let ghost before = table@;
            let hash: u64 = self.buckets[i].hash;
            claim_slot(&mut table, hash, i + 1);
            proof {
                let s = choose|s: int|
                    0 <= s < before.len() && before[s] == 0 && #[trigger] before.update(
                        s,
                        (i + 1) as usize,
                    ) == table@;
                assert forall|j: int| 0 <= j < i implies reachable(
                    table@,
                    (#[trigger] self.buckets@[j]).hash,
                    (j + 1) as usize,
                ) by {
                    let hj = self.buckets@[j].hash;
                    lemma_home_in_range(hj, cap as nat);
                    let d = choose|d: int|
                        #[trigger] found_at(before, home(hj, before.len()), d, (j + 1) as usize);
                    lemma_claim_keeps_found(
                        before,
                        s,
                        (i + 1) as usize,
                        home(hj, before.len()),
                        d,
                        (j + 1) as usize,
                    );
                }
            }
            i = i + 1;
        }
        self.table = table;
    }

    /// Stores `rec` as the recorder of the key with identifier `i`.
    fn store_existing(&self, i: usize, rec: &Recorder, arena: &mut Arena)
        requires
            self.wf(old(arena)@),
            i < self.spec_len(),
        ensures
            self.wf(final(arena)@),
            final(arena)@.len() == old(arena)@.len(),
            self.recorder(final(arena)@, i as int) == *rec,
            forall|j: int|
                0 <= j < self.spec_len() ==> #[trigger] self.key(final(arena)@, j) == self.key(
                    old(arena)@,
                    j,
                ),
            forall|j: int|
                0 <= j < self.spec_len() ==> #[trigger] self.payload_addr(final(arena)@, j)
                    == self.payload_addr(old(arena)@, j),
            forall|j: int|
                0 <= j < self.spec_len() && j != i ==> #[trigger] self.recorder(final(arena)@, j)
                    == self.recorder(old(arena)@, j),
            forall|p: int| self.owns(final(arena)@, p) == self.owns(old(arena)@, p),
            forall|p: int|
                0 <= p < old(arena)@.len() && !self.owns(old(arena)@, p) ==> final(arena)@[p]
                    == old(arena)@[p],
    {
        let ghost a = arena@;
        proof {
            arena.lemma_len_fits();
            assert(self.payload_addr(a, i as int) + 30 <= a.len());
        }
        let at: Addr = self.buckets[i].addr;
        let key_len: usize = arena.read_addr(at);
        let payload: Addr = at + 8 + key_len;
        let bytes = rec.to_bytes();
        proof {
            rec.lemma_encode_decode();
        }
        arena.write(payload, bytes.as_slice());
        proof {
            let b = arena@;
            assert(b == splice(a, payload as int, bytes@));
            assert(b.len() == a.len());
            assert forall|p: int| 0 <= p < a.len() && !(payload <= p < payload + 30) implies b[p]
                == a[p] by {}
            assert(b.subrange(payload as int, payload + 30) == bytes@);
            self.lemma_carried_over(a, b, i as int);
            assert(self.payload_addr(b, i as int) == payload);
            assert forall|p: int| 0 <= p < a.len() && !self.owns(a, p) implies b[p] == a[p] by {
                if payload <= p < payload + 30 {
                    assert(self.bucket_addr(i as int) <= p < self.payload_addr(a, i as int) + 30);
                }
            }
        }
    }

    /// Gives the new key `key` a bucket that holds `rec`, and the next identifier.
    fn insert_new(&mut self, key: &[u8], hash: u64, rec: &Recorder, arena: &mut Arena) -> (id:
        usize)
        requires
            old(self).wf(old(arena)@),
            hash == hash_of(key@),
            forall|i: int| 0 <= i < old(self).spec_len() ==> old(self).key(old(arena)@, i) != key@,
        ensures
            final(self).wf(final(arena)@),
            is_prefix_of(old(arena)@, final(arena)@),
            id == old(self).spec_len(),
            final(self).spec_len() == old(self).spec_len() + 1,
            final(self).key(final(arena)@, id as int) == key@,
            final(self).recorder(final(arena)@, id as int) == *rec,
            forall|j: int|
                0 <= j < old(self).spec_len() ==> #[trigger] final(self).key(final(arena)@, j)
                    == old(self).key(old(arena)@, j),
            forall|j: int|
                0 <= j < old(self).spec_len() ==> #[trigger] final(self).payload_addr(
                    final(arena)@,
                    j,
                ) == old(self).payload_addr(old(arena)@, j),
            forall|j: int|
                0 <= j < old(self).spec_len() ==> #[trigger] final(self).recorder(final(arena)@, j)
                    == old(self).recorder(old(arena)@, j),
            forall|p: int|
                final(self).owns(final(arena)@, p) == (old(self).owns(old(arena)@, p)
                    || old(arena)@.len() <= p < final(arena)@.len()),
    {
        let ghost a = arena@;
        let ghost before = *self;
        let n: usize = self.buckets.len();
        proof {
            arena.lemma_len_fits();
        }
        if 2 * (n + 1) > self.table.len() {
            self.grow();
        }
        let at: Addr = arena.append_addr(key.len());
        arena.append(key);
        let bytes = rec.to_bytes();
        arena.append(bytes.as_slice());
        self.buckets.push(Bucket { addr: at, hash });
        let ghost mid = self.table@;
        claim_slot(&mut self.table, hash, n + 1);
        proof {
            lemma_auto_spec_u64_to_from_le_bytes();
            rec.lemma_encode_decode();
            arena.lemma_len_fits();
            assert(arena@.len() == a.len() + 8 + key@.len() + 30);
        }
        self.arena_bytes = self.arena_bytes + key.len() + BUCKET_OVERHEAD;
        proof {
            let b = arena@;
            let head = spec_u64_to_le_bytes(key@.len() as u64);
            lemma_auto_spec_u64_to_from_le_bytes();
            rec.lemma_encode_decode();
            arena.lemma_len_fits();
            assert(b == a + head + key@ + bytes@);
            assert(b.subrange(0, a.len() as int) == a);
            lemma_read_appended_addr(a, key@.len() as usize, key@ + bytes@);
            assert(a + head + (key@ + bytes@) == b);
            assert(addr_at(b, at as int) == key@.len());
            assert(b.subrange(at + 8, at + 8 + key@.len()) == key@);
            assert(b.subrange(at + 8 + key@.len(), at + 8 + key@.len() + 30) == bytes@);
            before.lemma_carried_over(a, b, -1);
            assert forall|j: int| 0 <= j < n implies self.key(b, j) == before.key(a, j)
                && self.payload_addr(b, j) == before.payload_addr(a, j) && self.recorder(b, j)
                == before.recorder(a, j) by {
                assert(self.buckets@[j] == before.buckets@[j]);
                assert(self.key(b, j) == before.key(b, j));
                assert(self.payload_addr(b, j) == before.payload_addr(b, j));
                assert(self.recorder(b, j) == before.recorder(b, j));
            }
            assert(self.key(b, n as int) == key@);
            assert(self.payload_addr(b, n as int) == at + 8 + key@.len());
            assert(self.layout_ok(b)) by {
                assert forall|i: int| 0 <= i < n + 1 implies #[trigger] self.payload_addr(b, i)
                    + 30 <= b.len() by {
                    if i < n {
                        assert(before.payload_addr(a, i) + 30 <= a.len());
                    }
                }
                assert forall|i: int, j: int| 0 <= i < j < n + 1 implies #[trigger] self.payload_addr(
                    b,
                    i,
                ) + 30 <= #[trigger] self.bucket_addr(j) by {
                    if j < n {
                        assert(before.payload_addr(a, i) + 30 <= before.bucket_addr(j));
                    } else {
                        assert(before.payload_addr(a, i) + 30 <= a.len());
                    }
                }
            }
            assert(self.keys_ok(b)) by {
                assert forall|i: int| 0 <= i < n + 1 implies (#[trigger] self.buckets@[i]).hash
                    == hash_of(self.key(b, i)) by {
                    if i < n {
                        assert(before.buckets@[i].hash == hash_of(before.key(a, i)));
                    }
                }
                assert forall|i: int, j: int| 0 <= i < j < n + 1 implies #[trigger] self.key(b, i)
                    != #[trigger] self.key(b, j) by {
                    if j < n {
                        assert(before.key(a, i) != before.key(a, j));
                    }
                }
            }
            assert(self.table_ok()) by {
                let s = choose|s: int|
                    0 <= s < mid.len() && mid[s] == 0 && #[trigger] mid.update(s, (n + 1) as usize)
                        == self.table@;
                assert forall|j: int| 0 <= j < n + 1 implies reachable(
                    self.table@,
                    (#[trigger] self.buckets@[j]).hash,
                    (j + 1) as usize,
                ) by {
                    if j < n {
                        let hj = self.buckets@[j].hash;
                        assert(self.buckets@[j] == before.buckets@[j]);
                        lemma_home_in_range(hj, mid.len());
                        let d = choose|d: int|
                            #[trigger] found_at(mid, home(hj, mid.len()), d, (j + 1) as usize);
                        lemma_claim_keeps_found(
                            mid,
                            s,
                            (n + 1) as usize,
                            home(hj, mid.len()),
                            d,
                            (j + 1) as usize,
                        );
                    }
                }
            }
            assert(self.bytes_used(b, (n + 1) as nat) == before.bytes_used(a, n as nat) + key@.len()
                + 38) by {
                self.lemma_bytes_used_prefix(before, b, n as nat);
            }
            assert forall|p: int|
                self.owns(b, p) == (before.owns(a, p) || a.len() <= p < b.len()) by {
                if self.owns(b, p) {
                    let i = choose|i: int|
                        0 <= i < self.buckets@.len() && self.bucket_addr(i) <= p
                            < #[trigger] self.payload_addr(b, i) + 30;
                    if i < n {
                        assert(before.bucket_addr(i) <= p < before.payload_addr(a, i) + 30);
                    }
                }
                if before.owns(a, p) {
                    let i = choose|i: int|
                        0 <= i < before.buckets@.len() && before.bucket_addr(i) <= p
                            < #[trigger] before.payload_addr(a, i) + 30;
                    assert(self.bucket_addr(i) <= p < self.payload_addr(b, i) + 30);
                }
                if a.len() <= p < b.len() {
                    assert(self.bucket_addr(n as int) <= p < self.payload_addr(b, n as int) + 30);
                }
            }
        }
        n
    }

    /// Two maps with the same first `k` buckets use the same bytes for them.
    proof fn lemma_bytes_used_prefix(&self, other: TermMap, a: Seq<u8>, k: nat)
        requires
            k <= self.spec_len(),
            k <= other.spec_len(),
            forall|i: int| 0 <= i < k ==> self.buckets@[i] == other.buckets@[i],
        ensures
            self.bytes_used(a, k) == other.bytes_used(a, k),
        decreases k,
    {
        if k > 0 {
            self.lemma_bytes_used_prefix(other, a, (k - 1) as nat);
            assert(self.key(a, k - 1) == other.key(a, k - 1));
        }
    }

    /// Where the recorder of the key with identifier `i` is stored.
    fn payload_of(&self, i: usize, arena: &Arena) -> (addr: Addr)
        requires
            self.wf(arena@),
            i < self.spec_len(),
        ensures
            addr == self.payload_addr(arena@, i as int),
            addr + RECORDER_SIZE <= arena@.len(),
    {
        proof {
            arena.lemma_len_fits();
            assert(self.payload_addr(arena@, i as int) + 30 <= arena@.len());
        }
        let at: Addr = self.buckets[i].addr;
        let key_len: usize = arena.read_addr(at);
        at + 8 + key_len
    }

    /// Looks `key` up. If the map holds it, the key's recorder is read from
    /// its bucket, updated, and written back to the same place. If not, the
    /// key gets the next identifier and a bucket with the recorder that the
    /// update makes from none. Either way the key's identifier is returned.
    ///
    /// The buckets are in `arena_terms`; the update writes to `arena`.
    pub fn mutate_or_create(
        &mut self,
        key: &[u8],
        arena_terms: &mut Arena,
        update: RecorderUpdate,
        arena: &mut Arena,
    ) -> (id: UnorderedTermId)
        requires
            old(self).wf(old(arena_terms)@),
            update.applies_to(old(self).existing(old(arena_terms)@, key@), old(arena)@),
        ensures
            final(self).wf(final(arena_terms)@),
            is_prefix_of(old(arena)@, final(arena)@),
            old(arena_terms)@.len() <= final(arena_terms)@.len(),
            match old(self).index_of(old(arena_terms)@, key@) {
                Some(i) => id == i && final(self).spec_len() == old(self).spec_len(),
                None => id == old(self).spec_len() && final(self).spec_len() == old(self).spec_len() + 1,
            },
            final(self).key(final(arena_terms)@, id as int) == key@,
            final(self).recorder(final(arena_terms)@, id as int).spec_kind() == update.kind,
            final(self).recorder(final(arena_terms)@, id as int).wf(final(arena)@),
            final(self).recorder(final(arena_terms)@, id as int).state(final(arena)@)
                == RecorderUpdate::state_before(
                old(self).existing(old(arena_terms)@, key@),
                old(arena)@,
            ).subscribe(update.kind, update.doc, update.position),
            forall|j: int|
                0 <= j < old(self).spec_len() ==> #[trigger] final(self).key(final(arena_terms)@, j)
                    == old(self).key(old(arena_terms)@, j),
            forall|j: int|
                0 <= j < old(self).spec_len() ==> #[trigger] final(self).payload_addr(
                    final(arena_terms)@,
                    j,
                ) == old(self).payload_addr(old(arena_terms)@, j),
            forall|j: int|
                0 <= j < old(self).spec_len() && j != id ==> #[trigger] final(self).recorder(
                    final(arena_terms)@,
                    j,
                ) == old(self).recorder(old(arena_terms)@, j),
            forall|p: int|
                final(self).owns(final(arena_terms)@, p) == (old(self).owns(old(arena_terms)@, p)
                    || old(arena_terms)@.len() <= p < final(arena_terms)@.len()),
            forall|p: int|
                0 <= p < old(arena_terms)@.len() && !old(self).owns(old(arena_terms)@, p)
                    ==> final(arena_terms)@[p] == old(arena_terms)@[p],
    {
        let ghost at = arena_terms@;
        let hash: u64 = hash_bytes(key);
        match self.find(key, hash, arena_terms) {
            Some(i) => {
                proof {
                    self.lemma_index_of(at, i as int);
                }
                let payload: Addr = self.payload_of(i, arena_terms);
                let rec = self.read(payload, arena_terms);
                assert(rec == self.recorder(at, i as int));
                let new_rec = update.apply(Some(rec), arena);
                self.store_existing(i, &new_rec, arena_terms);
                i as u64
            },
            None => {
                assert(self.index_of(at, key@) == None::<int>);
                let new_rec = update.apply(None, arena);
                let id: usize = self.insert_new(key, hash, &new_rec, arena_terms);
                id as u64
            },
        }
    }

    /// Every key with the place of its recorder and its identifier, in the
    /// order of the identifiers.
    pub fn iter<'a>(&self, arena: &'a Arena) -> (v: Vec<(&'a [u8], Addr, UnorderedTermId)>)
        requires
            self.wf(arena@),
        ensures
            v@.len() == self.spec_len(),
            forall|i: int|
                0 <= i < v@.len() ==> {
                    &&& (#[trigger] v@[i]).0@ == self.key(arena@, i)
                    &&& v@[i].1 == self.payload_addr(arena@, i)
                    &&& v@[i].2 == i
                },
    {
        let mut v: Vec<(&'a [u8], Addr, UnorderedTermId)> = Vec::new();
        let n: usize = self.buckets.len();
        let mut i: usize = 0;
        proof {
            arena.lemma_len_fits();
        }
        while i < n
            invariant
                self.wf(arena@),
                arena@.len() <= usize::MAX,
                n == self.spec_len(),
                i <= n,
                v@.len() == i,
                forall|j: int|
                    0 <= j < i ==> {
                        &&& (#[trigger] v@[j]).0@ == self.key(arena@, j)
                        &&& v@[j].1 == self.payload_addr(arena@, j)
                        &&& v@[j].2 == j
                    },
            decreases n - i,
        {
            assert(self.payload_addr(arena@, i as int) + 30 <= arena@.len());
            let at: Addr = self.buckets[i].addr;
            let key_len: usize = arena.read_addr(at);
            let key: &'a [u8] = arena.slice(at + 8, key_len);
            v.push((key, at + 8 + key_len, i as u64));
            i = i + 1;
        }
        v
    }

    /// The recorder of a key is what its bucket stores at the payload address.
    pub proof fn lemma_recorder_at(&self, a: Seq<u8>, i: int)
        requires
            self.wf(a),
            0 <= i < self.spec_len(),
        ensures
            self.recorder(a, i) == Recorder::decode(
                a.subrange(self.payload_addr(a, i), self.payload_addr(a, i) + RECORDER_SIZE),
            ),
    {
    }

    /// A map without keys owns no byte.
    pub proof fn lemma_owns_nothing(&self, a: Seq<u8>, p: int)
        requires
            self.spec_len() == 0,
        ensures
            !self.owns(a, p),
    {
    }
}

} // verus!
