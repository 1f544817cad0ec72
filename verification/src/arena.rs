//! Append-only byte arena addressed by opaque offsets.
use vstd::bytes::*;
use vstd::prelude::*;
use vstd::slice::*;

verus! {

/// Offset of a region inside one arena. It is meaningless in any other arena.
pub type Addr = usize;

/// The bytes of `s` with the region starting at `at` replaced by `bytes`.
pub open spec fn splice(s: Seq<u8>, at: int, bytes: Seq<u8>) -> Seq<u8> {
    s.subrange(0, at) + bytes + s.subrange(at + bytes.len(), s.len() as int)
}

/// `a` is an initial segment of `b`.
pub open spec fn is_prefix_of(a: Seq<u8>, b: Seq<u8>) -> bool {
    a.len() <= b.len() && b.subrange(0, a.len() as int) == a
}

/// The little-endian `u32` stored at `at`.
pub open spec fn u32_at(s: Seq<u8>, at: int) -> u32 {
    spec_u32_from_le_bytes(s.subrange(at, at + 4))
}

/// The little-endian `u64` stored at `at`.
pub open spec fn u64_at(s: Seq<u8>, at: int) -> u64 {
    spec_u64_from_le_bytes(s.subrange(at, at + 8))
}

/// The offset stored at `at` as eight little-endian bytes.
pub open spec fn addr_at(s: Seq<u8>, at: int) -> Addr {
    u64_at(s, at) as usize
}

/// Appends `bytes` to `v`.
pub fn extend_bytes(v: &mut Vec<u8>, bytes: &[u8])
    ensures
        final(v)@ == old(v)@ + bytes@,
{
    let mut i: usize = 0;
    while i < bytes.len()
        invariant
            i <= bytes@.len(),
            v@ == old(v)@ + bytes@.subrange(0, i as int),
        decreases bytes@.len() - i,
    {
        v.push(bytes[i]);
        i = i + 1;
    }
    assert(bytes@.subrange(0, bytes@.len() as int) == bytes@);
}

/// A growable byte buffer. Regions are handed out front to back and are never
/// given back one by one: the whole arena is dropped at once.
pub struct Arena {
    buf: Vec<u8>,
}

impl View for Arena {
    type V = Seq<u8>;

    closed spec fn view(&self) -> Seq<u8> {
        self.buf@
    }
}

impl Arena {
    pub fn new() -> (arena: Arena)
        ensures
            arena@ == Seq::<u8>::empty(),
    {
        Arena { buf: Vec::new() }
    }

    /// The arena is never longer than memory can address.
    pub proof fn lemma_len_fits(&self)
        ensures
            self@.len() <= usize::MAX,
    {
        assert(self.buf@.len() == self.buf.len());
    }

    /// Number of bytes handed out so far.
    pub fn len(&self) -> (n: usize)
        ensures
            n == self@.len(),
    {
        self.buf.len()
    }

    /// Bytes consumed by the arena.
    pub fn mem_usage(&self) -> (n: usize)
        ensures
            n == self@.len(),
    {
        self.buf.len()
    }

    /// Reserves `n` zeroed bytes at the end of the arena and returns their offset.
    pub fn allocate(&mut self, n: usize) -> (addr: Addr)
        ensures
            addr == old(self)@.len(),
            final(self)@ == old(self)@ + Seq::new(n as nat, |i: int| 0u8),
    {
        let addr: usize = self.buf.len();
        let mut i: usize = 0;
        while i < n
            invariant
                addr == old(self)@.len(),
                i <= n,
                self.buf@ == old(self)@ + Seq::new(i as nat, |j: int| 0u8),
            decreases n - i,
        {
            self.buf.push(0u8);
            i = i + 1;
        }
        addr
    }

    /// Appends `bytes` at the end of the arena and returns their offset.
    pub fn append(&mut self, bytes: &[u8]) -> (addr: Addr)
        ensures
            addr == old(self)@.len(),
            final(self)@ == old(self)@ + bytes@,
    {
        let addr: usize = self.buf.len();
        let mut i: usize = 0;
        while i < bytes.len()
            invariant
                addr == old(self)@.len(),
                i <= bytes@.len(),
                self.buf@ == old(self)@ + bytes@.subrange(0, i as int),
            decreases bytes@.len() - i,
        {
            self.buf.push(bytes[i]);
            i = i + 1;
        }
        assert(bytes@.subrange(0, bytes@.len() as int) == bytes@);
        addr
    }

    /// Overwrites the region at `addr` with `bytes`.
    pub fn write(&mut self, addr: Addr, bytes: &[u8])
        requires
            addr + bytes@.len() <= old(self)@.len(),
        ensures
            final(self)@ == splice(old(self)@, addr as int, bytes@),
    {
        let mut i: usize = 0;
        while i < bytes.len()
            invariant
                addr + bytes@.len() <= old(self)@.len(),
                i <= bytes@.len(),
                self.buf@ == splice(old(self)@, addr as int, bytes@.subrange(0, i as int)),
                self.buf@.len() == self.buf.len(),
            decreases bytes@.len() - i,
        {
            self.buf.set(addr + i, bytes[i]);
            i = i + 1;
        }
        assert(bytes@.subrange(0, bytes@.len() as int) == bytes@);
    }

    /// The `len` bytes at `addr`.
    pub fn slice(&self, addr: Addr, len: usize) -> (bytes: &[u8])
        requires
            addr + len <= self@.len(),
        ensures
            bytes@ == self@.subrange(addr as int, addr + len),
    {
        assert(self.buf@.len() == self.buf.len());
        slice_subrange(self.buf.as_slice(), addr, addr + len)
    }

    pub fn read_u32(&self, addr: Addr) -> (v: u32)
        requires
            addr + 4 <= self@.len(),
        ensures
            v == u32_at(self@, addr as int),
    {
        u32_from_le_bytes(self.slice(addr, 4))
    }

    pub fn read_u64(&self, addr: Addr) -> (v: u64)
        requires
            addr + 8 <= self@.len(),
        ensures
            v == u64_at(self@, addr as int),
    {
        u64_from_le_bytes(self.slice(addr, 8))
    }

    /// The offset that `append_addr` stored at `addr`.
    pub fn read_addr(&self, addr: Addr) -> (v: Addr)
        requires
            addr + 8 <= self@.len(),
        ensures
            v == addr_at(self@, addr as int),
    {
        let raw: u64 = self.read_u64(addr);
        #[verifier::truncate]
        (raw as usize)
    }

    /// Appends the offset `v` as eight little-endian bytes.
    pub fn append_addr(&mut self, v: Addr) -> (addr: Addr)
        ensures
            addr == old(self)@.len(),
            final(self)@ == old(self)@ + spec_u64_to_le_bytes(v as u64),
    {
        self.append_u64(v as u64)
    }

    /// Appends `v` as four little-endian bytes.
    pub fn append_u32(&mut self, v: u32) -> (addr: Addr)
        ensures
            addr == old(self)@.len(),
            final(self)@ == old(self)@ + spec_u32_to_le_bytes(v),
    {
        let bytes = u32_to_le_bytes(v);
        self.append(bytes.as_slice())
    }

    /// Appends `v` as eight little-endian bytes.
    pub fn append_u64(&mut self, v: u64) -> (addr: Addr)
        ensures
            addr == old(self)@.len(),
            final(self)@ == old(self)@ + spec_u64_to_le_bytes(v),
    {
        let bytes = u64_to_le_bytes(v);
        self.append(bytes.as_slice())
    }
}

pub proof fn lemma_prefix_refl(a: Seq<u8>)
    ensures
        is_prefix_of(a, a),
{
    assert(a.subrange(0, a.len() as int) == a);
}

pub proof fn lemma_prefix_trans(a: Seq<u8>, b: Seq<u8>, c: Seq<u8>)
    requires
        is_prefix_of(a, b),
        is_prefix_of(b, c),
    ensures
        is_prefix_of(a, c),
{
    assert(c.subrange(0, a.len() as int) == b.subrange(0, a.len() as int));
}

/// What was appended can be read back.
pub proof fn lemma_read_appended_u32(s: Seq<u8>, v: u32, t: Seq<u8>)
    ensures
        u32_at(s + spec_u32_to_le_bytes(v) + t, s.len() as int) == v,
{
    lemma_auto_spec_u32_to_from_le_bytes();
    let whole = s + spec_u32_to_le_bytes(v) + t;
    assert(whole.subrange(s.len() as int, s.len() as int + 4) == spec_u32_to_le_bytes(v));
}

pub proof fn lemma_read_appended_u64(s: Seq<u8>, v: u64, t: Seq<u8>)
    ensures
        u64_at(s + spec_u64_to_le_bytes(v) + t, s.len() as int) == v,
{
    lemma_auto_spec_u64_to_from_le_bytes();
    let whole = s + spec_u64_to_le_bytes(v) + t;
    assert(whole.subrange(s.len() as int, s.len() as int + 8) == spec_u64_to_le_bytes(v));
}

pub proof fn lemma_read_appended_addr(s: Seq<u8>, v: Addr, t: Seq<u8>)
    ensures
        addr_at(s + spec_u64_to_le_bytes(v as u64) + t, s.len() as int) == v,
{
    lemma_read_appended_u64(s, v as u64, t);
}

/// Values stored inside a prefix read the same in every extension of it.
pub proof fn lemma_prefix_keeps_values(a: Seq<u8>, b: Seq<u8>, at: int)
    requires
        is_prefix_of(a, b),
        0 <= at,
    ensures
        at + 4 <= a.len() ==> u32_at(b, at) == u32_at(a, at),
        at + 8 <= a.len() ==> u64_at(b, at) == u64_at(a, at),
        at + 8 <= a.len() ==> addr_at(b, at) == addr_at(a, at),
{
    if at + 4 <= a.len() {
        assert(b.subrange(at, at + 4) == a.subrange(at, at + 4));
    }
    if at + 8 <= a.len() {
        assert(b.subrange(at, at + 8) == a.subrange(at, at + 8));
    }
}

} // verus!
