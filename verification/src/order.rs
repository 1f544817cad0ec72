//! The byte-lexicographic order of term keys.
use vstd::prelude::*;

verus! {

/// `a` and `b` agree on their first `k` bytes, and there `a` ends while `b`
/// goes on, or `a` has the smaller byte.
pub open spec fn smaller_at(a: Seq<u8>, b: Seq<u8>, k: int) -> bool {
    &&& 0 <= k <= a.len()
    &&& k < b.len()
    &&& a.subrange(0, k) == b.subrange(0, k)
    &&& k < a.len() ==> a[k] < b[k]
}

/// `a` comes strictly before `b`.
pub open spec fn lex_lt(a: Seq<u8>, b: Seq<u8>) -> bool {
    exists|k: int| #[trigger] smaller_at(a, b, k)
}

/// `a` is `b` or comes before it.
pub open spec fn lex_le(a: Seq<u8>, b: Seq<u8>) -> bool {
    a == b || lex_lt(a, b)
}

/// No key comes before itself.
pub proof fn lemma_lex_lt_irreflexive(a: Seq<u8>)
    ensures
        !lex_lt(a, a),
{
}

/// The order carries over: what comes before a key comes before every key
/// that this one comes before.
pub proof fn lemma_lex_le_transitive(a: Seq<u8>, b: Seq<u8>, c: Seq<u8>)
    requires
        lex_le(a, b),
        lex_le(b, c),
    ensures
        lex_le(a, c),
{
    if a != b && b != c {
        let k1 = choose|k: int| #[trigger] smaller_at(a, b, k);
        let k2 = choose|k: int| #[trigger] smaller_at(b, c, k);
        let k = if k1 < k2 {
            k1
        } else {
            k2
        };
        assert(a.subrange(0, k) == c.subrange(0, k)) by {
            assert forall|i: int| 0 <= i < k implies a[i] == c[i] by {
                assert(a.subrange(0, k1)[i] == b.subrange(0, k1)[i]);
                assert(b.subrange(0, k2)[i] == c.subrange(0, k2)[i]);
            }
        }
        if k1 < k2 {
            assert(b.subrange(0, k2)[k1] == c.subrange(0, k2)[k1]);
        } else if k2 < k1 {
            assert(a.subrange(0, k1)[k2] == b.subrange(0, k1)[k2]);
        }
        assert(smaller_at(a, c, k));
    }
}

/// Whether `a` is `b` or comes before it. Of two keys one always is or comes
/// before the other.
pub fn key_le(a: &[u8], b: &[u8]) -> (r: bool)
    ensures
        r == lex_le(a@, b@),
        !r ==> lex_lt(b@, a@),
{
    let mut k: usize = 0;
    while k < a.len() && k < b.len()
        invariant
            k <= a@.len(),
            k <= b@.len(),
            a@.subrange(0, k as int) == b@.subrange(0, k as int),
        decreases a@.len() - k,
    {
        if a[k] < b[k] {
            assert(smaller_at(a@, b@, k as int));
            return true;
        }
        if a[k] > b[k] {
            proof {
                assert(smaller_at(b@, a@, k as int));
                lemma_first_difference_decides(a@, b@, k as int);
            }
            return false;
        }
        proof {
            assert(a@.subrange(0, k + 1) == a@.subrange(0, k as int).push(a@[k as int]));
            assert(b@.subrange(0, k + 1) == b@.subrange(0, k as int).push(b@[k as int]));
        }
        k = k + 1;
    }
    if k == a.len() {
        proof {
            if a@.len() == b@.len() {
                assert(a@.subrange(0, k as int) == a@);
                assert(b@.subrange(0, k as int) == b@);
            } else {
                assert(smaller_at(a@, b@, k as int));
            }
        }
        true
    } else {
        proof {
            assert(smaller_at(b@, a@, k as int));
            lemma_first_difference_decides(a@, b@, k as int);
        }
        false
    }
}

/// Where `b` is smaller at the first place at which the keys differ, `a` is
/// neither `b` nor before it.
proof fn lemma_first_difference_decides(a: Seq<u8>, b: Seq<u8>, k: int)
    requires
        smaller_at(b, a, k),
    ensures
        !lex_le(a, b),
{
    if a == b {
        assert(k < a.len());
    } else if lex_lt(a, b) {
        let m = choose|m: int| #[trigger] smaller_at(a, b, m);
        if m < k {
            assert(b.subrange(0, k)[m] == a.subrange(0, k)[m]);
        } else if m > k {
            assert(a.subrange(0, m)[k] == b.subrange(0, m)[k]);
        }
    }
}

} // verus!
