//! The order in which names are listed: lexicographic over the bytes of their
//! UTF-8 encoding, independent of any locale.

use vstd::prelude::*;
use vstd::string::*;
use vstd::utf8::*;

verus! {

/// `a` and `b` hold the same bytes at every position below `k`.
pub open spec fn agree_below(a: Seq<u8>, b: Seq<u8>, k: int) -> bool {
    forall|i: int| 0 <= i < k ==> a[i] == b[i]
}

/// Position `k` settles that `a` does not come after `b`: the two agree
/// below `k`, and at `k` either `a` has ended or it holds the smaller byte.
pub open spec fn settled_at(a: Seq<u8>, b: Seq<u8>, k: int) -> bool {
    &&& 0 <= k <= a.len()
    &&& k <= b.len()
    &&& agree_below(a, b, k)
    &&& (k == a.len() || (k < b.len() && a[k] < b[k]))
}

/// Lexicographic "less than or equal" on byte sequences: `a` is a prefix of
/// `b`, or holds the smaller byte at the first position where they differ.
pub open spec fn bytes_le(a: Seq<u8>, b: Seq<u8>) -> bool {
    exists|k: int| settled_at(a, b, k)
}

/// The listing order on names, given as sequences of characters: the order
/// of their UTF-8 encodings under [`bytes_le`].
pub open spec fn name_le(a: Seq<char>, b: Seq<char>) -> bool {
    bytes_le(encode_utf8(a), encode_utf8(b))
}

/// [`name_le`] as a relation value, for use with the sequence library.
pub open spec fn name_order() -> spec_fn(Seq<char>, Seq<char>) -> bool {
    |a: Seq<char>, b: Seq<char>| name_le(a, b)
}

/// Every byte sequence is below or equal to itself.
pub proof fn lemma_bytes_le_reflexive(a: Seq<u8>)
    ensures
        bytes_le(a, a),
{
    assert(settled_at(a, a, a.len() as int));
}

/// Two byte sequences that agree below `k` are ordered one way or the other.
proof fn lemma_ordered_from(a: Seq<u8>, b: Seq<u8>, k: int)
    requires
        0 <= k <= a.len(),
        k <= b.len(),
        agree_below(a, b, k),
    ensures
        bytes_le(a, b) || bytes_le(b, a),
    decreases a.len() - k,
{
    if k == a.len() {
        assert(settled_at(a, b, k));
    } else if k == b.len() {
        assert(settled_at(b, a, k));
    } else if a[k] < b[k] {
        assert(settled_at(a, b, k));
    } else if b[k] < a[k] {
        assert(settled_at(b, a, k));
    } else {
        lemma_ordered_from(a, b, k + 1);
    }
}

/// Any two byte sequences are comparable.
pub proof fn lemma_bytes_le_total(a: Seq<u8>, b: Seq<u8>)
    ensures
        bytes_le(a, b) || bytes_le(b, a),
{
    lemma_ordered_from(a, b, 0);
}

/// Two byte sequences that are below or equal to each other are the same.
pub proof fn lemma_bytes_le_antisymmetric(a: Seq<u8>, b: Seq<u8>)
    requires
        bytes_le(a, b),
        bytes_le(b, a),
    ensures
        a == b,
{
    let k1: int = choose|k: int| settled_at(a, b, k);
    let k2: int = choose|k: int| settled_at(b, a, k);
    if k1 < k2 {
        assert(b[k1] == a[k1]);
    } else if k2 < k1 {
        assert(a[k2] == b[k2]);
    }
    assert(k1 == k2);
    assert(a.len() == k1 && b.len() == k1);
    assert(a =~= b);
}

/// The order on byte sequences is transitive.
pub proof fn lemma_bytes_le_transitive(a: Seq<u8>, b: Seq<u8>, c: Seq<u8>)
    requires
        bytes_le(a, b),
        bytes_le(b, c),
    ensures
        bytes_le(a, c),
{
    let k1: int = choose|k: int| settled_at(a, b, k);
    let k2: int = choose|k: int| settled_at(b, c, k);
    let k: int = if k1 <= k2 { k1 } else { k2 };
    assert(agree_below(a, c, k)) by {
        assert forall|i: int| 0 <= i < k implies a[i] == c[i] by {
            assert(a[i] == b[i]);
            assert(b[i] == c[i]);
        }
    }
    if k1 < k2 {
        assert(b[k1] == c[k1]);
    } else if k2 < k1 {
        assert(a[k2] == b[k2]);
    }
    assert(settled_at(a, c, k));
}

/// A position at which `a` holds the larger byte, after a common prefix,
/// rules out that `a` is below or equal to `b`.
proof fn lemma_larger_byte_excludes(a: Seq<u8>, b: Seq<u8>, k: int)
    requires
        0 <= k < a.len(),
        k < b.len(),
        agree_below(a, b, k),
        a[k] > b[k],
    ensures
        !bytes_le(a, b),
{
    assert forall|j: int| !settled_at(a, b, j) by {
        if settled_at(a, b, j) {
            if j > k {
                assert(a[k] == b[k]);
            }
        }
    }
}

/// A sequence that continues after the whole of `b` is not below or equal to `b`.
proof fn lemma_longer_excludes(a: Seq<u8>, b: Seq<u8>)
    requires
        b.len() < a.len(),
        agree_below(a, b, b.len() as int),
    ensures
        !bytes_le(a, b),
{
    assert forall|j: int| !settled_at(a, b, j) by {
        if settled_at(a, b, j) {
            assert(j < b.len());
            assert(a[j] == b[j]);
        }
    }
}

/// Names are totally ordered by [`name_le`]: the relation is reflexive,
/// antisymmetric, transitive, and any two names are comparable.
pub proof fn lemma_name_le_total_order()
    ensures
        forall|a: Seq<char>| #[trigger] name_le(a, a),
        forall|a: Seq<char>, b: Seq<char>| #[trigger] name_le(a, b) || #[trigger] name_le(b, a),
        forall|a: Seq<char>, b: Seq<char>| #[trigger] name_le(a, b) && #[trigger] name_le(b, a) ==> a == b,
        forall|a: Seq<char>, b: Seq<char>, c: Seq<char>|
            #[trigger] name_le(a, b) && #[trigger] name_le(b, c) ==> name_le(a, c),
{
    assert forall|a: Seq<char>| #[trigger] name_le(a, a) by {
        lemma_bytes_le_reflexive(encode_utf8(a));
    }
    assert forall|a: Seq<char>, b: Seq<char>| #[trigger] name_le(a, b) || #[trigger] name_le(b, a) by {
        lemma_bytes_le_total(encode_utf8(a), encode_utf8(b));
    }
    assert forall|a: Seq<char>, b: Seq<char>| #[trigger] name_le(a, b) && #[trigger] name_le(b, a) implies a == b by {
        lemma_bytes_le_antisymmetric(encode_utf8(a), encode_utf8(b));
        encode_utf8_decode_utf8(a);
        encode_utf8_decode_utf8(b);
    }
    assert forall|a: Seq<char>, b: Seq<char>, c: Seq<char>|
        #[trigger] name_le(a, b) && #[trigger] name_le(b, c) implies name_le(a, c) by {
        lemma_bytes_le_transitive(encode_utf8(a), encode_utf8(b), encode_utf8(c));
    }
}

/// Decides whether `a` comes before or equals `b` in the listing order, by
/// one pass over the bytes of both names.
pub fn name_le_exec(a: &str, b: &str) -> (r: bool)
    ensures
        r == name_le(a@, b@),
{
    let x = a.as_bytes();
    let y = b.as_bytes();
    let n: usize = x.len();
    let m: usize = y.len();
    let mut i: usize = 0;
    while i < n && i < m
        invariant
            i <= n,
            i <= m,
            n == x@.len(),
            m == y@.len(),
            x@ == encode_utf8(a@),
            y@ == encode_utf8(b@),
            agree_below(x@, y@, i as int),
        decreases n - i,
    {
        if x[i] != y[i] {
            proof {
                if x[i as int] < y[i as int] {
                    assert(settled_at(x@, y@, i as int));
                } else {
                    lemma_larger_byte_excludes(x@, y@, i as int);
                }
            }
            return x[i] < y[i];
        }
        i += 1;
    }
    proof {
        if n <= m {
            assert(settled_at(x@, y@, n as int));
        } else {
            lemma_longer_excludes(x@, y@);
        }
    }
    n <= m
}

} // verus!
