//! The listing order read over characters. Names are compared byte by byte;
//! this module proves that the outcome is the same as comparing them
//! character by character, each character by its code point.

use vstd::prelude::*;
use vstd::utf8::*;
use crate::name_order::{agree_below, bytes_le, name_le, settled_at};

verus! {

/// Position `k` settles that `a` does not come after `b` when both are read
/// as characters: they agree below `k`, and at `k` either `a` has ended or
/// it holds the character with the smaller code point.
pub open spec fn chars_settled_at(a: Seq<char>, b: Seq<char>, k: int) -> bool {
    &&& 0 <= k <= a.len()
    &&& k <= b.len()
    &&& forall|i: int| 0 <= i < k ==> a[i] == b[i]
    &&& (k == a.len() || (k < b.len() && (a[k] as u32) < (b[k] as u32)))
}

/// Lexicographic "less than or equal" on names by code point.
pub open spec fn code_points_le(a: Seq<char>, b: Seq<char>) -> bool {
    exists|k: int| chars_settled_at(a, b, k)
}

/// The first byte of an encoding tells its width, and wider encodings start
/// with larger bytes.
proof fn lemma_leading_byte_ranges(c: u32)
    by (bit_vector)
    ensures
        has_width_1_encoding(c) ==> leading_byte_width_1(c) <= 0x7F,
        has_width_2_encoding(c) ==> 0xC0 <= leading_byte_width_2(c) <= 0xDF,
        has_width_3_encoding(c) ==> 0xE0 <= leading_byte_width_3(c) <= 0xEF,
        has_width_4_encoding(c) ==> 0xF0 <= leading_byte_width_4(c) <= 0xF7,
{
}

/// One-byte encodings are ordered as their scalars.
proof fn lemma_order_width_1(c: u32, d: u32)
    by (bit_vector)
    requires
        has_width_1_encoding(c),
        has_width_1_encoding(d),
        c < d,
    ensures
        leading_byte_width_1(c) < leading_byte_width_1(d),
{
}

/// Two-byte encodings are ordered as their scalars.
proof fn lemma_order_width_2(c: u32, d: u32)
    by (bit_vector)
    requires
        has_width_2_encoding(c),
        has_width_2_encoding(d),
        c < d,
    ensures
        ({
            let c1: u8 = leading_byte_width_2(c);
            let c2: u8 = last_continuation_byte(c);
            let d1: u8 = leading_byte_width_2(d);
            let d2: u8 = last_continuation_byte(d);
            c1 < d1 || (c1 == d1 && c2 < d2)
        }),
{
}

/// Three-byte encodings are ordered as their scalars.
proof fn lemma_order_width_3(c: u32, d: u32)
    by (bit_vector)
    requires
        has_width_3_encoding(c),
        has_width_3_encoding(d),
        c < d,
    ensures
        ({
            let c1: u8 = leading_byte_width_3(c);
            let c2: u8 = second_last_continuation_byte(c);
            let c3: u8 = last_continuation_byte(c);
            let d1: u8 = leading_byte_width_3(d);
            let d2: u8 = second_last_continuation_byte(d);
            let d3: u8 = last_continuation_byte(d);
            c1 < d1 || (c1 == d1 && (c2 < d2 || (c2 == d2 && c3 < d3)))
        }),
{
}

/// Four-byte encodings are ordered as their scalars.
proof fn lemma_order_width_4(c: u32, d: u32)
    by (bit_vector)
    requires
        has_width_4_encoding(c),
        has_width_4_encoding(d),
        c < d,
    ensures
        ({
            let c1: u8 = leading_byte_width_4(c);
            let c2: u8 = third_last_continuation_byte(c);
            let c3: u8 = second_last_continuation_byte(c);
            let c4: u8 = last_continuation_byte(c);
            let d1: u8 = leading_byte_width_4(d);
            let d2: u8 = third_last_continuation_byte(d);
            let d3: u8 = second_last_continuation_byte(d);
            let d4: u8 = last_continuation_byte(d);
            c1 < d1 || (c1 == d1 && (c2 < d2 || (c2 == d2 && (c3 < d3 || (c3 == d3 && c4
                < d4)))))
        }),
{
}

/// The encodings of two scalars differ at a position that lies within both,
/// and there the smaller scalar holds the smaller byte.
proof fn lemma_scalar_order(c: u32, d: u32) -> (p: int)
    requires
        is_scalar(c),
        is_scalar(d),
        c < d,
    ensures
        0 <= p < encode_scalar(c).len(),
        p < encode_scalar(d).len(),
        agree_below(encode_scalar(c), encode_scalar(d), p),
        encode_scalar(c)[p] < encode_scalar(d)[p],
{
    let x = encode_scalar(c);
    let y = encode_scalar(d);
    lemma_leading_byte_ranges(c);
    lemma_leading_byte_ranges(d);
    if has_width_1_encoding(d) {
        lemma_order_width_1(c, d);
        0
    } else if has_width_1_encoding(c) {
        0
    } else if has_width_2_encoding(d) {
        lemma_order_width_2(c, d);
        if x[0] < y[0] {
            0
        } else {
            1
        }
    } else if has_width_2_encoding(c) {
        0
    } else if has_width_3_encoding(d) {
        lemma_order_width_3(c, d);
        if x[0] < y[0] {
            0
        } else if x[1] < y[1] {
            1
        } else {
            2
        }
    } else if has_width_3_encoding(c) {
        0
    } else {
        lemma_order_width_4(c, d);
        if x[0] < y[0] {
            0
        } else if x[1] < y[1] {
            1
        } else if x[2] < y[2] {
            2
        } else {
            3
        }
    }
}

/// A common prefix does not change how two byte sequences are ordered.
proof fn lemma_bytes_le_common_prefix(prefix: Seq<u8>, a: Seq<u8>, b: Seq<u8>)
    ensures
        bytes_le(prefix + a, prefix + b) <==> bytes_le(a, b),
{
    let n: int = prefix.len() as int;
    if bytes_le(a, b) {
        let k: int = choose|k: int| settled_at(a, b, k);
        assert(settled_at(prefix + a, prefix + b, k + n)) by {
            assert forall|i: int| 0 <= i < k + n implies (prefix + a)[i] == (prefix + b)[i] by {
                if i >= n {
                    assert(a[i - n] == b[i - n]);
                }
            }
        }
    }
    if bytes_le(prefix + a, prefix + b) {
        let k: int = choose|k: int| settled_at(prefix + a, prefix + b, k);
        if k < n {
            assert((prefix + a)[k] == (prefix + b)[k]);
        }
        assert(settled_at(a, b, k - n)) by {
            assert forall|i: int| 0 <= i < k - n implies a[i] == b[i] by {
                assert((prefix + a)[i + n] == (prefix + b)[i + n]);
            }
        }
    }
}

/// A common first character does not change how two names are ordered by
/// code point.
proof fn lemma_code_points_le_common_head(a: Seq<char>, b: Seq<char>)
    requires
        a.len() > 0,
        b.len() > 0,
        a[0] == b[0],
    ensures
        code_points_le(a, b) <==> code_points_le(a.drop_first(), b.drop_first()),
{
    let x = a.drop_first();
    let y = b.drop_first();
    if code_points_le(x, y) {
        let k: int = choose|k: int| chars_settled_at(x, y, k);
        assert(chars_settled_at(a, b, k + 1)) by {
            assert forall|i: int| 0 <= i < k + 1 implies a[i] == b[i] by {
                if i > 0 {
                    assert(x[i - 1] == y[i - 1]);
                }
            }
        }
    }
    if code_points_le(a, b) {
        let k: int = choose|k: int| chars_settled_at(a, b, k);
        assert(chars_settled_at(x, y, k - 1)) by {
            assert forall|i: int| 0 <= i < k - 1 implies x[i] == y[i] by {
                assert(a[i + 1] == b[i + 1]);
            }
        }
    }
}

/// The listing order is the order by code point: comparing the bytes of two
/// names decides as comparing their characters does.
pub proof fn lemma_name_le_is_code_point_order(a: Seq<char>, b: Seq<char>)
    ensures
        name_le(a, b) <==> code_points_le(a, b),
    decreases a.len(),
{
    let x = encode_utf8(a);
    let y = encode_utf8(b);
    if a.len() == 0 {
        assert(settled_at(x, y, 0));
        assert(chars_settled_at(a, b, 0));
    } else if b.len() == 0 {
        assert(x.len() > 0);
        assert(y.len() == 0);
        assert forall|k: int| !settled_at(x, y, k) by {}
        assert forall|k: int| !chars_settled_at(a, b, k) by {}
    } else {
        let c: u32 = a[0] as u32;
        let d: u32 = b[0] as u32;
        let head_a = encode_scalar(c);
        let head_b = encode_scalar(d);
        let rest_a = encode_utf8(a.drop_first());
        let rest_b = encode_utf8(b.drop_first());
        char_is_scalar(a[0]);
        char_is_scalar(b[0]);
        if c == d {
            assert(a[0] == b[0]) by {
                char_u32_cast(a[0], c);
                char_u32_cast(b[0], d);
            }
            lemma_bytes_le_common_prefix(head_a, rest_a, rest_b);
            lemma_code_points_le_common_head(a, b);
            lemma_name_le_is_code_point_order(a.drop_first(), b.drop_first());
        } else if c < d {
            let p: int = lemma_scalar_order(c, d);
            assert(settled_at(x, y, p)) by {
                assert forall|i: int| 0 <= i < p implies x[i] == y[i] by {
                    assert(head_a[i] == head_b[i]);
                }
                assert(x[p] == head_a[p]);
                assert(y[p] == head_b[p]);
            }
            assert(chars_settled_at(a, b, 0));
        } else {
            let p: int = lemma_scalar_order(d, c);
            assert forall|k: int| !settled_at(x, y, k) by {
                if settled_at(x, y, k) {
                    assert(x[p] == head_a[p]);
                    assert(y[p] == head_b[p]);
                    if k < p {
                        assert(head_b[k] == head_a[k]);
                        assert(x[k] == head_a[k]);
                        assert(y[k] == head_b[k]);
                    }
                }
            }
            assert forall|k: int| !chars_settled_at(a, b, k) by {
                if chars_settled_at(a, b, k) {
                    if k > 0 {
                        assert(a[0] == b[0]);
                    }
                }
            }
        }
    }
}

} // verus!
