//! How a change in the ASCII case of letters travels through UTF-8 encoding,
//! percent-decoding and UTF-8 decoding: it stays a change in the ASCII case of letters.

use crate::outside::{hex_value, percent_decode_bytes};
use crate::text::{ascii_lower, ascii_lowercase, eq_ignore_ascii_case};
use vstd::prelude::*;
use vstd::utf8::{
    decode_first_codepoint, decode_first_scalar, decode_utf8, encode_scalar, encode_utf8,
    is_continuation_byte, length_of_first_codepoint, length_of_first_scalar, pop_first_scalar,
    valid_first_scalar, valid_utf8,
};

verus! {

/// ASCII lower case of a byte; other bytes are unchanged.
pub open spec fn lower_byte(b: u8) -> u8 {
    if 65 <= b <= 90 {
        (b + 32) as u8
    } else {
        b
    }
}

/// Byte strings that differ at most in the ASCII case of letters.
pub open spec fn bytes_same_but_case(a: Seq<u8>, b: Seq<u8>) -> bool {
    &&& a.len() == b.len()
    &&& forall|i: int| 0 <= i < a.len() ==> lower_byte(#[trigger] a[i]) == lower_byte(b[i])
}

pub proof fn lemma_chars_case_at(a: Seq<char>, b: Seq<char>, i: int)
    requires
        eq_ignore_ascii_case(a, b),
        0 <= i < a.len(),
    ensures
        a.len() == b.len(),
        ascii_lower(a[i]) == ascii_lower(b[i]),
{
    assert(ascii_lowercase(a).len() == ascii_lowercase(b).len());
    assert(ascii_lowercase(a)[i] == ascii_lowercase(b)[i]);
}

proof fn lemma_bytes_case_concat(x1: Seq<u8>, y1: Seq<u8>, x2: Seq<u8>, y2: Seq<u8>)
    requires
        bytes_same_but_case(x1, x2),
        bytes_same_but_case(y1, y2),
    ensures
        bytes_same_but_case(x1 + y1, x2 + y2),
{
    assert forall|i: int| 0 <= i < (x1 + y1).len() implies lower_byte(#[trigger] (x1 + y1)[i])
        == lower_byte((x2 + y2)[i]) by {
        if i < x1.len() {
            assert(lower_byte(x1[i]) == lower_byte(x2[i]));
        } else {
            assert(lower_byte(y1[i - x1.len()]) == lower_byte(y2[i - x1.len()]));
        }
    }
}

proof fn lemma_bytes_case_skip(a: Seq<u8>, b: Seq<u8>, n: int)
    requires
        bytes_same_but_case(a, b),
        0 <= n <= a.len(),
    ensures
        bytes_same_but_case(a.skip(n), b.skip(n)),
{
    assert forall|i: int| 0 <= i < a.skip(n).len() implies lower_byte(#[trigger] a.skip(n)[i])
        == lower_byte(b.skip(n)[i]) by {
        assert(lower_byte(a[i + n]) == lower_byte(b[i + n]));
    }
}

proof fn lemma_chars_case_cons(c1: char, r1: Seq<char>, c2: char, r2: Seq<char>)
    requires
        ascii_lower(c1) == ascii_lower(c2),
        eq_ignore_ascii_case(r1, r2),
    ensures
        eq_ignore_ascii_case(seq![c1] + r1, seq![c2] + r2),
{
    let s1 = seq![c1] + r1;
    let s2 = seq![c2] + r2;
    assert(r1.len() == r2.len()) by {
        assert(ascii_lowercase(r1).len() == ascii_lowercase(r2).len());
    }
    assert forall|i: int| 0 <= i < s1.len() implies ascii_lowercase(s1)[i] == ascii_lowercase(
        s2,
    )[i] by {
        if i > 0 {
            lemma_chars_case_at(r1, r2, i - 1);
            assert(s1[i] == r1[i - 1] && s2[i] == r2[i - 1]);
        }
    }
    assert(ascii_lowercase(s1) =~= ascii_lowercase(s2));
}

/// Text that differs in the ASCII case of letters has UTF-8 bytes that differ in the
/// ASCII case of letters.
pub proof fn lemma_encode_case(a: Seq<char>, b: Seq<char>)
    requires
        eq_ignore_ascii_case(a, b),
    ensures
        bytes_same_but_case(encode_utf8(a), encode_utf8(b)),
    decreases a.len(),
{
    assert(ascii_lowercase(a).len() == ascii_lowercase(b).len());
    if a.len() > 0 {
        lemma_chars_case_at(a, b, 0);
        assert(eq_ignore_ascii_case(a.drop_first(), b.drop_first())) by {
            assert(ascii_lowercase(a.drop_first()) =~= ascii_lowercase(a).drop_first());
            assert(ascii_lowercase(b.drop_first()) =~= ascii_lowercase(b).drop_first());
        }
        lemma_encode_case(a.drop_first(), b.drop_first());
        let x = encode_scalar(a[0] as u32);
        let y = encode_scalar(b[0] as u32);
        if a[0] != b[0] {
            let u = a[0] as u32;
            let w = b[0] as u32;
            assert(u <= 0x7f && w <= 0x7f);
            assert(((u & 0x7F) as u8) as u32 == u) by (bit_vector)
                requires
                    u <= 0x7f,
            ;
            assert(((w & 0x7F) as u8) as u32 == w) by (bit_vector)
                requires
                    w <= 0x7f,
            ;
            assert(x == seq![(u & 0x7F) as u8]);
            assert(y == seq![(w & 0x7F) as u8]);
        }
        assert(bytes_same_but_case(x, y));
    } else {
        assert(b.len() == 0);
    }
}

/// Percent-decoding keeps a difference in the ASCII case of letters a difference in the
/// ASCII case of letters (hex digits of either case spell the same byte).
pub proof fn lemma_percent_decode_case(a: Seq<u8>, b: Seq<u8>)
    requires
        bytes_same_but_case(a, b),
    ensures
        bytes_same_but_case(percent_decode_bytes(a), percent_decode_bytes(b)),
    decreases a.len(),
{
    if a.len() > 0 {
        assert(lower_byte(a[0]) == lower_byte(b[0]));
        if a.len() >= 3 {
            assert(lower_byte(a[1]) == lower_byte(b[1]));
            assert(lower_byte(a[2]) == lower_byte(b[2]));
            assert(hex_value(a[1]) == hex_value(b[1]));
            assert(hex_value(a[2]) == hex_value(b[2]));
        }
        if a[0] == 37 && a.len() >= 3 && hex_value(a[1]) is Some && hex_value(a[2]) is Some {
            assert(b[0] == 37);
            lemma_bytes_case_skip(a, b, 3);
            lemma_percent_decode_case(a.skip(3), b.skip(3));
            let x = seq![((hex_value(a[1])->0 as int) * 16 + (hex_value(a[2])->0 as int)) as u8];
            lemma_bytes_case_concat(x, percent_decode_bytes(a.skip(3)), x, percent_decode_bytes(b.skip(3)));
        } else {
            assert(!(b[0] == 37 && b.len() >= 3 && hex_value(b[1]) is Some && hex_value(b[2]) is Some));
            lemma_bytes_case_skip(a, b, 1);
            lemma_percent_decode_case(a.skip(1), b.skip(1));
            lemma_bytes_case_concat(seq![a[0]], percent_decode_bytes(a.skip(1)), seq![b[0]], percent_decode_bytes(b.skip(1)));
        }
    }
}

proof fn lemma_first_scalar_case(a: Seq<u8>, b: Seq<u8>)
    requires
        bytes_same_but_case(a, b),
        a.len() > 0,
    ensures
        valid_first_scalar(a) == valid_first_scalar(b),
        valid_first_scalar(a) ==> length_of_first_scalar(a) == length_of_first_scalar(b)
            && ascii_lower(decode_first_scalar(a) as char) == ascii_lower(
            decode_first_scalar(b) as char,
        ),
{
    let a0 = a[0];
    let b0 = b[0];
    assert(lower_byte(a0) == lower_byte(b0));
    if a0 != b0 {
        assert(a0 < 0x80 && b0 < 0x80);
        assert((a0 & 0x7F) as u32 == a0 as u32) by (bit_vector)
            requires
                a0 < 0x80,
        ;
        assert((b0 & 0x7F) as u32 == b0 as u32) by (bit_vector)
            requires
                b0 < 0x80,
        ;
        assert(decode_first_codepoint(a) == a0 as u32);
        assert(decode_first_codepoint(b) == b0 as u32);
    } else if a0 < 0x80 {
        assert((a0 & 0x7F) as u32 == a0 as u32) by (bit_vector)
            requires
                a0 < 0x80,
        ;
    } else {
        assert forall|i: int| 1 <= i < a.len() && i < 4 && (is_continuation_byte(a[i])
            || is_continuation_byte(b[i])) implies a[i] == b[i] by {
            assert(lower_byte(a[i]) == lower_byte(b[i]));
        }
        if a.len() >= 2 {
            assert(lower_byte(a[1]) == lower_byte(b[1]));
            assert(is_continuation_byte(a[1]) == is_continuation_byte(b[1]));
        }
        if a.len() >= 3 {
            assert(lower_byte(a[2]) == lower_byte(b[2]));
            assert(is_continuation_byte(a[2]) == is_continuation_byte(b[2]));
        }
        if a.len() >= 4 {
            assert(lower_byte(a[3]) == lower_byte(b[3]));
            assert(is_continuation_byte(a[3]) == is_continuation_byte(b[3]));
        }
        if valid_first_scalar(a) || valid_first_scalar(b) {
            let k = length_of_first_codepoint(a);
            assert(k == length_of_first_codepoint(b));
            assert(a.take(k) =~= b.take(k));
            assert(decode_first_codepoint(a) == decode_first_codepoint(b));
        }
    }
}

/// Bytes that differ in the ASCII case of letters are both UTF-8 or both not, and decode
/// to text that differs in the ASCII case of letters.
pub proof fn lemma_utf8_case(a: Seq<u8>, b: Seq<u8>)
    requires
        bytes_same_but_case(a, b),
    ensures
        valid_utf8(a) == valid_utf8(b),
        valid_utf8(a) ==> eq_ignore_ascii_case(decode_utf8(a), decode_utf8(b)),
    decreases a.len(),
{
    if a.len() > 0 {
        lemma_first_scalar_case(a, b);
        if valid_first_scalar(a) {
            let k = length_of_first_scalar(a);
            assert(pop_first_scalar(a) == a.skip(k));
            assert(pop_first_scalar(b) == b.skip(k));
            lemma_bytes_case_skip(a, b, k);
            lemma_utf8_case(a.skip(k), b.skip(k));
            if valid_utf8(a) {
                lemma_chars_case_cons(
                    decode_first_scalar(a) as char,
                    decode_utf8(a.skip(k)),
                    decode_first_scalar(b) as char,
                    decode_utf8(b.skip(k)),
                );
            }
        }
    } else {
        assert(decode_utf8(a) =~= decode_utf8(b));
    }
}

} // verus!
