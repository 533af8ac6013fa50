//! Decimal integer parsing, as `str::parse::<i64>()` and `str::parse::<u16>()` document it:
//! an optional sign (`+` for both, `-` for signed types only) followed by at least one
//! ASCII digit, with no other characters, and a value in the type's range.

use vstd::prelude::*;

verus! {

pub open spec fn is_digit(c: char) -> bool {
    '0' <= c <= '9'
}

pub open spec fn all_digits(s: Seq<char>) -> bool {
    forall|i: int| 0 <= i < s.len() ==> #[trigger] is_digit(s[i])
}

/// The value of a string of decimal digits.
pub open spec fn digits_value(s: Seq<char>) -> int
    decreases s.len(),
{
    if s.len() == 0 {
        0
    } else {
        digits_value(s.drop_last()) * 10 + ((s.last() as u32) - 48)
    }
}

/// What `str::parse::<i64>()` returns, with the error as `None`.
pub open spec fn parse_i64(s: Seq<char>) -> Option<i64> {
    if s.len() == 0 {
        None
    } else {
        let signed = s[0] == '+' || s[0] == '-';
        let d = if signed {
            s.drop_first()
        } else {
            s
        };
        let v = if s[0] == '-' {
            -digits_value(d)
        } else {
            digits_value(d)
        };
        if d.len() == 0 || !all_digits(d) || v < i64::MIN || v > i64::MAX {
            None
        } else {
            Some(v as i64)
        }
    }
}

/// What `str::parse::<u16>()` returns, with the error as `None`.
pub open spec fn parse_u16(s: Seq<char>) -> Option<u16> {
    if s.len() == 0 {
        None
    } else {
        let d = if s[0] == '+' {
            s.drop_first()
        } else {
            s
        };
        if d.len() == 0 || !all_digits(d) || digits_value(d) > u16::MAX {
            None
        } else {
            Some(digits_value(d) as u16)
        }
    }
}

pub proof fn lemma_digits_value_nonneg(s: Seq<char>)
    requires
        all_digits(s),
    ensures
        digits_value(s) >= 0,
    decreases s.len(),
{
    if s.len() > 0 {
        assert(is_digit(s[s.len() - 1]));
        assert(all_digits(s.drop_last())) by {
            assert forall|i: int| 0 <= i < s.drop_last().len() implies #[trigger] is_digit(
                s.drop_last()[i],
            ) by {
                assert(is_digit(s[i]));
            }
        }
        lemma_digits_value_nonneg(s.drop_last());
    }
}

/// A prefix of a digit string is worth no more than the whole string.
proof fn lemma_digits_value_prefix(s: Seq<char>, k: int)
    requires
        all_digits(s),
        0 <= k <= s.len(),
    ensures
        digits_value(s.take(k)) <= digits_value(s),
    decreases s.len() - k,
{
    if k < s.len() {
        let t = s.take(k + 1);
        assert(t.drop_last() =~= s.take(k));
        assert(is_digit(s[k]));
        assert(all_digits(s.take(k))) by {
            assert forall|i: int| 0 <= i < k implies #[trigger] is_digit(s.take(k)[i]) by {
                assert(is_digit(s[i]));
            }
        }
        lemma_digits_value_nonneg(s.take(k));
        lemma_digits_value_prefix(s, k + 1);
    } else {
        assert(s.take(k) =~= s);
    }
}

/// Reads the digits `s[start..]`; `None` when one of them is not a digit or their value
/// exceeds `bound`.
fn parse_digits(s: &Vec<char>, start: usize, bound: u128) -> (res: Option<u128>)
    requires
        start <= s.len(),
        bound <= u64::MAX,
    ensures
        match res {
            Some(v) => all_digits(s@.skip(start as int)) && digits_value(s@.skip(start as int))
                == v && v <= bound,
            None => !(all_digits(s@.skip(start as int)) && digits_value(s@.skip(start as int))
                <= bound),
        },
{
    let ghost t = s@.skip(start as int);
    let mut acc: u128 = 0;
    let mut i: usize = start;
    assert(t.take(0) =~= Seq::<char>::empty());
    while i < s.len()
        invariant
            start <= i <= s.len(),
            bound <= u64::MAX,
            t == s@.skip(start as int),
            all_digits(t.take(i - start)),
            acc == digits_value(t.take(i - start)),
            acc <= bound,
        decreases s.len() - i,
    {
        let c = s[i];
        if !('0' <= c && c <= '9') {
            assert(!is_digit(t[i - start]));
            return None;
        }
        let d = (c as u32 - 48) as u128;
        assert(t.take(i - start + 1).drop_last() =~= t.take(i - start));
        acc = acc * 10 + d;
        i = i + 1;
        assert(all_digits(t.take(i - start))) by {
            assert forall|j: int| 0 <= j < i - start implies #[trigger] is_digit(t.take(i - start)[j]) by {
                if j < i - start - 1 {
                    assert(t.take(i - start)[j] == t.take(i - start - 1)[j]);
                }
            }
        }
        if acc > bound {
            proof {
                if all_digits(t) {
                    lemma_digits_value_prefix(t, i - start);
                }
            }
            return None;
        }
    }
    assert(t.take(i - start) =~= t);
    Some(acc)
}

/// Returns `parse_i64(s)`.
pub fn parse_i64_chars(s: &Vec<char>) -> (res: Option<i64>)
    ensures
        res == parse_i64(s@),
{
    if s.len() == 0 {
        return None;
    }
    let negative = s[0] == '-';
    let signed = s[0] == '+' || negative;
    let start: usize = if signed {
        1
    } else {
        0
    };
    proof {
        if signed {
            assert(s@.skip(1) =~= s@.drop_first());
        } else {
            assert(s@.skip(0) =~= s@);
        }
    }
    if start == s.len() {
        return None;
    }
    let bound: u128 = if negative {
        9223372036854775808
    } else {
        9223372036854775807
    };
    match parse_digits(s, start, bound) {
        Some(v) => {
            if negative {
                let r: i128 = -(v as i128);
                Some(r as i64)
            } else {
                Some(v as i64)
            }
        },
        None => None,
    }
}

/// Returns `parse_u16(s)`.
pub fn parse_u16_chars(s: &Vec<char>) -> (res: Option<u16>)
    ensures
        res == parse_u16(s@),
{
    if s.len() == 0 {
        return None;
    }
    let start: usize = if s[0] == '+' {
        1
    } else {
        0
    };
    proof {
        if s@[0] == '+' {
            assert(s@.skip(1) =~= s@.drop_first());
        } else {
            assert(s@.skip(0) =~= s@);
        }
    }
    if start == s.len() {
        return None;
    }
    match parse_digits(s, start, 65535) {
        Some(v) => Some(v as u16),
        None => None,
    }
}

} // verus!
