//! Decimal integers as they are written in a duration marker.

use vstd::prelude::*;

verus! {

/// Whether `c` is one of the ASCII digits.
pub open spec fn is_digit(c: char) -> bool {
    48 <= c as u32 <= 57
}

/// The number that an ASCII digit stands for.
pub open spec fn digit_value(c: char) -> int {
    c as u32 as int - 48
}

/// Whether `s` holds ASCII digits only.
pub open spec fn all_digits(s: Seq<char>) -> bool {
    forall|i: int| 0 <= i < s.len() ==> is_digit(#[trigger] s[i])
}

/// The number that a run of decimal digits denotes.
pub open spec fn digits_value(s: Seq<char>) -> int
    decreases s.len(),
{
    if s.len() == 0 {
        0
    } else {
        digits_value(s.drop_last()) * 10 + digit_value(s.last())
    }
}

/// The 32-bit signed integer that `s` denotes: an optional `+` or `-`, then
/// one or more ASCII digits, the whole within the range of `i32`. Any other
/// text denotes none.
pub open spec fn decimal_i32(s: Seq<char>) -> Option<i32> {
    if s.len() == 0 {
        None
    } else {
        let body = if s[0] == '-' || s[0] == '+' {
            s.drop_first()
        } else {
            s
        };
        let v = if s[0] == '-' {
            -digits_value(body)
        } else {
            digits_value(body)
        };
        if body.len() > 0 && all_digits(body) && -0x8000_0000 <= v <= 0x7fff_ffff {
            Some(v as i32)
        } else {
            None
        }
    }
}

/// A longer run of digits never denotes less than one of its prefixes.
pub proof fn lemma_digits_value_grows(s: Seq<char>, k: int)
    requires
        all_digits(s),
        0 <= k <= s.len(),
    ensures
        0 <= digits_value(s.take(k)) <= digits_value(s),
    decreases s.len(),
{
    if k == s.len() {
        assert(s.take(k) =~= s);
        if s.len() > 0 {
            lemma_digits_value_grows(s.drop_last(), k - 1);
        }
    } else {
        lemma_digits_value_grows(s.drop_last(), k);
        assert(s.drop_last().take(k) =~= s.take(k));
    }
}

/// Reads `v[lo..hi]` as a 32-bit signed decimal integer.
#[verifier::loop_isolation(false)]
pub fn parse_decimal(v: &Vec<char>, lo: usize, hi: usize) -> (r: Option<i32>)
    requires
        lo <= hi <= v@.len(),
    ensures
        r == decimal_i32(v@.subrange(lo as int, hi as int)),
{
    if lo == hi {
        return None;
    }
    let ghost s = v@.subrange(lo as int, hi as int);
    let negative: bool = v[lo] == '-';
    let start: usize = if v[lo] == '-' || v[lo] == '+' {
        lo + 1
    } else {
        lo
    };
    let ghost body = v@.subrange(start as int, hi as int);
    assert(start > lo ==> body =~= s.drop_first());
    assert(start == lo ==> body =~= s);
    if start == hi {
        return None;
    }
    let mut acc: i64 = 0;
    let mut k: usize = start;
    while k < hi
        invariant
            start <= k <= hi <= v@.len(),
            body == v@.subrange(start as int, hi as int),
            all_digits(v@.subrange(start as int, k as int)),
            acc == digits_value(v@.subrange(start as int, k as int)),
            0 <= acc <= 0x8000_0000,
        decreases hi - k,
    {
        let n: u32 = v[k] as u32;
        if n < 48 || n > 57 {
            assert(!is_digit(body[k - start]));
            return None;
        }
        let ghost before = v@.subrange(start as int, k as int);
        let ghost after = v@.subrange(start as int, k + 1);
        assert(after.drop_last() =~= before);
        assert(after.last() == v@[k as int]);
        let d: i64 = (n - 48) as i64;
        let next: i64 = acc * 10 + d;
        assert(next == digits_value(after));
        assert(all_digits(after)) by {
            assert forall|i: int| 0 <= i < after.len() implies is_digit(#[trigger] after[i]) by {
                if i < before.len() {
                    assert(after[i] == before[i]);
                }
            }
        }
        if next > 0x8000_0000 {
            proof {
                if all_digits(body) {
                    lemma_digits_value_grows(body, k + 1 - start);
                    assert(body.take(k + 1 - start) =~= after);
                }
            }
            return None;
        }
        acc = next;
        k += 1;
    }
    assert(v@.subrange(start as int, k as int) =~= body);
    if negative {
        Some((-acc) as i32)
    } else if acc <= 0x7fff_ffff {
        Some(acc as i32)
    } else {
        None
    }
}

} // verus!
