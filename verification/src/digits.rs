//! Digits and the numbers that runs of digits stand for.
use crate::text::{first_char, skip_first};
use vstd::prelude::*;

verus! {

/// Whether `c` is one of `0` to `9`.
pub open spec fn is_digit(c: char) -> bool {
    '0' <= c <= '9'
}

/// The value of a hexadecimal digit, in either case.
pub open spec fn hex_digit(c: char) -> Option<u8> {
    if '0' <= c <= '9' {
        Some((c as u32 - '0' as u32) as u8)
    } else if 'a' <= c <= 'f' {
        Some((c as u32 - 'a' as u32 + 10) as u8)
    } else if 'A' <= c <= 'F' {
        Some((c as u32 - 'A' as u32 + 10) as u8)
    } else {
        None
    }
}

/// The number that the decimal digits of `s` write. A character that is no
/// digit adds nothing.
pub open spec fn dec_value(s: Seq<char>) -> nat
    decreases s.len(),
{
    if s.len() == 0 {
        0
    } else if is_digit(s.last()) {
        dec_value(s.drop_last()) * 10 + (s.last() as u32 - '0' as u32) as nat
    } else {
        dec_value(s.drop_last())
    }
}

/// The number that the hexadecimal digits of `s` write. A character that
/// is no digit adds nothing.
pub open spec fn hex_value(s: Seq<char>) -> nat
    decreases s.len(),
{
    if s.len() == 0 {
        0
    } else {
        match hex_digit(s.last()) {
            Some(d) => hex_value(s.drop_last()) * 16 + d as nat,
            None => hex_value(s.drop_last()),
        }
    }
}

/// A longer run of digits writes no smaller number.
pub proof fn lemma_dec_value_monotonic(s: Seq<char>, k: int)
    requires
        0 <= k <= s.len(),
    ensures
        dec_value(s.take(k)) <= dec_value(s),
    decreases s.len() - k,
{
    if k < s.len() {
        lemma_dec_value_monotonic(s.drop_last(), k);
        assert(s.drop_last().take(k) =~= s.take(k));
    } else {
        assert(s.take(k) =~= s);
    }
}

/// A longer run of hexadecimal digits writes no smaller number.
pub proof fn lemma_hex_value_monotonic(s: Seq<char>, k: int)
    requires
        0 <= k <= s.len(),
    ensures
        hex_value(s.take(k)) <= hex_value(s),
    decreases s.len() - k,
{
    if k < s.len() {
        lemma_hex_value_monotonic(s.drop_last(), k);
        assert(s.drop_last().take(k) =~= s.take(k));
    } else {
        assert(s.take(k) =~= s);
    }
}

/// Whether `c` is one of `0` to `9`.
pub fn is_ascii_digit(c: char) -> (r: bool)
    ensures
        r == is_digit(c),
{
    '0' <= c && c <= '9'
}

/// The value of a hexadecimal digit.
pub fn nibble(b: char) -> (r: Option<u8>)
    ensures
        r == hex_digit(b),
        r matches Some(v) ==> v < 16,
{
    let v: u32 = b as u32;
    if '0' <= b && b <= '9' {
        Some((v - '0' as u32) as u8)
    } else if 'a' <= b && b <= 'f' {
        Some((v - 'a' as u32 + 10) as u8)
    } else if 'A' <= b && b <= 'F' {
        Some((v - 'A' as u32 + 10) as u8)
    } else {
        None
    }
}

/// The number that the decimal digits of `s` write, where it fits a
/// `usize`.
pub fn parse_decimal(s: &str) -> (r: Option<usize>)
    ensures
        r == (if dec_value(s@) <= usize::MAX {
            Some(dec_value(s@) as usize)
        } else {
            None::<usize>
        }),
{
    let mut rest = s;
    let mut value: usize = 0;
    let ghost mut k: int = 0;
    assert(s@.take(0) =~= Seq::<char>::empty());
    loop
        invariant
            0 <= k <= s@.len(),
            rest@ == s@.skip(k),
            value == dec_value(s@.take(k)),
        ensures
            k == s@.len(),
            value == dec_value(s@.take(k)),
        decreases s@.len() - k,
    {
        let c = match first_char(rest) {
            Some(c) => c,
            None => {
                break ;
            },
        };
        proof {
            assert(s@.take(k + 1).drop_last() =~= s@.take(k));
            assert(s@.take(k + 1).last() == c);
            lemma_dec_value_monotonic(s@, k + 1);
        }
        if is_ascii_digit(c) {
            let d: usize = (c as u32 - '0' as u32) as usize;
            let next = match value.checked_mul(10) {
                Some(v) => v.checked_add(d),
                None => None,
            };
            value = match next {
                Some(v) => v,
                None => {
                    return None;
                },
            };
        }
        rest = skip_first(rest);
        proof {
            assert(s@.skip(k).drop_first() =~= s@.skip(k + 1));
            k = k + 1;
        }
    }
    assert(s@.take(k) =~= s@);
    Some(value)
}

/// The number that the hexadecimal digits of `s` write, where it fits a
/// `u32`.
pub fn parse_hex(s: &str) -> (r: Option<u32>)
    ensures
        r == (if hex_value(s@) <= u32::MAX {
            Some(hex_value(s@) as u32)
        } else {
            None::<u32>
        }),
{
    let mut rest = s;
    let mut value: u32 = 0;
    let ghost mut k: int = 0;
    assert(s@.take(0) =~= Seq::<char>::empty());
    loop
        invariant
            0 <= k <= s@.len(),
            rest@ == s@.skip(k),
            value == hex_value(s@.take(k)),
        ensures
            k == s@.len(),
            value == hex_value(s@.take(k)),
        decreases s@.len() - k,
    {
        let c = match first_char(rest) {
            Some(c) => c,
            None => {
                break ;
            },
        };
        proof {
            assert(s@.take(k + 1).drop_last() =~= s@.take(k));
            assert(s@.take(k + 1).last() == c);
            lemma_hex_value_monotonic(s@, k + 1);
        }
        if let Some(d) = nibble(c) {
            let next = match value.checked_mul(16) {
                Some(v) => v.checked_add(d as u32),
                None => None,
            };
            value = match next {
                Some(v) => v,
                None => {
                    return None;
                },
            };
        }
        rest = skip_first(rest);
        proof {
            assert(s@.skip(k).drop_first() =~= s@.skip(k + 1));
            k = k + 1;
        }
    }
    assert(s@.take(k) =~= s@);
    Some(value)
}

} // verus!
