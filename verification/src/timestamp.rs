//! The timestamp grammar of the store: an RFC 3339 date-time with second
//! precision, an optional fraction, and a numeric or `Z` offset, such as
//! `2024-05-01T12:30:00.123+00:00`.
//!
//! Timestamps are ordered byte-wise lexicographically, which is a total
//! order; for the uniform renderings that one writer produces (a fixed
//! offset style and equal fractional width) it coincides with chronological
//! order.

use vstd::prelude::*;
use crate::addr::is_digit;
use crate::text::{NL, COMMA};

verus! {

pub const HYPHEN: u8 = 45;
pub const COLON: u8 = 58;
pub const UPPER_T: u8 = 84;
pub const UPPER_Z: u8 = 90;
pub const PLUS: u8 = 43;
pub const PERIOD: u8 = 46;

/// Value of the two digits of `s` at `i` and `i + 1`.
pub open spec fn two_digits(s: Seq<u8>, i: int) -> int {
    10 * (s[i] - 48) + (s[i + 1] - 48)
}

/// The fixed 19-byte head `YYYY-MM-DDThh:mm:ss`, with field ranges.
pub open spec fn valid_head(s: Seq<u8>) -> bool {
    &&& s.len() >= 19
    &&& is_digit(s[0])
    &&& is_digit(s[1])
    &&& is_digit(s[2])
    &&& is_digit(s[3])
    &&& s[4] == HYPHEN
    &&& is_digit(s[5])
    &&& is_digit(s[6])
    &&& s[7] == HYPHEN
    &&& is_digit(s[8])
    &&& is_digit(s[9])
    &&& s[10] == UPPER_T
    &&& is_digit(s[11])
    &&& is_digit(s[12])
    &&& s[13] == COLON
    &&& is_digit(s[14])
    &&& is_digit(s[15])
    &&& s[16] == COLON
    &&& is_digit(s[17])
    &&& is_digit(s[18])
    &&& 1 <= two_digits(s, 5) <= 12
    &&& 1 <= two_digits(s, 8) <= 31
    &&& two_digits(s, 11) <= 23
    &&& two_digits(s, 14) <= 59
    &&& two_digits(s, 17) <= 59
}

/// Index of the first non-digit byte, or the length when all are digits.
pub open spec fn first_nondigit(t: Seq<u8>) -> nat
    decreases t.len(),
{
    if t.len() == 0 {
        0
    } else if !is_digit(t[0]) {
        0
    } else {
        1 + first_nondigit(t.drop_first())
    }
}

pub proof fn lemma_first_nondigit(t: Seq<u8>)
    ensures
        first_nondigit(t) <= t.len(),
        first_nondigit(t) < t.len() ==> !is_digit(t[first_nondigit(t) as int]),
        forall|j: int| 0 <= j < first_nondigit(t) ==> is_digit(t[j]),
    decreases t.len(),
{
    if t.len() == 0 {
    } else if !is_digit(t[0]) {
    } else {
        let rest = t.drop_first();
        lemma_first_nondigit(rest);
        assert forall|j: int| 0 <= j < first_nondigit(t) implies is_digit(t[j]) by {
            if j > 0 {
                assert(rest[j - 1] == t[j]);
            }
        }
        if first_nondigit(t) < t.len() {
            assert(!is_digit(rest[first_nondigit(rest) as int]));
            assert(t[first_nondigit(t) as int] == rest[first_nondigit(t) - 1]);
        }
    }
}

pub proof fn lemma_first_nondigit_is(t: Seq<u8>, i: int)
    requires
        0 <= i <= t.len(),
        i < t.len() ==> !is_digit(t[i]),
        forall|j: int| 0 <= j < i ==> is_digit(t[j]),
    ensures
        first_nondigit(t) == i,
{
    lemma_first_nondigit(t);
    let f = first_nondigit(t) as int;
    if f < i {
        assert(is_digit(t[f]));
    }
    if i < f {
        assert(is_digit(t[i]));
    }
}

/// A numeric offset `+hh:mm` / `-hh:mm`, or `Z`.
pub open spec fn valid_offset(s: Seq<u8>) -> bool {
    ||| (s.len() == 1 && s[0] == UPPER_Z)
    ||| {
        &&& s.len() == 6
        &&& (s[0] == PLUS || s[0] == HYPHEN)
        &&& is_digit(s[1])
        &&& is_digit(s[2])
        &&& s[3] == COLON
        &&& is_digit(s[4])
        &&& is_digit(s[5])
        &&& two_digits(s, 1) <= 23
        &&& two_digits(s, 4) <= 59
    }
}

/// What follows the head: an optional `.digits` fraction, then the offset.
pub open spec fn valid_tail(s: Seq<u8>) -> bool {
    if s.len() > 0 && s[0] == PERIOD {
        let u = s.drop_first();
        let f = first_nondigit(u);
        f >= 1 && valid_offset(u.skip(f as int))
    } else {
        valid_offset(s)
    }
}

/// A well-formed timestamp.
pub open spec fn valid_ts(s: Seq<u8>) -> bool {
    valid_head(s) && valid_tail(s.skip(19))
}

/// No byte of a well-formed timestamp is a newline or a comma.
pub proof fn lemma_ts_no_separator(s: Seq<u8>)
    requires
        valid_ts(s),
    ensures
        forall|i: int| 0 <= i < s.len() ==> s[i] != NL && s[i] != COMMA,
{
    let tail = s.skip(19);
    assert forall|i: int| 0 <= i < s.len() implies s[i] != NL && s[i] != COMMA by {
        if i < 19 {
            // each head position is a digit or a fixed punctuation byte
        } else {
            let j = i - 19;
            assert(tail[j] == s[i]);
            if tail.len() > 0 && tail[0] == PERIOD {
                let u = tail.drop_first();
                let f = first_nondigit(u) as int;
                lemma_first_nondigit(u);
                let o = u.skip(f);
                if j == 0 {
                } else {
                    let k = j - 1;
                    assert(u[k] == tail[j]);
                    if k < f {
                        assert(is_digit(u[k]));
                    } else {
                        assert(o[k - f] == u[k]);
                        assert(valid_offset(o));
                    }
                }
            } else {
                assert(valid_offset(tail));
            }
        }
    }
}

/// Checks that `s` is a well-formed offset.
fn check_offset(s: &[u8]) -> (r: bool)
    ensures
        r == valid_offset(s@),
{
    if s.len() == 1 {
        return s[0] == UPPER_Z;
    }
    if s.len() != 6 {
        return false;
    }
    if !(s[0] == PLUS || s[0] == HYPHEN) {
        return false;
    }
    if s[1] < 48 || s[1] > 57 || s[2] < 48 || s[2] > 57 {
        return false;
    }
    if s[3] != COLON {
        return false;
    }
    if s[4] < 48 || s[4] > 57 || s[5] < 48 || s[5] > 57 {
        return false;
    }
    let hh: u32 = 10 * (s[1] - 48) as u32 + (s[2] - 48) as u32;
    let mm: u32 = 10 * (s[4] - 48) as u32 + (s[5] - 48) as u32;
    hh <= 23 && mm <= 59
}

/// Checks that `s` is a well-formed timestamp.
pub fn check_ts(s: &[u8]) -> (r: bool)
    ensures
        r == valid_ts(s@),
{
    if s.len() < 19 {
        return false;
    }
    let mut i: usize = 0;
    // digit positions of the head
    while i < 19
        invariant
            i <= 19,
            s@.len() >= 19,
            forall|j: int|
                0 <= j < i && j != 4 && j != 7 && j != 10 && j != 13 && j != 16 ==> is_digit(s@[j]),
        decreases 19 - i,
    {
        if i != 4 && i != 7 && i != 10 && i != 13 && i != 16 {
            if s[i] < 48 || s[i] > 57 {
                return false;
            }
        }
        i = i + 1;
    }
    if s[4] != HYPHEN || s[7] != HYPHEN || s[10] != UPPER_T || s[13] != COLON || s[16] != COLON {
        return false;
    }
    let month: u32 = 10 * (s[5] - 48) as u32 + (s[6] - 48) as u32;
    let day: u32 = 10 * (s[8] - 48) as u32 + (s[9] - 48) as u32;
    let hour: u32 = 10 * (s[11] - 48) as u32 + (s[12] - 48) as u32;
    let minute: u32 = 10 * (s[14] - 48) as u32 + (s[15] - 48) as u32;
    let second: u32 = 10 * (s[17] - 48) as u32 + (s[18] - 48) as u32;
    if !(1 <= month && month <= 12 && 1 <= day && day <= 31 && hour <= 23 && minute <= 59 && second
        <= 59) {
        return false;
    }
    let ghost tail = s@.skip(19);
    if s.len() > 19 && s[19] == PERIOD {
        let ghost u = tail.drop_first();
        let mut k: usize = 20;
        while k < s.len() && s[k] >= 48 && s[k] <= 57
            invariant
                20 <= k <= s@.len(),
                s@.len() >= 20,
                forall|j: int| 20 <= j < k ==> is_digit(s@[j]),
            decreases s@.len() - k,
        {
            k = k + 1;
        }
        proof {
            assert(u =~= s@.skip(20));
            assert forall|j: int| 0 <= j < k - 20 implies is_digit(u[j]) by {
                assert(u[j] == s@[20 + j]);
            }
            if k < s@.len() {
                assert(u[k - 20] == s@[k as int]);
            }
            lemma_first_nondigit_is(u, k - 20);
        }
        if k == 20 {
            // no fraction digit after the period
            return false;
        }
        let off = vstd::slice::slice_subrange(s, k, s.len());
        proof {
            assert(off@ =~= u.skip(k - 20));
            assert(tail[0] == s@[19]);
        }
        check_offset(off)
    } else {
        let off = vstd::slice::slice_subrange(s, 19, s.len());
        proof {
            assert(off@ =~= tail);
            if tail.len() > 0 {
                assert(tail[0] == s@[19]);
            }
        }
        check_offset(off)
    }
}

} // verus!
