//! The dotted-quad IPv4 address grammar: four decimal octets, each 0 to 255
//! without leading zeros, separated by dots.

use vstd::prelude::*;
use crate::text::{first_byte, find_byte, lemma_first_byte, lemma_first_byte_is, NL, COMMA};

verus! {

/// The dot separator.
pub const DOT: u8 = 46;

pub open spec fn is_digit(b: u8) -> bool {
    48 <= b && b <= 57
}

/// Decimal value of a digit string (most significant digit first).
pub open spec fn dec_val(s: Seq<u8>) -> int
    decreases s.len(),
{
    if s.len() == 0 {
        0
    } else {
        dec_val(s.drop_last()) * 10 + (s.last() - 48)
    }
}

/// A well-formed octet: one to three digits, no leading zero, value at most
/// 255.
pub open spec fn valid_octet(s: Seq<u8>) -> bool {
    &&& 1 <= s.len() <= 3
    &&& forall|i: int| 0 <= i < s.len() ==> is_digit(s[i])
    &&& (s.len() > 1 ==> s[0] != 48)
    &&& dec_val(s) <= 255
}

/// A well-formed dotted-quad address: four octets separated by dots.
pub open spec fn valid_ipv4(s: Seq<u8>) -> bool {
    let a = first_byte(s, DOT);
    let r1 = s.skip(a as int + 1);
    let b = first_byte(r1, DOT);
    let r2 = r1.skip(b as int + 1);
    let c = first_byte(r2, DOT);
    let r3 = r2.skip(c as int + 1);
    &&& a < s.len()
    &&& b < r1.len()
    &&& c < r2.len()
    &&& first_byte(r3, DOT) >= r3.len()
    &&& valid_octet(s.take(a as int))
    &&& valid_octet(r1.take(b as int))
    &&& valid_octet(r2.take(c as int))
    &&& valid_octet(r3)
}

/// Every byte of a well-formed address is a digit or a dot; in particular no
/// newline and no comma occurs.
pub proof fn lemma_ipv4_no_separator(s: Seq<u8>)
    requires
        valid_ipv4(s),
    ensures
        forall|i: int| 0 <= i < s.len() ==> s[i] != NL && s[i] != COMMA,
{
    let a = first_byte(s, DOT) as int;
    let r1 = s.skip(a + 1);
    let b = first_byte(r1, DOT) as int;
    let r2 = r1.skip(b + 1);
    let c = first_byte(r2, DOT) as int;
    let r3 = r2.skip(c + 1);
    lemma_first_byte(s, DOT);
    lemma_first_byte(r1, DOT);
    lemma_first_byte(r2, DOT);
    assert forall|i: int| 0 <= i < s.len() implies s[i] != NL && s[i] != COMMA by {
        if i < a {
            assert(s.take(a)[i] == s[i]);
            assert(is_digit(s[i]));
        } else if i == a {
            assert(s[i] == DOT);
        } else {
            let j = i - (a + 1);
            assert(r1[j] == s[i]);
            if j < b {
                assert(r1.take(b)[j] == r1[j]);
                assert(is_digit(r1[j]));
            } else if j == b {
                assert(r1[j] == DOT);
            } else {
                let k = j - (b + 1);
                assert(r2[k] == r1[j]);
                if k < c {
                    assert(r2.take(c)[k] == r2[k]);
                    assert(is_digit(r2[k]));
                } else if k == c {
                    assert(r2[k] == DOT);
                } else {
                    let l = k - (c + 1);
                    assert(r3[l] == r2[k]);
                    assert(is_digit(r3[l]));
                }
            }
        }
    }
}

/// Checks that `s` is a well-formed octet.
pub fn check_octet(s: &[u8]) -> (r: bool)
    ensures
        r == valid_octet(s@),
{
    if s.len() < 1 || s.len() > 3 {
        return false;
    }
    let mut i: usize = 0;
    while i < s.len()
        invariant
            i <= s@.len(),
            forall|j: int| 0 <= j < i ==> is_digit(s@[j]),
        decreases s@.len() - i,
    {
        if s[i] < 48 || s[i] > 57 {
            return false;
        }
        i = i + 1;
    }
    if s.len() > 1 && s[0] == 48 {
        return false;
    }
    let v: u32 = if s.len() == 1 {
        (s[0] - 48) as u32
    } else if s.len() == 2 {
        (s[0] - 48) as u32 * 10 + (s[1] - 48) as u32
    } else {
        (s[0] - 48) as u32 * 100 + (s[1] - 48) as u32 * 10 + (s[2] - 48) as u32
    };
    proof {
        reveal_with_fuel(dec_val, 4);
        if s@.len() == 1 {
            assert(s@.drop_last().len() == 0);
            assert(dec_val(s@) == s@[0] - 48);
        } else if s@.len() == 2 {
            let d = s@.drop_last();
            assert(d.len() == 1);
            assert(d.drop_last().len() == 0);
            assert(d[0] == s@[0]);
            assert(dec_val(s@) == (s@[0] - 48) * 10 + (s@[1] - 48));
        } else {
            let d = s@.drop_last();
            let dd = d.drop_last();
            assert(d.len() == 2);
            assert(dd.len() == 1);
            assert(dd.drop_last().len() == 0);
            assert(dd[0] == s@[0]);
            assert(d[0] == s@[0]);
            assert(d[1] == s@[1]);
            assert(dec_val(s@) == ((s@[0] - 48) * 10 + (s@[1] - 48)) * 10 + (s@[2] - 48));
        }
    }
    v <= 255
}

/// Checks that `s` is a well-formed dotted-quad address.
pub fn check_ipv4(s: &[u8]) -> (r: bool)
    ensures
        r == valid_ipv4(s@),
{
    let d1 = find_byte(s, 0, DOT);
    proof {
        lemma_first_byte_is(s@, DOT, d1 as int);
    }
    if d1 == s.len() {
        return false;
    }
    let ghost r1 = s@.skip(d1 as int + 1);
    let d2 = find_byte(s, d1 + 1, DOT);
    proof {
        assert forall|j: int| 0 <= j < d2 - (d1 + 1) implies r1[j] != DOT by {
            assert(r1[j] == s@[d1 + 1 + j]);
        }
        if d2 < s@.len() {
            assert(r1[d2 - (d1 + 1)] == s@[d2 as int]);
        }
        lemma_first_byte_is(r1, DOT, d2 - (d1 + 1));
    }
    if d2 == s.len() {
        return false;
    }
    let ghost r2 = r1.skip(d2 - (d1 + 1) + 1);
    let d3 = find_byte(s, d2 + 1, DOT);
    proof {
        assert(r2 =~= s@.skip(d2 as int + 1));
        assert forall|j: int| 0 <= j < d3 - (d2 + 1) implies r2[j] != DOT by {
            assert(r2[j] == s@[d2 + 1 + j]);
        }
        if d3 < s@.len() {
            assert(r2[d3 - (d2 + 1)] == s@[d3 as int]);
        }
        lemma_first_byte_is(r2, DOT, d3 - (d2 + 1));
    }
    if d3 == s.len() {
        return false;
    }
    let ghost r3 = r2.skip(d3 - (d2 + 1) + 1);
    let d4 = find_byte(s, d3 + 1, DOT);
    proof {
        assert(r3 =~= s@.skip(d3 as int + 1));
        assert forall|j: int| 0 <= j < d4 - (d3 + 1) implies r3[j] != DOT by {
            assert(r3[j] == s@[d3 + 1 + j]);
        }
        if d4 < s@.len() {
            assert(r3[d4 - (d3 + 1)] == s@[d4 as int]);
        }
        lemma_first_byte_is(r3, DOT, d4 - (d3 + 1));
    }
    if d4 != s.len() {
        return false;
    }
    let o1 = vstd::slice::slice_subrange(s, 0, d1);
    let o2 = vstd::slice::slice_subrange(s, d1 + 1, d2);
    let o3 = vstd::slice::slice_subrange(s, d2 + 1, d3);
    let o4 = vstd::slice::slice_subrange(s, d3 + 1, s.len());
    proof {
        assert(o1@ =~= s@.take(d1 as int));
        assert(o2@ =~= r1.take(d2 - (d1 + 1)));
        assert(o3@ =~= r2.take(d3 - (d2 + 1)));
        assert(o4@ =~= r3);
    }
    check_octet(o1) && check_octet(o2) && check_octet(o3) && check_octet(o4)
}

/// Rendering of one octet value as decimal digits without leading zeros.
pub open spec fn fmt_octet(n: u8) -> Seq<u8> {
    if n < 10 {
        seq![(48 + n) as u8]
    } else if n < 100 {
        seq![(48 + n / 10) as u8, (48 + n % 10) as u8]
    } else {
        seq![(48 + n / 100) as u8, (48 + (n / 10) % 10) as u8, (48 + n % 10) as u8]
    }
}

/// Rendering of the four octets of an address, dotted.
pub open spec fn fmt_ipv4(o1: u8, o2: u8, o3: u8, o4: u8) -> Seq<u8> {
    fmt_octet(o1) + seq![DOT] + fmt_octet(o2) + seq![DOT] + fmt_octet(o3) + seq![DOT] + fmt_octet(
        o4,
    )
}

pub proof fn lemma_fmt_octet_valid(n: u8)
    ensures
        valid_octet(fmt_octet(n)),
        dec_val(fmt_octet(n)) == n,
        forall|i: int| 0 <= i < fmt_octet(n).len() ==> is_digit(fmt_octet(n)[i]),
{
    let s = fmt_octet(n);
    reveal_with_fuel(dec_val, 4);
    if n < 10 {
        assert(s.drop_last().len() == 0);
        assert(dec_val(s) == n);
    } else if n < 100 {
        let d = s.drop_last();
        assert(d.len() == 1);
        assert(d.drop_last().len() == 0);
        assert(d[0] == 48 + n / 10);
        assert(dec_val(d) == n / 10);
        assert(dec_val(s) == (n / 10) * 10 + n % 10);
        assert(n / 10 >= 1);
        assert(s[0] != 48);
    } else {
        let d = s.drop_last();
        let dd = d.drop_last();
        assert(d.len() == 2);
        assert(dd.len() == 1);
        assert(dd.drop_last().len() == 0);
        assert(dd[0] == 48 + n / 100);
        assert(d[0] == 48 + n / 100);
        assert(d[1] == 48 + (n / 10) % 10);
        assert(dec_val(dd) == n / 100);
        assert(dec_val(d) == (n / 100) * 10 + (n / 10) % 10);
        assert(dec_val(d) == n / 10) by {
            assert((n / 100) * 10 + (n / 10) % 10 == n / 10) by (nonlinear_arith)
                requires
                    n >= 100,
                    n <= 255,
            ;
        }
        assert(dec_val(s) == (n / 10) * 10 + n % 10);
        assert(n / 100 >= 1);
        assert(s[0] != 48);
    }
    assert((n / 10) * 10 + n % 10 == n) by (nonlinear_arith);
}

/// A rendered address is well-formed.
#[verifier::rlimit(100)]
pub proof fn lemma_fmt_ipv4_valid(o1: u8, o2: u8, o3: u8, o4: u8)
    ensures
        valid_ipv4(fmt_ipv4(o1, o2, o3, o4)),
{
    let s = fmt_ipv4(o1, o2, o3, o4);
    let f1 = fmt_octet(o1);
    let f2 = fmt_octet(o2);
    let f3 = fmt_octet(o3);
    let f4 = fmt_octet(o4);
    lemma_fmt_octet_valid(o1);
    lemma_fmt_octet_valid(o2);
    lemma_fmt_octet_valid(o3);
    lemma_fmt_octet_valid(o4);
    let a = f1.len() as int;
    assert forall|j: int| 0 <= j < a implies s[j] != DOT by {
        assert(s[j] == f1[j]);
        assert(is_digit(f1[j]));
    }
    assert(s[a] == DOT);
    lemma_first_byte_is(s, DOT, a);
    let r1 = s.skip(a + 1);
    assert(r1 =~= f2 + seq![DOT] + f3 + seq![DOT] + f4);
    let b = f2.len() as int;
    assert forall|j: int| 0 <= j < b implies r1[j] != DOT by {
        assert(r1[j] == f2[j]);
        assert(is_digit(f2[j]));
    }
    assert(r1[b] == DOT);
    lemma_first_byte_is(r1, DOT, b);
    let r2 = r1.skip(b + 1);
    assert(r2 =~= f3 + seq![DOT] + f4);
    let c = f3.len() as int;
    assert forall|j: int| 0 <= j < c implies r2[j] != DOT by {
        assert(r2[j] == f3[j]);
        assert(is_digit(f3[j]));
    }
    assert(r2[c] == DOT);
    lemma_first_byte_is(r2, DOT, c);
    let r3 = r2.skip(c + 1);
    assert(r3 =~= f4);
    assert forall|j: int| 0 <= j < r3.len() implies r3[j] != DOT by {
        assert(is_digit(f4[j]));
    }
    lemma_first_byte_is(r3, DOT, r3.len() as int);
    assert(s.take(a) =~= f1);
    assert(r1.take(b) =~= f2);
    assert(r2.take(c) =~= f3);
}

/// Renders one octet as decimal digits.
pub fn format_octet(n: u8) -> (r: Vec<u8>)
    ensures
        r@ == fmt_octet(n),
{
    let mut out: Vec<u8> = Vec::new();
    if n < 10 {
        out.push(48 + n);
    } else if n < 100 {
        out.push(48 + n / 10);
        out.push(48 + n % 10);
    } else {
        out.push(48 + n / 100);
        out.push(48 + (n / 10) % 10);
        out.push(48 + n % 10);
    }
    proof {
        assert(out@ =~= fmt_octet(n));
    }
    out
}

/// Renders the four octets of an address as a dotted quad; the result is
/// always a well-formed address.
pub fn format_ipv4(o1: u8, o2: u8, o3: u8, o4: u8) -> (r: Vec<u8>)
    ensures
        r@ == fmt_ipv4(o1, o2, o3, o4),
        valid_ipv4(r@),
{
    let mut out = format_octet(o1);
    out.push(DOT);
    let mut p2 = format_octet(o2);
    out.append(&mut p2);
    out.push(DOT);
    let mut p3 = format_octet(o3);
    out.append(&mut p3);
    out.push(DOT);
    let mut p4 = format_octet(o4);
    out.append(&mut p4);
    proof {
        assert(out@ =~= fmt_ipv4(o1, o2, o3, o4));
        lemma_fmt_ipv4_valid(o1, o2, o3, o4);
    }
    out
}

} // verus!
