//! Decimal text of 32-bit integers: writing it, and reading a leading number.

use vstd::prelude::*;
use vstd::arithmetic::div_mod::{
    lemma_add_mod_noop,
    lemma_fundamental_div_mod,
    lemma_fundamental_div_mod_converse,
    lemma_mul_mod_noop_right,
};
use vstd::string::StringExecFns;
use crate::param::{ltrim, ltrim_start};

verus! {

/// The decimal digits of `n`, most significant first, without leading zeros.
pub open spec fn digits(n: nat) -> Seq<u8>
    decreases n,
{
    if n < 10 {
        seq![(48 + n) as u8]
    } else {
        digits(n / 10).push((48 + n % 10) as u8)
    }
}

/// The decimal text of `n`: a minus sign where it is negative, then its digits.
pub open spec fn decimal(n: int) -> Seq<u8> {
    if n < 0 {
        seq![45u8] + digits((-n) as nat)
    } else {
        digits(n as nat)
    }
}

/// Writes `v` in decimal, with a minus sign where it is negative.
pub fn format_decimal(v: i32) -> (r: Vec<u8>)
    ensures
        r@ == decimal(v as int),
{
    let mut x: u32 = if v < 0 {
        (-(v as i64)) as u32
    } else {
        v as u32
    };
    let ghost magnitude = x as nat;
    let mut tail: Vec<u8> = Vec::new();
    while x >= 10
        invariant
            digits(magnitude) == digits(x as nat) + tail@,
        decreases x,
    {
        let d: u8 = (x % 10) as u8 + 48;
        let ghost before = tail@;
        tail.insert(0, d);
        assert(digits(x as nat) + before == digits((x / 10) as nat) + tail@) by {
            assert(digits(x as nat) == digits((x / 10) as nat).push(d));
            assert(digits((x / 10) as nat).push(d) + before =~= digits((x / 10) as nat) + tail@);
        }
        x = x / 10;
    }
    let mut out: Vec<u8> = Vec::new();
    if v < 0 {
        out.push(45);
    }
    out.push(x as u8 + 48);
    let ghost low = tail@;
    out.append(&mut tail);
    assert(out@ == decimal(v as int)) by {
        assert(digits(x as nat) == seq![(x + 48) as u8]);
        if v < 0 {
            assert(out@ =~= seq![45u8] + (digits(x as nat) + low));
        } else {
            assert(out@ =~= digits(x as nat) + low);
        }
    }
    out
}

/// The decimal digits `0` to `9`.
pub open spec fn is_digit(b: u8) -> bool {
    48 <= b && b <= 57
}

/// The number that the digits at the start of `s` spell behind the digits
/// already read, whose value is `acc`. Reading stops at the first other byte.
pub open spec fn leading_number(s: Seq<u8>, acc: int) -> int
    decreases s.len(),
{
    if s.len() > 0 && is_digit(s.first()) {
        leading_number(s.drop_first(), acc * 10 + (s.first() - 48))
    } else {
        acc
    }
}

/// The 32-bit signed integer that is `x` modulo 2^32.
pub open spec fn wrap32(x: int) -> int {
    let m = x % 0x1_0000_0000;
    if m >= 0x8000_0000 {
        m - 0x1_0000_0000
    } else {
        m
    }
}

/// The number at the start of `s`: leading whitespace is passed over, one
/// sign is taken, and the digits that follow are read up to the first other
/// byte. Without a digit the number is 0. A number outside the 32-bit range
/// wraps round.
pub open spec fn parse_int(s: Seq<u8>) -> int {
    let t = ltrim(s);
    if t.len() > 0 && t.first() == 45 {
        wrap32(-leading_number(t.drop_first(), 0))
    } else if t.len() > 0 && t.first() == 43 {
        wrap32(leading_number(t.drop_first(), 0))
    } else {
        wrap32(leading_number(t, 0))
    }
}

proof fn lemma_step_mod(total: int, d: int)
    ensures
        (10 * (total % 0x1_0000_0000) + d) % 0x1_0000_0000 == (10 * total + d) % 0x1_0000_0000,
{
    let m = 0x1_0000_0000int;
    lemma_mul_mod_noop_right(10, total, m);
    lemma_add_mod_noop(10 * (total % m), d, m);
    lemma_add_mod_noop(10 * total, d, m);
}

proof fn lemma_negate_mod(total: int)
    ensures
        (-total) % 0x1_0000_0000 == if total % 0x1_0000_0000 == 0 {
            0
        } else {
            0x1_0000_0000 - total % 0x1_0000_0000
        },
{
    let m = 0x1_0000_0000int;
    let q = total / m;
    let r = total % m;
    lemma_fundamental_div_mod(total, m);
    assert(total == m * q + r);
    if r == 0 {
        assert(-total == (-q) * m + 0);
        lemma_fundamental_div_mod_converse(-total, m, -q, 0);
    } else {
        assert(-total == (-q - 1) * m + (m - r));
        lemma_fundamental_div_mod_converse(-total, m, -q - 1, m - r);
    }
}

/// Reads the number at the start of `s`.
pub fn parse_decimal(s: &[u8]) -> (r: i32)
    ensures
        r == parse_int(s@),
{
    let n: usize = s.len();
    let start: usize = ltrim_start(s, 0, n);
    assert(s@.subrange(0, n as int) == s@);
    let ghost t = s@.subrange(start as int, n as int);
    let mut i: usize = start;
    let mut negative: bool = false;
    if i < n && s[i] == 45 {
        negative = true;
        i += 1;
    } else if i < n && s[i] == 43 {
        i += 1;
    }
    let ghost body = s@.subrange(i as int, n as int);
    assert(i > start ==> body == t.drop_first());
    let mut acc: u64 = 0;
    let ghost mut total: int = 0;
    while i < n && 48 <= s[i] && s[i] <= 57
        invariant
            i <= n,
            n == s@.len(),
            acc < 0x1_0000_0000,
            acc as int == total % 0x1_0000_0000,
            leading_number(s@.subrange(i as int, n as int), total) == leading_number(body, 0),
        decreases n - i,
    {
        let d: u64 = (s[i] - 48) as u64;
        proof {
            lemma_step_mod(total, d as int);
            assert(s@.subrange(i as int, n as int).drop_first() == s@.subrange(i + 1, n as int));
            total = total * 10 + d;
        }
        acc = (acc * 10 + d) % 0x1_0000_0000;
        i += 1;
    }
    assert(leading_number(body, 0) == total);
    let m: u64 = if negative {
        proof {
            lemma_negate_mod(total);
        }
        if acc == 0 {
            0
        } else {
            0x1_0000_0000 - acc
        }
    } else {
        acc
    };
    if m >= 0x8000_0000 {
        (m as i64 - 0x1_0000_0000) as i32
    } else {
        m as i32
    }
}

/// One decimal digit as text.
pub open spec fn digit_char(d: nat) -> Seq<char> {
    if d == 0 {
        "0"@
    } else if d == 1 {
        "1"@
    } else if d == 2 {
        "2"@
    } else if d == 3 {
        "3"@
    } else if d == 4 {
        "4"@
    } else if d == 5 {
        "5"@
    } else if d == 6 {
        "6"@
    } else if d == 7 {
        "7"@
    } else if d == 8 {
        "8"@
    } else {
        "9"@
    }
}

/// The decimal digits of `n` as text, without leading zeros.
pub open spec fn digit_chars(n: nat) -> Seq<char>
    decreases n,
{
    if n < 10 {
        digit_char(n)
    } else {
        digit_chars(n / 10) + digit_char(n % 10)
    }
}

/// The decimal text of `n` as characters.
pub open spec fn decimal_chars(n: int) -> Seq<char> {
    if n < 0 {
        "-"@ + digit_chars((-n) as nat)
    } else {
        digit_chars(n as nat)
    }
}

fn digit_str(d: u32) -> (r: &'static str)
    requires
        d < 10,
    ensures
        r@ == digit_char(d as nat),
{
    if d == 0 {
        "0"
    } else if d == 1 {
        "1"
    } else if d == 2 {
        "2"
    } else if d == 3 {
        "3"
    } else if d == 4 {
        "4"
    } else if d == 5 {
        "5"
    } else if d == 6 {
        "6"
    } else if d == 7 {
        "7"
    } else if d == 8 {
        "8"
    } else {
        "9"
    }
}

/// Writes `v` in decimal as a string.
pub fn decimal_text(v: i32) -> (r: String)
    ensures
        r@ == decimal_chars(v as int),
{
    let mut x: u32 = if v < 0 {
        (-(v as i64)) as u32
    } else {
        v as u32
    };
    let ghost magnitude = x as nat;
    let mut tail: String = String::new();
    while x >= 10
        invariant
            digit_chars(magnitude) == digit_chars(x as nat) + tail@,
        decreases x,
    {
        let ghost before = tail@;
        let mut next: String = String::from_str(digit_str(x % 10));
        next.append(tail.as_str());
        tail = next;
        assert(digit_chars(x as nat) + before == digit_chars((x / 10) as nat) + tail@) by {
            assert((digit_chars((x / 10) as nat) + digit_char((x % 10) as nat)) + before
                =~= digit_chars((x / 10) as nat) + tail@);
        }
        x = x / 10;
    }
    let mut out: String = String::new();
    if v < 0 {
        out.append("-");
    }
    out.append(digit_str(x));
    out.append(tail.as_str());
    assert(out@ == decimal_chars(v as int)) by {
        if v < 0 {
            assert(out@ =~= "-"@ + (digit_chars(x as nat) + tail@));
        } else {
            assert(out@ =~= digit_chars(x as nat) + tail@);
        }
    }
    out
}

/// One hexadecimal digit as text, in lower case.
pub open spec fn hex_digit_char(d: nat) -> Seq<char> {
    if d < 10 {
        digit_char(d)
    } else if d == 10 {
        "a"@
    } else if d == 11 {
        "b"@
    } else if d == 12 {
        "c"@
    } else if d == 13 {
        "d"@
    } else if d == 14 {
        "e"@
    } else {
        "f"@
    }
}

/// The hexadecimal digits of `n` as text, without leading zeros.
pub open spec fn hex_chars(n: nat) -> Seq<char>
    decreases n,
{
    if n < 16 {
        hex_digit_char(n)
    } else {
        hex_chars(n / 16) + hex_digit_char(n % 16)
    }
}

/// A 32-bit number in hexadecimal behind `0x`; a negative number by its
/// two's complement.
pub open spec fn lower_hex(n: int) -> Seq<char> {
    if n < 0 {
        "0x"@ + hex_chars((n + 0x1_0000_0000) as nat)
    } else {
        "0x"@ + hex_chars(n as nat)
    }
}

fn hex_digit_str(d: u32) -> (r: &'static str)
    requires
        d < 16,
    ensures
        r@ == hex_digit_char(d as nat),
{
    if d < 10 {
        digit_str(d)
    } else if d == 10 {
        "a"
    } else if d == 11 {
        "b"
    } else if d == 12 {
        "c"
    } else if d == 13 {
        "d"
    } else if d == 14 {
        "e"
    } else {
        "f"
    }
}

/// Writes `v` in hexadecimal behind `0x`.
pub fn hex_text(v: i32) -> (r: String)
    ensures
        r@ == lower_hex(v as int),
{
    let mut x: u32 = if v < 0 {
        (v as i64 + 0x1_0000_0000) as u32
    } else {
        v as u32
    };
    let ghost magnitude = x as nat;
    let mut tail: String = String::new();
    while x >= 16
        invariant
            hex_chars(magnitude) == hex_chars(x as nat) + tail@,
        decreases x,
    {
        let ghost before = tail@;
        let mut next: String = String::from_str(hex_digit_str(x % 16));
        next.append(tail.as_str());
        tail = next;
        assert(hex_chars(x as nat) + before == hex_chars((x / 16) as nat) + tail@) by {
            assert((hex_chars((x / 16) as nat) + hex_digit_char((x % 16) as nat)) + before
                =~= hex_chars((x / 16) as nat) + tail@);
        }
        x = x / 16;
    }
    let mut out: String = String::from_str("0x");
    out.append(hex_digit_str(x));
    out.append(tail.as_str());
    assert(out@ =~= "0x"@ + (hex_chars(x as nat) + tail@));
    out
}

} // verus!
