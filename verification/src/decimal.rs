//! Decimal rendering of machine integers, as bytes and as strings.

use vstd::prelude::*;

verus! {

/// The ASCII byte of the decimal digit `d`.
pub open spec fn digit_byte(d: int) -> u8
    recommends
        0 <= d < 10,
{
    (0x30 + d) as u8
}

/// The decimal digits of `n`, most significant first, as ASCII bytes.
pub open spec fn dec_u64_bytes(n: nat) -> Seq<u8>
    decreases n,
{
    if n < 10 {
        seq![digit_byte(n as int)]
    } else {
        dec_u64_bytes(n / 10).push(digit_byte((n % 10) as int))
    }
}

/// The decimal rendering of a signed value: a leading minus sign for
/// negative values, then the digits of the magnitude.
pub open spec fn dec_i64_bytes(n: int) -> Seq<u8> {
    if n < 0 {
        seq![0x2du8] + dec_u64_bytes((-n) as nat)
    } else {
        dec_u64_bytes(n as nat)
    }
}

pub fn u64_dec_bytes(n: u64) -> (r: Vec<u8>)
    ensures
        r@ == dec_u64_bytes(n as nat),
    decreases n,
{
    if n < 10 {
        let mut v: Vec<u8> = Vec::new();
        v.push(0x30 + (n as u8));
        assert(v@ =~= seq![digit_byte(n as int)]);
        v
    } else {
        let mut v = u64_dec_bytes(n / 10);
        v.push(0x30 + ((n % 10) as u8));
        v
    }
}

pub fn i64_dec_bytes(n: i64) -> (r: Vec<u8>)
    ensures
        r@ == dec_i64_bytes(n as int),
{
    if n >= 0 {
        u64_dec_bytes(n as u64)
    } else {
        let m: u64 = ((-(n as i128)) as u64);
        let mut v: Vec<u8> = Vec::new();
        v.push(0x2d);
        let mut digits = u64_dec_bytes(m);
        v.append(&mut digits);
        assert(v@ =~= seq![0x2du8] + dec_u64_bytes(m as nat));
        v
    }
}

/// The decimal digits of `n` as characters.
pub open spec fn dec_u64_chars(n: nat) -> Seq<char>
    decreases n,
{
    if n < 10 {
        seq![digit_byte(n as int) as char]
    } else {
        dec_u64_chars(n / 10).push(digit_byte((n % 10) as int) as char)
    }
}

pub open spec fn dec_i64_chars(n: int) -> Seq<char> {
    if n < 0 {
        seq!['-'] + dec_u64_chars((-n) as nat)
    } else {
        dec_u64_chars(n as nat)
    }
}

fn digit_str(d: u64) -> (r: &'static str)
    requires
        d < 10,
    ensures
        r@ == seq![digit_byte(d as int) as char],
{
    let r: &'static str = if d == 0 {
        "0"
    } else if d == 1 {
        "1"
    } else if d == 2 {
        "2"
    } else if d == 3 {
        "3"
    } else if d == 4 {
        "4"
    } else if d == 5 {
        "5"
    } else if d == 6 {
        "6"
    } else if d == 7 {
        "7"
    } else if d == 8 {
        "8"
    } else {
        "9"
    };
    proof {
        reveal_strlit("0");
        reveal_strlit("1");
        reveal_strlit("2");
        reveal_strlit("3");
        reveal_strlit("4");
        reveal_strlit("5");
        reveal_strlit("6");
        reveal_strlit("7");
        reveal_strlit("8");
        reveal_strlit("9");
        assert(r@ =~= seq![digit_byte(d as int) as char]);
    }
    r
}

pub fn u64_dec_string(n: u64) -> (r: String)
    ensures
        r@ == dec_u64_chars(n as nat),
    decreases n,
{
    if n < 10 {
        let mut s = String::new();
        s.append(digit_str(n));
        assert(s@ =~= seq![digit_byte(n as int) as char]);
        s
    } else {
        let mut s = u64_dec_string(n / 10);
        s.append(digit_str(n % 10));
        assert(s@ =~= dec_u64_chars((n / 10) as nat).push(
            digit_byte((n % 10) as int) as char,
        ));
        s
    }
}

pub fn i64_dec_string(n: i64) -> (r: String)
    ensures
        r@ == dec_i64_chars(n as int),
{
    if n >= 0 {
        u64_dec_string(n as u64)
    } else {
        let m: u64 = ((-(n as i128)) as u64);
        let mut s = String::new();
        s.append("-");
        let digits = u64_dec_string(m);
        s.append(digits.as_str());
        proof {
            reveal_strlit("-");
            assert(s@ =~= seq!['-'] + dec_u64_chars(m as nat));
        }
        s
    }
}

} // verus!
