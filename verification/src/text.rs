//! Text building: decimal rendering, thousands separators, `h:mm:ss`, and the
//! conversions between `String`/`&str` and character vectors.
use vstd::prelude::*;

verus! {

/// Append one character to a `String`, by `String::push`. Trusted, not
/// proved: the contract claims that the characters of the string afterwards
/// are those before with `c` added at the end, as the std documentation says.
#[verifier::external_body]
fn push_char(s: &mut String, c: char)
    ensures
        final(s)@ == old(s)@.push(c),
{
    s.push(c);
}

/// A `String` holding exactly the characters `v`.
pub fn string_from_chars(v: &Vec<char>) -> (s: String)
    ensures
        s@ == v@,
{
    let mut s = String::new();
    let mut i: usize = 0;
    while i < v.len()
        invariant
            i <= v@.len(),
            s@ == v@.subrange(0, i as int),
        decreases v@.len() - i,
    {
        push_char(&mut s, v[i]);
        proof {
            assert(v@.subrange(0, i + 1) == v@.subrange(0, i as int).push(v@[i as int]));
        }
        i += 1;
    }
    assert(v@.subrange(0, v@.len() as int) == v@);
    s
}

/// The characters of `s`, in order.
pub fn str_chars(s: &str) -> (v: Vec<char>)
    ensures
        v@ == s@,
{
    let mut v: Vec<char> = Vec::new();
    broadcast use vstd::string::group_string_axioms;
    for c in it: s.chars()
        invariant
            v@ == it.seq().take(it.index()),
            it.seq() == s@,
    {
        v.push(c);
    }
    v
}

/// The decimal digit character for `d < 10`.
pub open spec fn digit_char(d: nat) -> char {
    ((48 + d) as u8) as char
}

/// Decimal rendering of `n`, no leading zeros.
pub open spec fn decimal(n: nat) -> Seq<char>
    decreases n,
{
    if n < 10 {
        seq![digit_char(n)]
    } else {
        decimal(n / 10).push(digit_char(n % 10))
    }
}

/// `n` rendered with at least two digits.
pub open spec fn pad2(n: nat) -> Seq<char> {
    if n < 10 { seq!['0'] + decimal(n) } else { decimal(n) }
}

/// `s` with a `,` before every character whose distance from the end is a
/// positive multiple of three (`s` from position `i` on).
pub open spec fn commas_from(s: Seq<char>, i: int) -> Seq<char>
    decreases s.len() - i,
{
    if i < 0 || i >= s.len() {
        Seq::empty()
    } else {
        (if i > 0 && (s.len() - i) % 3 == 0 { seq![','] } else { Seq::empty() }) + seq![s[i]]
            + commas_from(s, i + 1)
    }
}

pub fn digit(d: u64) -> (c: char)
    requires
        d < 10,
    ensures
        c == digit_char(d as nat),
{
    let b: u8 = 48 + d as u8;
    b as char
}

/// Append the decimal rendering of `n`.
pub fn push_decimal(out: &mut Vec<char>, n: u64)
    ensures
        final(out)@ == old(out)@ + decimal(n as nat),
    decreases n,
{
    if n >= 10 {
        push_decimal(out, n / 10);
    }
    let c = digit(n % 10);
    out.push(c);
    proof {
        if n >= 10 {
            assert(decimal(n as nat) == decimal((n / 10) as nat).push(digit_char((n % 10) as nat)));
        }
    }
}

/// Append the characters of `s`.
pub fn push_str(out: &mut Vec<char>, s: &str)
    ensures
        final(out)@ == old(out)@ + s@,
{
    let v = str_chars(s);
    let mut i: usize = 0;
    let ghost start = out@;
    while i < v.len()
        invariant
            i <= v@.len(),
            v@ == s@,
            out@ == start + v@.subrange(0, i as int),
        decreases v@.len() - i,
    {
        out.push(v[i]);
        proof {
            assert(v@.subrange(0, i + 1) == v@.subrange(0, i as int).push(v@[i as int]));
        }
        i += 1;
    }
    proof {
        assert(v@.subrange(0, v@.len() as int) == v@);
    }
}

/// The decimal rendering of `n` as a `String`.
pub fn decimal_string(n: u64) -> (s: String)
    ensures
        s@ == decimal(n as nat),
{
    let mut v: Vec<char> = Vec::new();
    push_decimal(&mut v, n);
    assert(v@ == Seq::<char>::empty() + decimal(n as nat));
    string_from_chars(&v)
}

/// Thousands separators.
pub fn commas(n: u64) -> (s: String)
    ensures
        s@ == commas_from(decimal(n as nat), 0),
{
    let mut digits: Vec<char> = Vec::new();
    push_decimal(&mut digits, n);
    let ghost d = decimal(n as nat);
    assert(digits@ == d) by {
        assert(digits@ == Seq::<char>::empty() + d);
    }
    let len = digits.len();
    let mut out: Vec<char> = Vec::new();
    let mut i: usize = 0;
    while i < len
        invariant
            len == digits@.len(),
            digits@ == d,
            i <= len,
            out@ + commas_from(d, i as int) == commas_from(d, 0),
        decreases len - i,
    {
        let ghost before = out@;
        if i > 0 && (len - i) % 3 == 0 {
            out.push(',');
        }
        out.push(digits[i]);
        proof {
            let sep: Seq<char> = if i > 0 && (len - i) % 3 == 0 { seq![','] } else { Seq::empty() };
            assert(commas_from(d, i as int) == sep + seq![d[i as int]] + commas_from(d, i + 1));
            assert(out@ == before + sep + seq![d[i as int]]);
            assert(out@ + commas_from(d, i + 1) == before + commas_from(d, i as int));
        }
        i += 1;
    }
    proof {
        assert(out@ + commas_from(d, len as int) == out@);
    }
    string_from_chars(&out)
}

/// Append `n` rendered with at least two digits.
fn push_pad2(out: &mut Vec<char>, n: u64)
    ensures
        final(out)@ == old(out)@ + pad2(n as nat),
{
    if n < 10 {
        out.push('0');
        let ghost mid = out@;
        push_decimal(out, n);
        assert(final(out)@ == old(out)@ + (seq!['0'] + decimal(n as nat)));
    } else {
        push_decimal(out, n);
    }
}

/// `2:14:07` style elapsed formatting of a number of seconds (hours are not
/// zero padded).
pub fn fmt_hms(total: u64) -> (s: String)
    ensures
        s@ == decimal((total / 3600) as nat) + seq![':'] + pad2(((total / 60) % 60) as nat) + seq![
            ':',
        ] + pad2((total % 60) as nat),
{
    let mut out: Vec<char> = Vec::new();
    push_decimal(&mut out, total / 3600);
    out.push(':');
    push_pad2(&mut out, (total / 60) % 60);
    out.push(':');
    push_pad2(&mut out, total % 60);
    string_from_chars(&out)
}


/// How many times a byte count is divided by 1024 for display: into KiB,
/// MiB, GiB or TiB, whichever leaves less than 1024 (TiB at most).
pub open spec fn unit_index(b: nat) -> nat {
    if b < 1024 {
        0
    } else if b < 0x10_0000 {
        1
    } else if b < 0x4000_0000 {
        2
    } else if b < 0x100_0000_0000 {
        3
    } else {
        4
    }
}

/// `1024` to the power `u`, for `u <= 4`.
pub open spec fn unit_size(u: nat) -> nat {
    if u == 0 {
        1
    } else if u == 1 {
        1024
    } else if u == 2 {
        0x10_0000
    } else if u == 3 {
        0x4000_0000
    } else {
        0x100_0000_0000
    }
}

pub open spec fn unit_name(u: nat) -> Seq<char> {
    if u == 1 {
        "KiB"@
    } else if u == 2 {
        "MiB"@
    } else if u == 3 {
        "GiB"@
    } else {
        "TiB"@
    }
}

/// `b / d` in tenths, rounded to nearest, ties to even.
pub open spec fn tenths(b: nat, d: nat) -> nat {
    let q = (b * 10) / d;
    let r = (b * 10) % d;
    if 2 * r > d || (2 * r == d && q % 2 == 1) { q + 1 } else { q }
}

/// A byte count for people: `512 B`, `1.5 KiB`, `8.0 GiB`.
pub open spec fn bytes_text(b: nat) -> Seq<char> {
    let u = unit_index(b);
    if u == 0 {
        decimal(b) + " B"@
    } else {
        let q = tenths(b, unit_size(u));
        decimal(q / 10) + "."@ + decimal(q % 10) + " "@ + unit_name(u)
    }
}

/// Append `bytes_text(b)`.
pub fn push_bytes(out: &mut Vec<char>, b: u64)
    ensures
        final(out)@ == old(out)@ + bytes_text(b as nat),
{
    if b < 1024 {
        push_decimal(out, b);
        push_str(out, " B");
        return;
    }
    let (d, name): (u64, &str) = if b < 0x10_0000 {
        (1024, "KiB")
    } else if b < 0x4000_0000 {
        (0x10_0000, "MiB")
    } else if b < 0x100_0000_0000 {
        (0x4000_0000, "GiB")
    } else {
        (0x100_0000_0000, "TiB")
    };
    let t: u128 = (b as u128) * 10;
    let d128: u128 = d as u128;
    let q0: u128 = t / d128;
    let r: u128 = t % d128;
    let q: u128 = if 2 * r > d128 || (2 * r == d128 && q0 % 2 == 1) { q0 + 1 } else { q0 };
    proof {
        assert(unit_size(unit_index(b as nat)) == d);
        assert(unit_name(unit_index(b as nat)) == name@);
        assert(q == tenths(b as nat, d as nat));
        assert(q0 <= t);
        assert(t <= 0xFFFF_FFFF_FFFF_FFFF * 10);
    }
    push_decimal(out, (q / 10) as u64);
    push_str(out, ".");
    push_decimal(out, (q % 10) as u64);
    push_str(out, " ");
    push_str(out, name);
}

} // verus!
