//! Small helpers: duration and byte-size parsing, a deterministic PRNG
//! (splitmix64), and a bitset.
use vstd::prelude::*;
use crate::text::str_chars;
pub use crate::text::{commas, fmt_hms};

verus! {

// ---------------------------------------------------------------------------
// Parsing
// ---------------------------------------------------------------------------

/// Why a duration or byte size was refused.
#[derive(Clone, Copy, Debug, PartialEq, Eq)]
pub enum ParseError {
    /// Nothing but whitespace.
    Empty,
    /// No leading decimal digits.
    NoNumber,
    /// The digits do not fit a `u64`.
    NotInteger,
    /// The unit after the number is not one of the accepted spellings.
    UnknownUnit,
    /// The number times its unit does not fit a `u64`.
    Overflow,
}

/// Unicode `White_Space`, as `char::is_whitespace` defines it.
pub open spec fn is_ws(c: char) -> bool {
    let u = c as u32;
    (0x9 <= u <= 0xD) || u == 0x20 || u == 0x85 || u == 0xA0 || u == 0x1680 || (0x2000 <= u
        <= 0x200A) || u == 0x2028 || u == 0x2029 || u == 0x202F || u == 0x205F || u == 0x3000
}

/// `s` without leading whitespace.
pub open spec fn trim_start(s: Seq<char>) -> Seq<char>
    decreases s.len(),
{
    if s.len() > 0 && is_ws(s[0]) {
        trim_start(s.drop_first())
    } else {
        s
    }
}

/// `s` without trailing whitespace.
pub open spec fn trim_end(s: Seq<char>) -> Seq<char>
    decreases s.len(),
{
    if s.len() > 0 && is_ws(s.last()) {
        trim_end(s.drop_last())
    } else {
        s
    }
}

/// `s` without leading or trailing whitespace, as `str::trim`.
pub open spec fn trim(s: Seq<char>) -> Seq<char> {
    trim_end(trim_start(s))
}

pub open spec fn is_digit(c: char) -> bool {
    '0' <= c <= '9'
}

/// Number of leading ASCII digits of `s`.
pub open spec fn digit_prefix_len(s: Seq<char>) -> nat
    decreases s.len(),
{
    if s.len() > 0 && is_digit(s[0]) {
        1 + digit_prefix_len(s.drop_first())
    } else {
        0
    }
}

/// The value of a string of decimal digits.
pub open spec fn digits_value(s: Seq<char>) -> nat
    decreases s.len(),
{
    if s.len() == 0 {
        0
    } else {
        digits_value(s.drop_last()) * 10 + (s.last() as nat - 48) as nat
    }
}

/// `(number, unit)` split of a trimmed string: the leading digits, and the
/// rest with surrounding whitespace removed.
pub open spec fn split_spec(t: Seq<char>) -> (Seq<char>, Seq<char>) {
    let d = digit_prefix_len(t) as int;
    (t.subrange(0, d), trim(t.subrange(d, t.len() as int)))
}

/// The meaning of a duration string, in milliseconds: `30s`, `45m`, `12h`,
/// `7d`, `500ms`, or a bare integer (seconds).
pub open spec fn duration_spec(s: Seq<char>) -> Result<u128, ParseError> {
    let t = trim(s);
    let (num, unit) = split_spec(t);
    let v = digits_value(num);
    if t.len() == 0 {
        Err(ParseError::Empty)
    } else if num.len() == 0 {
        Err(ParseError::NoNumber)
    } else if v > u64::MAX {
        Err(ParseError::NotInteger)
    } else if unit == ""@ || unit == "s"@ || unit == "sec"@ || unit == "secs"@ {
        Ok((v * 1000) as u128)
    } else if unit == "ms"@ {
        Ok(v as u128)
    } else if unit == "m"@ || unit == "min"@ || unit == "mins"@ {
        if v * 60 > u64::MAX { Err(ParseError::Overflow) } else { Ok((v * 60000) as u128) }
    } else if unit == "h"@ || unit == "hr"@ || unit == "hrs"@ {
        if v * 3600 > u64::MAX { Err(ParseError::Overflow) } else { Ok((v * 3600000) as u128) }
    } else if unit == "d"@ || unit == "day"@ || unit == "days"@ {
        if v * 86400 > u64::MAX { Err(ParseError::Overflow) } else { Ok((v * 86400000) as u128) }
    } else {
        Err(ParseError::UnknownUnit)
    }
}

/// ASCII lower-casing, as `str::to_ascii_lowercase`.
pub open spec fn lower(s: Seq<char>) -> Seq<char> {
    s.map_values(|c: char| if 'A' <= c <= 'Z' { ((c as u8) + 32) as char } else { c })
}

/// The multiplier of a byte-size unit, if it is one.
pub open spec fn byte_unit(u: Seq<char>) -> Option<u64> {
    if u == ""@ || u == "b"@ {
        Some(1u64)
    } else if u == "k"@ || u == "kb"@ || u == "kib"@ {
        Some(1024u64)
    } else if u == "m"@ || u == "mb"@ || u == "mib"@ {
        Some(1048576u64)
    } else if u == "g"@ || u == "gb"@ || u == "gib"@ {
        Some(1073741824u64)
    } else if u == "t"@ || u == "tb"@ || u == "tib"@ {
        Some(1099511627776u64)
    } else {
        None
    }
}

/// The meaning of a byte-size string: `8GiB`, `512MiB`, `1000000`, `4GB`.
pub open spec fn bytes_spec(s: Seq<char>) -> Result<u64, ParseError> {
    let t = trim(s);
    let (num, unit) = split_spec(t);
    let v = digits_value(num);
    if num.len() == 0 {
        Err(ParseError::NoNumber)
    } else if v > u64::MAX {
        Err(ParseError::NotInteger)
    } else {
        match byte_unit(lower(unit)) {
            None => Err(ParseError::UnknownUnit),
            Some(mult) => if v * mult > u64::MAX {
                Err(ParseError::Overflow)
            } else {
                Ok((v * mult) as u64)
            },
        }
    }
}

pub fn is_whitespace(c: char) -> (b: bool)
    ensures
        b == is_ws(c),
{
    let u = c as u32;
    (0x9 <= u && u <= 0xD) || u == 0x20 || u == 0x85 || u == 0xA0 || u == 0x1680 || (0x2000 <= u
        && u <= 0x200A) || u == 0x2028 || u == 0x2029 || u == 0x202F || u == 0x205F || u == 0x3000
}

/// Bounds `(lo, hi)` with `v[lo..hi] == trim(v[from..to])`.
pub(crate) fn trim_range(v: &Vec<char>, from: usize, to: usize) -> (r: (usize, usize))
    requires
        from <= to <= v@.len(),
    ensures
        from <= r.0 <= r.1 <= to,
        v@.subrange(r.0 as int, r.1 as int) == trim(v@.subrange(from as int, to as int)),
{
    let mut lo = from;
    while lo < to && is_whitespace(v[lo])
        invariant
            from <= lo <= to <= v@.len(),
            trim_start(v@.subrange(lo as int, to as int)) == trim_start(v@.subrange(from as int, to as int)),
        decreases to - lo,
    {
        proof {
            assert(v@.subrange(lo as int, to as int).drop_first() =~= v@.subrange(lo + 1, to as int));
        }
        lo += 1;
    }
    let ghost ts = v@.subrange(lo as int, to as int);
    assert(trim_start(ts) == ts);
    let mut hi = to;
    while hi > lo && is_whitespace(v[hi - 1])
        invariant
            from <= lo <= hi <= to <= v@.len(),
            trim_end(v@.subrange(lo as int, hi as int)) == trim_end(ts),
        decreases hi - lo,
    {
        proof {
            assert(v@.subrange(lo as int, hi as int).drop_last() =~= v@.subrange(lo as int, hi - 1));
        }
        hi -= 1;
    }
    (lo, hi)
}

/// Whether `v[lo..hi]` spells `lit`.
pub(crate) fn range_is(v: &Vec<char>, lo: usize, hi: usize, lit: &str) -> (b: bool)
    requires
        lo <= hi <= v@.len(),
    ensures
        b == (v@.subrange(lo as int, hi as int) == lit@),
{
    let l = str_chars(lit);
    if hi - lo != l.len() {
        return false;
    }
    let mut i: usize = 0;
    while i < l.len()
        invariant
            hi - lo == l@.len(),
            lo <= hi <= v@.len(),
            l@ == lit@,
            i <= l@.len(),
            forall|q: int| 0 <= q < i ==> #[trigger] v@[lo + q] == l@[q],
        decreases l@.len() - i,
    {
        if v[lo + i] != l[i] {
            assert(v@.subrange(lo as int, hi as int)[i as int] != lit@[i as int]);
            return false;
        }
        i += 1;
    }
    assert forall|q: int| 0 <= q < lit@.len() implies #[trigger] v@.subrange(lo as int, hi as int)[q] == lit@[q] by {
        assert(v@[lo + q] == l@[q]);
    }
    assert(v@.subrange(lo as int, hi as int) =~= lit@);
    true
}

/// Whether lower-cased `v[lo..hi]` spells `lit`.
fn range_is_lower(v: &Vec<char>, lo: usize, hi: usize, lit: &str) -> (b: bool)
    requires
        lo <= hi <= v@.len(),
    ensures
        b == (lower(v@.subrange(lo as int, hi as int)) == lit@),
{
    let l = str_chars(lit);
    let ghost lw = lower(v@.subrange(lo as int, hi as int));
    if hi - lo != l.len() {
        return false;
    }
    let mut i: usize = 0;
    while i < l.len()
        invariant
            hi - lo == l@.len(),
            lo <= hi <= v@.len(),
            l@ == lit@,
            lw == lower(v@.subrange(lo as int, hi as int)),
            lw.len() == hi - lo,
            i <= l@.len(),
            forall|q: int| 0 <= q < i ==> #[trigger] lw[q] == l@[q],
        decreases l@.len() - i,
    {
        let c = v[lo + i];
        let lc = if 'A' <= c && c <= 'Z' {
            ((c as u8) + 32) as char
        } else {
            c
        };
        assert(lc == lw[i as int]);
        if lc != l[i] {
            return false;
        }
        i += 1;
    }
    assert(lw =~= lit@);
    true
}

/// The value of the digits `v[lo..hi]`, or `None` if it exceeds `u64`.
pub(crate) fn digits_u64(v: &Vec<char>, lo: usize, hi: usize) -> (r: Option<u64>)
    requires
        lo <= hi <= v@.len(),
        forall|q: int| lo <= q < hi ==> is_digit(#[trigger] v@[q]),
    ensures
        match r {
            Some(x) => x == digits_value(v@.subrange(lo as int, hi as int)),
            None => digits_value(v@.subrange(lo as int, hi as int)) > u64::MAX,
        },
{
    let mut acc: u64 = 0;
    let mut i = lo;
    while i < hi
        invariant
            lo <= i <= hi <= v@.len(),
            forall|q: int| lo <= q < hi ==> is_digit(#[trigger] v@[q]),
            acc == digits_value(v@.subrange(lo as int, i as int)),
        decreases hi - i,
    {
        let d = (v[i] as u32 - 48) as u64;
        proof {
            assert(v@.subrange(lo as int, i + 1).drop_last() =~= v@.subrange(lo as int, i as int));
            assert(v@.subrange(lo as int, i + 1).last() == v@[i as int]);
        }
        match acc.checked_mul(10) {
            None => {
                proof {
                    lemma_digits_grow(v@.subrange(lo as int, hi as int), (i + 1 - lo) as int);
                    assert(v@.subrange(lo as int, hi as int).subrange(0, (i + 1 - lo) as int) =~= v@.subrange(lo as int, i + 1));
                }
                return None;
            },
            Some(m) => match m.checked_add(d) {
                None => {
                    proof {
                        lemma_digits_grow(v@.subrange(lo as int, hi as int), (i + 1 - lo) as int);
                        assert(v@.subrange(lo as int, hi as int).subrange(0, (i + 1 - lo) as int) =~= v@.subrange(lo as int, i + 1));
                    }
                    return None;
                },
                Some(n) => {
                    acc = n;
                },
            },
        }
        i += 1;
    }
    Some(acc)
}

/// A longer digit string is worth at least as much as its prefix.
proof fn lemma_digits_grow(s: Seq<char>, p: int)
    requires
        0 <= p <= s.len(),
        forall|q: int| 0 <= q < s.len() ==> is_digit(#[trigger] s[q]),
    ensures
        digits_value(s) >= digits_value(s.subrange(0, p)),
    decreases s.len(),
{
    if p < s.len() {
        lemma_digits_grow(s.drop_last(), p);
        assert(s.drop_last().subrange(0, p) =~= s.subrange(0, p));
    } else {
        assert(s.subrange(0, p) =~= s);
    }
}

/// End of the leading digits of `v[lo..hi]`.
pub(crate) fn digit_end(v: &Vec<char>, lo: usize, hi: usize) -> (d: usize)
    requires
        lo <= hi <= v@.len(),
    ensures
        lo <= d <= hi,
        d - lo == digit_prefix_len(v@.subrange(lo as int, hi as int)),
        forall|q: int| lo <= q < d ==> is_digit(#[trigger] v@[q]),
{
    let mut d = lo;
    while d < hi && '0' <= v[d] && v[d] <= '9'
        invariant
            lo <= d <= hi <= v@.len(),
            forall|q: int| lo <= q < d ==> is_digit(#[trigger] v@[q]),
            digit_prefix_len(v@.subrange(lo as int, hi as int)) == (d - lo) + digit_prefix_len(
                v@.subrange(d as int, hi as int),
            ),
        decreases hi - d,
    {
        proof {
            assert(v@.subrange(d as int, hi as int).drop_first() =~= v@.subrange(d + 1, hi as int));
        }
        d += 1;
    }
    d
}

/// Parse `30s`, `45m`, `12h`, `7d`, `500ms`, or a bare integer (seconds),
/// into milliseconds.
pub fn parse_duration(s: &str) -> (r: Result<u128, ParseError>)
    ensures
        r == duration_spec(s@),
{
    let v = str_chars(s);
    let (lo, hi) = trim_range(&v, 0, v.len());
    proof {
        assert(v@.subrange(0, v@.len() as int) =~= v@);
    }
    let ghost t = v@.subrange(lo as int, hi as int);
    if lo == hi {
        return Err(ParseError::Empty);
    }
    let d = digit_end(&v, lo, hi);
    let (ulo, uhi) = trim_range(&v, d, hi);
    proof {
        assert(t.subrange(0, (d - lo) as int) =~= v@.subrange(lo as int, d as int));
        assert(t.subrange((d - lo) as int, t.len() as int) =~= v@.subrange(d as int, hi as int));
    }
    if d == lo {
        return Err(ParseError::NoNumber);
    }
    let val = match digits_u64(&v, lo, d) {
        Some(x) => x,
        None => {
            return Err(ParseError::NotInteger);
        },
    };
    if range_is(&v, ulo, uhi, "") || range_is(&v, ulo, uhi, "s") || range_is(&v, ulo, uhi, "sec")
        || range_is(&v, ulo, uhi, "secs") {
        Ok(val as u128 * 1000)
    } else if range_is(&v, ulo, uhi, "ms") {
        Ok(val as u128)
    } else if range_is(&v, ulo, uhi, "m") || range_is(&v, ulo, uhi, "min") || range_is(
        &v,
        ulo,
        uhi,
        "mins",
    ) {
        match val.checked_mul(60) {
            Some(_) => Ok(val as u128 * 60000),
            None => Err(ParseError::Overflow),
        }
    } else if range_is(&v, ulo, uhi, "h") || range_is(&v, ulo, uhi, "hr") || range_is(
        &v,
        ulo,
        uhi,
        "hrs",
    ) {
        match val.checked_mul(3600) {
            Some(_) => Ok(val as u128 * 3600000),
            None => Err(ParseError::Overflow),
        }
    } else if range_is(&v, ulo, uhi, "d") || range_is(&v, ulo, uhi, "day") || range_is(
        &v,
        ulo,
        uhi,
        "days",
    ) {
        match val.checked_mul(86400) {
            Some(_) => Ok(val as u128 * 86400000),
            None => Err(ParseError::Overflow),
        }
    } else {
        Err(ParseError::UnknownUnit)
    }
}

/// Parse a byte size: `8GiB`, `512MiB`, `1000000`, `4GB`.
pub fn parse_bytes(s: &str) -> (r: Result<u64, ParseError>)
    ensures
        r == bytes_spec(s@),
{
    let v = str_chars(s);
    let (lo, hi) = trim_range(&v, 0, v.len());
    proof {
        assert(v@.subrange(0, v@.len() as int) =~= v@);
    }
    let ghost t = v@.subrange(lo as int, hi as int);
    let d = digit_end(&v, lo, hi);
    let (ulo, uhi) = trim_range(&v, d, hi);
    proof {
        assert(t.subrange(0, (d - lo) as int) =~= v@.subrange(lo as int, d as int));
        assert(t.subrange((d - lo) as int, t.len() as int) =~= v@.subrange(d as int, hi as int));
    }
    if d == lo {
        return Err(ParseError::NoNumber);
    }
    let val = match digits_u64(&v, lo, d) {
        Some(x) => x,
        None => {
            return Err(ParseError::NotInteger);
        },
    };
    let mult: u64 = if range_is_lower(&v, ulo, uhi, "") || range_is_lower(&v, ulo, uhi, "b") {
        1
    } else if range_is_lower(&v, ulo, uhi, "k") || range_is_lower(&v, ulo, uhi, "kb")
        || range_is_lower(&v, ulo, uhi, "kib") {
        1024
    } else if range_is_lower(&v, ulo, uhi, "m") || range_is_lower(&v, ulo, uhi, "mb")
        || range_is_lower(&v, ulo, uhi, "mib") {
        1048576
    } else if range_is_lower(&v, ulo, uhi, "g") || range_is_lower(&v, ulo, uhi, "gb")
        || range_is_lower(&v, ulo, uhi, "gib") {
        1073741824
    } else if range_is_lower(&v, ulo, uhi, "t") || range_is_lower(&v, ulo, uhi, "tb")
        || range_is_lower(&v, ulo, uhi, "tib") {
        1099511627776
    } else {
        return Err(ParseError::UnknownUnit);
    };
    match val.checked_mul(mult) {
        Some(x) => Ok(x),
        None => Err(ParseError::Overflow),
    }
}

// ---------------------------------------------------------------------------
// Deterministic PRNG (splitmix64)
// ---------------------------------------------------------------------------

pub open spec fn golden() -> u64 {
    0x9E37_79B9_7F4A_7C15u64
}

/// The splitmix64 output function applied to a state.
pub open spec fn splitmix_mix(st: u64) -> u64 {
    let z1 = (st ^ (st >> 30u64)).wrapping_mul(0xBF58_476D_1CE4_E5B9u64);
    let z2 = (z1 ^ (z1 >> 27u64)).wrapping_mul(0x94D0_49BB_1331_11EBu64);
    z2 ^ (z2 >> 31u64)
}

#[derive(Clone, Debug)]
pub struct Rng {
    state: u64,
}

impl Rng {
    pub closed spec fn view_state(&self) -> u64 {
        self.state
    }

    pub fn new(seed: u64) -> (r: Rng)
        ensures
            r.view_state() == seed.wrapping_add(golden()),
    {
        Rng { state: seed.wrapping_add(0x9E37_79B9_7F4A_7C15) }
    }

    pub fn next_u64(&mut self) -> (x: u64)
        ensures
            final(self).view_state() == old(self).view_state().wrapping_add(golden()),
            x == splitmix_mix(final(self).view_state()),
    {
        self.state = self.state.wrapping_add(0x9E37_79B9_7F4A_7C15);
        let mut z = self.state;
        z = (z ^ (z >> 30)).wrapping_mul(0xBF58_476D_1CE4_E5B9);
        z = (z ^ (z >> 27)).wrapping_mul(0x94D0_49BB_1331_11EB);
        z ^ (z >> 31)
    }

    /// Uniform in `[0, bound)` (bound > 0), by the multiply-high reduction.
    pub fn below(&mut self, bound: u64) -> (x: u64)
        ensures
            final(self).view_state() == old(self).view_state().wrapping_add(golden()),
            x as nat == (splitmix_mix(final(self).view_state()) as nat * bound as nat) / 0x1_0000_0000_0000_0000,
            bound > 0 ==> x < bound,
    {
        let r = self.next_u64();
        assert(r * bound <= 0xFFFF_FFFF_FFFF_FFFF * 0xFFFF_FFFF_FFFF_FFFF) by (nonlinear_arith)
            requires
                r <= 0xFFFF_FFFF_FFFF_FFFFu64,
                bound <= 0xFFFF_FFFF_FFFF_FFFFu64,
        ;
        let p = r as u128 * bound as u128;
        proof {
            assert(p >> 64u128 == p / 0x1_0000_0000_0000_0000) by (bit_vector);
            assert(p / 0x1_0000_0000_0000_0000 < 0x1_0000_0000_0000_0000) by (nonlinear_arith)
                requires
                    p <= 0xFFFF_FFFF_FFFF_FFFF * 0xFFFF_FFFF_FFFF_FFFF,
            ;
            if bound > 0 {
                assert(p / 0x1_0000_0000_0000_0000 < bound) by (nonlinear_arith)
                    requires
                        p == r * bound,
                        r < 0x1_0000_0000_0000_0000,
                        bound > 0,
                ;
            }
        }
        (p >> 64) as u64
    }

    pub fn state(&self) -> (s: u64)
        ensures
            s == self.view_state(),
    {
        self.state
    }

    pub fn from_state(state: u64) -> (r: Rng)
        ensures
            r.view_state() == state,
    {
        Rng { state }
    }
}

// ---------------------------------------------------------------------------
// Bitset
// ---------------------------------------------------------------------------

#[derive(Clone, Debug)]
pub struct Bitset {
    words: Vec<u64>,
}

proof fn lemma_word_bit(w: u64, b: u64, t: u64)
    by (bit_vector)
    requires
        b < 64,
        t < 64,
    ensures
        (((w | (1u64 << b)) >> t) & 1 == 1) == (t == b || (w >> t) & 1 == 1),
        (((w & !(1u64 << b)) >> t) & 1 == 1) == (t != b && (w >> t) & 1 == 1),
        ((w & (1u64 << b)) == 0) == !((w >> b) & 1 == 1),
{
}

impl Bitset {
    /// Number of addressable bits.
    pub closed spec fn capacity(&self) -> nat {
        self.words@.len() * 64
    }

    /// Whether bit `i` is set.
    pub closed spec fn contains(&self, i: int) -> bool {
        0 <= i < self.capacity() && (self.words@[i / 64] >> ((i % 64) as u64)) & 1 == 1
    }

    pub fn new(n: usize) -> (b: Bitset)
        ensures
            b.capacity() >= n,
            b.capacity() < n + 64,
            b.capacity() == 64 * (n / 64 + if n % 64 == 0 { 0int } else { 1int }),
            forall|i: int| !#[trigger] b.contains(i),
    {
        let nw = n / 64 + if n % 64 == 0 {
            0
        } else {
            1
        };
        let words = vec![0u64; nw];
        let b = Bitset { words };
        proof {
            assert forall|i: int| !#[trigger] b.contains(i) by {
                if 0 <= i < b.capacity() {
                    let t = (i % 64) as u64;
                    assert((0u64 >> t) & 1 == 0) by (bit_vector);
                }
            }
        }
        b
    }

    pub fn clear(&mut self, i: usize)
        requires
            i < old(self).capacity(),
        ensures
            final(self).capacity() == old(self).capacity(),
            forall|j: int| #[trigger] final(self).contains(j) == (old(self).contains(j) && j != i),
    {
        let wi = i / 64;
        let b = (i % 64) as u64;
        let ghost w0 = self.words@[wi as int];
        self.words.set(wi, self.words[wi] & !(1u64 << b));
        proof {
            assert forall|j: int| #[trigger] self.contains(j) == (old(self).contains(j) && j != i) by {
                if 0 <= j < self.capacity() {
                    lemma_word_bit(w0, b, (j % 64) as u64);
                    if j / 64 == wi as int {
                        assert((j % 64 == i % 64) == (j == i));
                    }
                }
            }
        }
    }

    /// Set bit `i` and report whether it was previously unset.
    pub fn test_and_set(&mut self, i: usize) -> (was_unset: bool)
        requires
            i < old(self).capacity(),
        ensures
            was_unset == !old(self).contains(i as int),
            final(self).capacity() == old(self).capacity(),
            forall|j: int| #[trigger] final(self).contains(j) == (old(self).contains(j) || j == i),
    {
        let wi = i / 64;
        let b = (i % 64) as u64;
        let w = self.words[wi];
        let bit = 1u64 << b;
        let was = w & bit == 0;
        self.words.set(wi, w | bit);
        proof {
            lemma_word_bit(w, b, b);
            assert forall|j: int| #[trigger] self.contains(j) == (old(self).contains(j) || j == i) by {
                if 0 <= j < self.capacity() {
                    lemma_word_bit(w, b, (j % 64) as u64);
                    if j / 64 == wi as int {
                        assert((j % 64 == i % 64) == (j == i));
                    }
                }
            }
        }
        was
    }

    /// Bytes of storage held.
    pub fn bytes(&self) -> (n: u64)
        requires
            self.capacity() / 8 <= usize::MAX,
        ensures
            n == self.capacity() / 8,
    {
        (self.words.len() * 8) as u64
    }
}

} // verus!
