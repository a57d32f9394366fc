//! The witness text format.
//!
//! ```text
//! odd835-witness 1
//! kind partition          # or `code`
//! k 6
//! n 11
//! vertices 462
//! colors 7                # partition only
//! m 66
//! data
//! <payload>
//! ```
//!
//! For `partition` the payload is one base-36 digit per vertex in colex-rank
//! order, wrapped at 72 columns (colours 0..=16 fit in `0`..`g`).
//! For `code` the payload is the ascending decimal vertex indices, one per
//! line. This module does no combinatorics: it renders and parses text, and
//! reading and writing files is left to the caller.
use vstd::prelude::*;
use crate::bits::{binom, lemma_binom_lt_pow2, lemma_binom_pos};
use crate::lex::{
    split_lines, words, parse_u32, parse_u64, pieces, line_ranges, word_ranges, parse_u32_range,
    parse_u64_range, joined, all_no_newline, no_newline, no_space, strip_nl, plain_lines,
    lemma_joined_push, lemma_split_joined, lemma_line_len_facts, lemma_strip_nl_add,
    lemma_strip_nl_id, lemma_pair_line, lemma_numeral_decimal, lemma_trim_id, line_len,
};
use crate::text::{decimal, push_decimal, push_str, string_from_chars, str_chars};
use crate::util::{trim, trim_range, range_is, is_ws};
use vstd::arithmetic::power2::{pow2, lemma2_to64};


verus! {

/// A witness: a colouring of every vertex, or one perfect 1-code.
#[derive(Debug, Clone, PartialEq, Eq)]
pub enum Witness {
    /// `color[v]` for every vertex `v` in colex order.
    Partition { k: u32, colors: Vec<u8> },
    /// Ascending vertex indices of a single perfect 1-code.
    Code { k: u32, members: Vec<u32> },
}

/// The mathematical content of a [`Witness`].
pub enum WitnessView {
    Partition { k: u32, colors: Seq<u8> },
    Code { k: u32, members: Seq<u32> },
}

impl View for Witness {
    type V = WitnessView;

    open spec fn view(&self) -> WitnessView {
        match self {
            Witness::Partition { k, colors } => WitnessView::Partition { k: *k, colors: colors@ },
            Witness::Code { k, members } => WitnessView::Code { k: *k, members: members@ },
        }
    }
}

/// Why a witness text was refused, or could not be written.
#[derive(Clone, Copy, Debug, PartialEq, Eq)]
pub enum WitnessError {
    /// The first line is not `odd835-witness <version>`.
    NotAWitness,
    /// The version field is not an integer.
    BadVersion,
    /// A version other than 1.
    UnsupportedVersion { version: u32 },
    /// The text ends before the `data` line.
    NoDataMarker,
    /// A `k`, `vertices`, `colors` or `m` header value is not an integer.
    BadHeaderValue,
    /// A header line with a key that is not known.
    UnknownHeaderKey,
    /// `k` outside `2..=16`.
    KOutOfRange { k: u32 },
    /// The declared vertex count differs from `C(2k-1, k-1)`.
    VertexCount { declared: u64, expected: u64 },
    /// A partition that does not declare exactly `k+1` colours.
    ColourCount { colors: Option<u32>, wanted: u32 },
    /// A payload character that is not a base-36 digit.
    BadPayloadChar { ch: char },
    /// A partition payload of the wrong length.
    PayloadLength { found: u64, expected: u64 },
    /// A code payload line that is not a vertex index.
    BadVertexIndex,
    /// A code whose member count differs from its declared `m`.
    MemberCount { declared: u64, found: u64 },
    /// A `kind` other than `partition` and `code`.
    UnknownKind,
    /// A colour that does not fit one base-36 digit.
    ColourTooLarge { colour: u8 },
}

impl Witness {
    pub fn k(&self) -> (k: u32)
        ensures
            k == match self@ {
                WitnessView::Partition { k, .. } => k,
                WitnessView::Code { k, .. } => k,
            },
    {
        match self {
            Witness::Partition { k, .. } => *k,
            Witness::Code { k, .. } => *k,
        }
    }
}

// ---------------------------------------------------------------------------
// Vertex count
// ---------------------------------------------------------------------------

/// `(r+1) C(n, r+1) = (n-r) C(n, r)`.
pub proof fn lemma_binom_step(n: nat, r: nat)
    ensures
        (r + 1) * binom(n, r + 1) == (n - r) * binom(n, r),
    decreases n,
{
    if n == 0 {
        if r > 0 {
            assert(binom(0, r) == 0);
        }
        assert(binom(0, r + 1) == 0);
    } else {
        let n1 = (n - 1) as nat;
        lemma_binom_step(n1, r);
        assert(binom(n, r + 1) == binom(n1, r) + binom(n1, r + 1));
        if r == 0 {
            assert(binom(n1, 0) == 1);
            assert(binom(n, 0) == 1);
            let x = binom(n, 1);
            assert(x == 1 + binom(n1, 1));
            let b1 = binom(n1, 1);
            let b0 = binom(n1, 0);
            assert((r + 1) * binom(n1, r + 1) == (n1 - r) * binom(n1, r));
            assert(b1 == n1) by (nonlinear_arith)
                requires
                    1 * b1 == n1 * b0,
                    b0 == 1,
            ;
            assert(x == n);
        } else {
            let r1 = (r - 1) as nat;
            lemma_binom_step(n1, r1);
            assert(binom(n, r) == binom(n1, r1) + binom(n1, r));
            let a = binom(n1, r1);
            let b = binom(n1, r);
            let c = binom(n1, r + 1);
            assert((r + 1) * c == (n1 - r) * b);
            assert(r * b == (n1 - r1) * a);
            let x = binom(n, r + 1);
            let y = binom(n, r);
            assert((r + 1) * x == (n - r) * y) by (nonlinear_arith)
                requires
                    (r + 1) * c == (n1 - r) * b,
                    r * b == (n1 - r1) * a,
                    n1 == n - 1,
                    r1 == r - 1,
                    x == b + c,
                    y == a + b,
            ;
        }
    }
}

/// `C(2k-1, k-1)`, the number of vertices of `O_k`, computed on its own by the
/// multiplicative formula.
pub fn num_vertices(k: u32) -> (v: u64)
    requires
        1 <= k <= 32,
    ensures
        v == binom((2 * k - 1) as nat, (k - 1) as nat),
{
    let n = (2 * k - 1) as u64;
    let r = (k - 1) as u64;
    let mut v: u128 = 1;
    let mut i: u64 = 0;
    proof {
        lemma2_to64();
        vstd::arithmetic::power2::lemma2_to64_rest();
        if n < 63 {
            vstd::arithmetic::power2::lemma_pow2_strictly_increases(n as nat, 63);
        }
    }
    while i < r
        invariant
            n == 2 * k - 1,
            r == k - 1,
            1 <= k <= 32,
            i <= r,
            v == binom(n as nat, i as nat),
            pow2(n as nat) <= 0x8000_0000_0000_0000,
        decreases r - i,
    {
        proof {
            lemma_binom_lt_pow2(n as nat, i as nat);
            lemma_binom_step(n as nat, i as nat);
            assert(v * (n - i) <= 0x8000_0000_0000_0000 * 64) by (nonlinear_arith)
                requires
                    v < 0x8000_0000_0000_0000,
                    0 <= n - i <= 64,
            ;
        }
        let p = v * (n - i) as u128;
        proof {
            let b1 = binom(n as nat, (i + 1) as nat);
            assert((i + 1) * b1 == p);
            assert(p as int / (i + 1) as int == b1) by (nonlinear_arith)
                requires
                    (i + 1) * b1 == p,
                    i + 1 > 0,
            ;
        }
        v = p / (i + 1) as u128;
        i += 1;
    }
    proof {
        lemma_binom_lt_pow2(n as nat, r as nat);
    }
    v as u64
}

// ---------------------------------------------------------------------------
// Base-36 digits
// ---------------------------------------------------------------------------

/// The base-36 digit of `c <= 35`: `0`..`9`, then `a`..`z`.
pub open spec fn digit_of(c: u8) -> char {
    if c <= 9 {
        ((48 + c) as u8) as char
    } else {
        ((87 + c) as u8) as char
    }
}

/// The value of a base-36 digit, if `ch` is one.
pub open spec fn char_digit(ch: char) -> Option<u8> {
    if '0' <= ch <= '9' {
        Some(((ch as u32) - 48) as u8)
    } else if 'a' <= ch <= 'z' {
        Some(((ch as u32) - 87) as u8)
    } else {
        None
    }
}

pub fn digit_to_char(c: u8) -> (r: Result<char, WitnessError>)
    ensures
        c <= 35 ==> r == Ok::<char, WitnessError>(digit_of(c)),
        c > 35 ==> r == Err::<char, WitnessError>(WitnessError::ColourTooLarge { colour: c }),
{
    if c <= 9 {
        Ok((48 + c) as char)
    } else if c <= 35 {
        Ok((87 + c) as char)
    } else {
        Err(WitnessError::ColourTooLarge { colour: c })
    }
}

pub fn char_to_digit(ch: char) -> (r: Result<u8, WitnessError>)
    ensures
        match char_digit(ch) {
            Some(d) => r == Ok::<u8, WitnessError>(d),
            None => r == Err::<u8, WitnessError>(WitnessError::BadPayloadChar { ch }),
        },
{
    if '0' <= ch && ch <= '9' {
        Ok(((ch as u32) - 48) as u8)
    } else if 'a' <= ch && ch <= 'z' {
        Ok(((ch as u32) - 87) as u8)
    } else {
        Err(WitnessError::BadPayloadChar { ch })
    }
}

// ---------------------------------------------------------------------------
// Rendering
// ---------------------------------------------------------------------------

/// A header line `key value`.
pub open spec fn header_line(key: Seq<char>, val: nat) -> Seq<char> {
    key + seq![' '] + decimal(val) + seq!['\n']
}

/// The first `i` colours as digits, with a line break after every 72nd.
pub open spec fn wrapped(cs: Seq<u8>, i: nat) -> Seq<char>
    decreases i,
{
    if i == 0 {
        Seq::empty()
    } else {
        wrapped(cs, (i - 1) as nat) + seq![digit_of(cs[i - 1])] + (if i % 72 == 0 {
            seq!['\n']
        } else {
            Seq::empty()
        })
    }
}

/// The partition payload: the colours wrapped at 72 columns, every line
/// ended by a line break.
pub open spec fn partition_payload(cs: Seq<u8>) -> Seq<char> {
    wrapped(cs, cs.len()) + (if cs.len() % 72 != 0 { seq!['\n'] } else { Seq::empty() })
}

/// The first `i` members, one decimal per line.
pub open spec fn code_payload(ms: Seq<u32>, i: nat) -> Seq<char>
    decreases i,
{
    if i == 0 {
        Seq::empty()
    } else {
        code_payload(ms, (i - 1) as nat) + decimal(ms[i - 1] as nat) + seq!['\n']
    }
}

/// The index of the first colour that does not fit one digit, if any.
pub open spec fn first_big_colour(cs: Seq<u8>, i: nat) -> Option<u8>
    decreases cs.len() - i,
{
    if i >= cs.len() {
        None
    } else if cs[i as int] > 35 {
        Some(cs[i as int])
    } else {
        first_big_colour(cs, i + 1)
    }
}

/// Witnesses whose text the format can hold: `k >= 1`, and for a code
/// `k <= 32`, where the vertex count still fits a `u64`.
pub open spec fn renderable(w: WitnessView) -> bool {
    match w {
        WitnessView::Partition { k, .. } => 1 <= k <= 0x7FFF_FFFF,
        WitnessView::Code { k, .. } => 1 <= k <= 32,
    }
}

/// The text of a witness.
pub open spec fn render_spec(w: WitnessView) -> Seq<char> {
    match w {
        WitnessView::Partition { k, colors } => "odd835-witness 1\n"@ + "kind partition\n"@
            + header_line("k"@, k as nat) + header_line("n"@, (2 * k - 1) as nat) + header_line(
            "vertices"@,
            colors.len(),
        ) + header_line("colors"@, (k + 1) as nat) + header_line(
            "m"@,
            colors.len() / (k + 1) as nat,
        ) + "data\n"@ + partition_payload(colors),
        WitnessView::Code { k, members } => "odd835-witness 1\n"@ + "kind code\n"@ + header_line(
            "k"@,
            k as nat,
        ) + header_line("n"@, (2 * k - 1) as nat) + header_line(
            "vertices"@,
            binom((2 * k - 1) as nat, (k - 1) as nat),
        ) + header_line("m"@, members.len()) + "data\n"@ + code_payload(members, members.len()),
    }
}

fn push_header_line(out: &mut Vec<char>, key: &str, val: u64)
    ensures
        final(out)@ == old(out)@ + header_line(key@, val as nat),
{
    push_str(out, key);
    out.push(' ');
    push_decimal(out, val);
    out.push('\n');
    proof {
        assert(final(out)@ =~= old(out)@ + header_line(key@, val as nat));
    }
}

impl Witness {
    /// The witness as text. A colour above 35 has no digit and is refused.
    pub fn to_text(&self) -> (r: Result<String, WitnessError>)
        requires
            renderable(self@),
        ensures
            match self@ {
                WitnessView::Partition { colors, .. } => match first_big_colour(colors, 0) {
                    Some(c) => r == Err::<String, WitnessError>(WitnessError::ColourTooLarge { colour: c }),
                    None => r matches Ok(s) && s@ == render_spec(self@),
                },
                WitnessView::Code { .. } => r matches Ok(s) && s@ == render_spec(self@),
            },
    {
        let mut out: Vec<char> = Vec::new();
        match self {
            Witness::Partition { k, colors } => {
                let k = *k;
                push_str(&mut out, "odd835-witness 1\n");
                push_str(&mut out, "kind partition\n");
                push_header_line(&mut out, "k", k as u64);
                push_header_line(&mut out, "n", (2 * k - 1) as u64);
                push_header_line(&mut out, "vertices", colors.len() as u64);
                push_header_line(&mut out, "colors", (k + 1) as u64);
                push_header_line(&mut out, "m", colors.len() as u64 / (k as u64 + 1));
                push_str(&mut out, "data\n");
                let ghost head = out@;
                let mut i: usize = 0;
                while i < colors.len()
                    invariant
                        i <= colors@.len(),
                        self@ == (WitnessView::Partition { k, colors: colors@ }),
                        out@ == head + wrapped(colors@, i as nat),
                        first_big_colour(colors@, 0) == first_big_colour(colors@, i as nat),
                    decreases colors@.len() - i,
                {
                    let d = match digit_to_char(colors[i]) {
                        Ok(d) => d,
                        Err(e) => {
                            proof {
                                assert(first_big_colour(colors@, i as nat) == Some(colors@[i as int]));
                            }
                            return Err(e);
                        },
                    };
                    out.push(d);
                    if (i + 1) % 72 == 0 {
                        out.push('\n');
                    }
                    proof {
                        assert(first_big_colour(colors@, i as nat) == first_big_colour(colors@, (i + 1) as nat));
                        let w1 = wrapped(colors@, (i + 1) as nat);
                        assert(w1 == wrapped(colors@, i as nat) + seq![digit_of(colors@[i as int])] + (if (i + 1) % 72 == 0 {
                            seq!['\n']
                        } else {
                            Seq::empty()
                        }));
                        assert(out@ =~= head + w1);
                    }
                    i += 1;
                }
                if colors.len() % 72 != 0 {
                    out.push('\n');
                }
                proof {
                    assert(first_big_colour(colors@, colors@.len()) is None);
                    assert(out@ =~= render_spec(self@));
                }
            },
            Witness::Code { k, members } => {
                let k = *k;
                let nv = num_vertices(k);
                push_str(&mut out, "odd835-witness 1\n");
                push_str(&mut out, "kind code\n");
                push_header_line(&mut out, "k", k as u64);
                push_header_line(&mut out, "n", (2 * k - 1) as u64);
                push_header_line(&mut out, "vertices", nv);
                push_header_line(&mut out, "m", members.len() as u64);
                push_str(&mut out, "data\n");
                let ghost head = out@;
                let mut i: usize = 0;
                while i < members.len()
                    invariant
                        i <= members@.len(),
                        out@ == head + code_payload(members@, i as nat),
                    decreases members@.len() - i,
                {
                    push_decimal(&mut out, members[i] as u64);
                    out.push('\n');
                    proof {
                        assert(out@ =~= head + code_payload(members@, (i + 1) as nat));
                    }
                    i += 1;
                }
                proof {
                    assert(out@ =~= render_spec(self@));
                }
            },
        }
        Ok(string_from_chars(&out))
    }
}

// ---------------------------------------------------------------------------
// Parsing
// ---------------------------------------------------------------------------

/// Header values seen so far: `kind`, `k`, `vertices`, `colors`, `m`.
pub type HeaderState = (Seq<char>, u32, u64, Option<u32>, Option<u64>);

/// `pre` prepended to a successful result.
pub open spec fn prepend<T>(pre: Seq<T>, r: Result<Seq<T>, WitnessError>) -> Result<Seq<T>, WitnessError> {
    match r {
        Ok(x) => Ok(pre + x),
        Err(e) => Err(e),
    }
}

/// The header lines from line `i` on, up to the `data` line: the state
/// after them and the index of the first payload line.
pub open spec fn scan_header(ls: Seq<Seq<char>>, i: int, st: HeaderState) -> Result<(HeaderState, int), WitnessError>
    decreases ls.len() - i,
{
    if i < 0 || i >= ls.len() {
        Err(WitnessError::NoDataMarker)
    } else {
        let t = trim(ls[i]);
        if t == "data"@ {
            Ok((st, i + 1))
        } else {
            let w = words(t);
            let key = if w.len() > 0 { w[0] } else { Seq::empty() };
            let val = if w.len() > 1 { w[1] } else { Seq::empty() };
            if key == "kind"@ {
                scan_header(ls, i + 1, (val, st.1, st.2, st.3, st.4))
            } else if key == "k"@ {
                match parse_u32(val) {
                    Some(x) => scan_header(ls, i + 1, (st.0, x, st.2, st.3, st.4)),
                    None => Err(WitnessError::BadHeaderValue),
                }
            } else if key == "vertices"@ {
                match parse_u64(val) {
                    Some(x) => scan_header(ls, i + 1, (st.0, st.1, x, st.3, st.4)),
                    None => Err(WitnessError::BadHeaderValue),
                }
            } else if key == "colors"@ {
                match parse_u32(val) {
                    Some(x) => scan_header(ls, i + 1, (st.0, st.1, st.2, Some(x), st.4)),
                    None => Err(WitnessError::BadHeaderValue),
                }
            } else if key == "m"@ {
                match parse_u64(val) {
                    Some(x) => scan_header(ls, i + 1, (st.0, st.1, st.2, st.3, Some(x))),
                    None => Err(WitnessError::BadHeaderValue),
                }
            } else if key == "n"@ || key.len() == 0 {
                scan_header(ls, i + 1, st)
            } else {
                Err(WitnessError::UnknownHeaderKey)
            }
        }
    }
}

/// The trimmed lines from `j` on, concatenated.
pub open spec fn concat_trimmed(ls: Seq<Seq<char>>, j: int) -> Seq<char>
    decreases ls.len() - j,
{
    if j < 0 || j >= ls.len() {
        Seq::empty()
    } else {
        trim(ls[j]) + concat_trimmed(ls, j + 1)
    }
}

/// The colours spelled by a run of base-36 digits; the first character that
/// is not one is refused.
pub open spec fn decode_colours(p: Seq<char>) -> Result<Seq<u8>, WitnessError>
    decreases p.len(),
{
    if p.len() == 0 {
        Ok(Seq::empty())
    } else {
        match char_digit(p[0]) {
            None => Err(WitnessError::BadPayloadChar { ch: p[0] }),
            Some(d) => prepend(seq![d], decode_colours(p.drop_first())),
        }
    }
}

/// The vertex indices on the non-blank lines from `j` on.
pub open spec fn code_members(ls: Seq<Seq<char>>, j: int) -> Result<Seq<u32>, WitnessError>
    decreases ls.len() - j,
{
    if j < 0 || j >= ls.len() {
        Ok(Seq::empty())
    } else {
        let t = trim(ls[j]);
        if t.len() == 0 {
            code_members(ls, j + 1)
        } else {
            match parse_u32(t) {
                None => Err(WitnessError::BadVertexIndex),
                Some(x) => prepend(seq![x], code_members(ls, j + 1)),
            }
        }
    }
}

/// The meaning of a witness text.
pub open spec fn parse_spec(s: Seq<char>) -> Result<WitnessView, WitnessError> {
    let ls = split_lines(s);
    let first = if ls.len() > 0 { ls[0] } else { Seq::empty() };
    let hdr = words(first);
    if hdr.len() != 2 || hdr[0] != "odd835-witness"@ {
        Err(WitnessError::NotAWitness)
    } else {
        match parse_u32(hdr[1]) {
            None => Err(WitnessError::BadVersion),
            Some(ver) => if ver != 1 {
                Err(WitnessError::UnsupportedVersion { version: ver })
            } else {
                match scan_header(ls, 1, (Seq::empty(), 0u32, 0u64, None, None)) {
                    Err(e) => Err(e),
                    Ok((st, d)) => {
                        let k = st.1;
                        let ev = binom((2 * k - 1) as nat, (k - 1) as nat);
                        if k < 2 || k > 16 {
                            Err(WitnessError::KOutOfRange { k })
                        } else if st.2 != ev {
                            Err(WitnessError::VertexCount { declared: st.2, expected: ev as u64 })
                        } else if st.0 == "partition"@ {
                            if st.3 != Some((k + 1) as u32) {
                                Err(WitnessError::ColourCount { colors: st.3, wanted: (k + 1) as u32 })
                            } else {
                                match decode_colours(concat_trimmed(ls, d)) {
                                    Err(e) => Err(e),
                                    Ok(cs) => if cs.len() != ev {
                                        Err(WitnessError::PayloadLength { found: cs.len() as u64, expected: ev as u64 })
                                    } else {
                                        Ok(WitnessView::Partition { k, colors: cs })
                                    },
                                }
                            }
                        } else if st.0 == "code"@ {
                            match code_members(ls, d) {
                                Err(e) => Err(e),
                                Ok(ms) => match st.4 {
                                    Some(m) => if ms.len() != m {
                                        Err(WitnessError::MemberCount { declared: m, found: ms.len() as u64 })
                                    } else {
                                        Ok(WitnessView::Code { k, members: ms })
                                    },
                                    None => Ok(WitnessView::Code { k, members: ms }),
                                },
                            }
                        } else {
                            Err(WitnessError::UnknownKind)
                        }
                    },
                }
            },
        }
    }
}

/// The first line reads `odd835-witness 1`.
pub open spec fn preamble_ok(s: Seq<char>) -> bool {
    let ls = split_lines(s);
    let first = if ls.len() > 0 { ls[0] } else { Seq::empty() };
    let hdr = words(first);
    hdr.len() == 2 && hdr[0] == "odd835-witness"@ && parse_u32(hdr[1]) == Some(1u32)
}

/// A result, taken by the view of its witness.
pub open spec fn result_view(r: Result<Witness, WitnessError>) -> Result<WitnessView, WitnessError> {
    match r {
        Ok(w) => Ok(w@),
        Err(e) => Err(e),
    }
}

proof fn lemma_prepend_prepend<T>(a: Seq<T>, b: Seq<T>, r: Result<Seq<T>, WitnessError>)
    ensures
        prepend(a, prepend(b, r)) == prepend(a + b, r),
{
    match r {
        Ok(x) => {
            assert(a + (b + x) =~= (a + b) + x);
        },
        Err(e) => {},
    }
}

/// The piece `(a, b)` of `v`, or the empty piece.
fn piece_or_empty(rs: &Vec<(usize, usize)>, i: usize, dflt: usize) -> (p: (usize, usize))
    ensures
        i < rs@.len() ==> p == rs@[i as int],
        i >= rs@.len() ==> p == (dflt, dflt),
{
    if i < rs.len() {
        rs[i]
    } else {
        (dflt, dflt)
    }
}

/// Decode the payload of a partition witness.
fn decode_payload(v: &Vec<char>, ls: &Vec<(usize, usize)>, d: usize) -> (r: Result<Vec<u8>, WitnessError>)
    requires
        forall|i: int| 0 <= i < ls@.len() ==> #[trigger] ls@[i].0 <= ls@[i].1 <= v@.len(),
    ensures
        match r {
            Ok(cs) => decode_colours(concat_trimmed(pieces(v@, ls@), d as int)) == Ok::<Seq<u8>, WitnessError>(cs@),
            Err(e) => decode_colours(concat_trimmed(pieces(v@, ls@), d as int)) == Err::<Seq<u8>, WitnessError>(e),
        },
{
    let ghost lsv = pieces(v@, ls@);
    let ghost target = decode_colours(concat_trimmed(lsv, d as int));
    let mut colors: Vec<u8> = Vec::new();
    let mut j = d;
    proof {
        assert(colors@ + Seq::<u8>::empty() =~= Seq::<u8>::empty());
        match decode_colours(concat_trimmed(lsv, d as int)) {
            Ok(x) => { assert(colors@ + x =~= x); },
            Err(_) => {},
        }
    }
    while j < ls.len()
        invariant
            forall|i: int| 0 <= i < ls@.len() ==> #[trigger] ls@[i].0 <= ls@[i].1 <= v@.len(),
            lsv == pieces(v@, ls@),
            target == decode_colours(concat_trimmed(lsv, d as int)),
            d <= j || ls@.len() <= j,
            target == prepend(colors@, decode_colours(concat_trimmed(lsv, j as int))),
        decreases ls@.len() - j,
    {
        let (a, b) = ls[j];
        let (ta, tb) = trim_range(v, a, b);
        let mut q = ta;
        proof {
            assert(lsv[j as int] == v@.subrange(a as int, b as int));
            assert(concat_trimmed(lsv, j as int) == v@.subrange(ta as int, tb as int) + concat_trimmed(lsv, j + 1));
        }
        while q < tb
            invariant
                forall|i: int| 0 <= i < ls@.len() ==> #[trigger] ls@[i].0 <= ls@[i].1 <= v@.len(),
                lsv == pieces(v@, ls@),
                ta <= q <= tb <= v@.len(),
                j < ls@.len(),
                target == decode_colours(concat_trimmed(lsv, d as int)),
                target == prepend(colors@, decode_colours(v@.subrange(q as int, tb as int) + concat_trimmed(lsv, j + 1))),
            decreases tb - q,
        {
            let ghost rest = v@.subrange(q as int, tb as int) + concat_trimmed(lsv, j + 1);
            proof {
                assert(rest[0] == v@[q as int]);
                assert(rest.drop_first() =~= v@.subrange(q + 1, tb as int) + concat_trimmed(lsv, j + 1));
            }
            match char_to_digit(v[q]) {
                Ok(dg) => {
                    proof {
                        assert(decode_colours(rest) == prepend(seq![dg], decode_colours(rest.drop_first())));
                        lemma_prepend_prepend(colors@, seq![dg], decode_colours(rest.drop_first()));
                    }
                    let ghost before = colors@;
                    colors.push(dg);
                    proof {
                        assert(colors@ =~= before + seq![dg]);
                    }
                },
                Err(e) => {
                    proof {
                        assert(decode_colours(rest) == Err::<Seq<u8>, WitnessError>(e));
                    }
                    return Err(e);
                },
            }
            q += 1;
        }
        proof {
            assert(v@.subrange(tb as int, tb as int) + concat_trimmed(lsv, j + 1) =~= concat_trimmed(lsv, j + 1));
        }
        j += 1;
    }
    proof {
        assert(concat_trimmed(lsv, j as int) == Seq::<char>::empty());
        assert(colors@ + Seq::<u8>::empty() =~= colors@);
    }
    Ok(colors)
}

/// Read the members of a code witness.
fn read_members(v: &Vec<char>, ls: &Vec<(usize, usize)>, d: usize) -> (r: Result<Vec<u32>, WitnessError>)
    requires
        forall|i: int| 0 <= i < ls@.len() ==> #[trigger] ls@[i].0 <= ls@[i].1 <= v@.len(),
    ensures
        match r {
            Ok(ms) => code_members(pieces(v@, ls@), d as int) == Ok::<Seq<u32>, WitnessError>(ms@),
            Err(e) => code_members(pieces(v@, ls@), d as int) == Err::<Seq<u32>, WitnessError>(e),
        },
{
    let ghost lsv = pieces(v@, ls@);
    let ghost target = code_members(lsv, d as int);
    let mut members: Vec<u32> = Vec::new();
    let mut j = d;
    proof {
        match code_members(lsv, d as int) {
            Ok(x) => { assert(members@ + x =~= x); },
            Err(_) => {},
        }
    }
    while j < ls.len()
        invariant
            forall|i: int| 0 <= i < ls@.len() ==> #[trigger] ls@[i].0 <= ls@[i].1 <= v@.len(),
            lsv == pieces(v@, ls@),
            target == code_members(lsv, d as int),
            d <= j || ls@.len() <= j,
            target == prepend(members@, code_members(lsv, j as int)),
        decreases ls@.len() - j,
    {
        let (a, b) = ls[j];
        let (ta, tb) = trim_range(v, a, b);
        proof {
            assert(lsv[j as int] == v@.subrange(a as int, b as int));
        }
        let ghost t = v@.subrange(ta as int, tb as int);
        assert(t == trim(lsv[j as int]));
        if ta < tb {
            match parse_u32_range(v, ta, tb) {
                Some(x) => {
                    proof {
                        assert(code_members(lsv, j as int) == prepend(seq![x], code_members(lsv, j + 1)));
                        lemma_prepend_prepend(members@, seq![x], code_members(lsv, j + 1));
                    }
                    let ghost before = members@;
                    members.push(x);
                    proof {
                        assert(members@ =~= before + seq![x]);
                    }
                },
                None => {
                    proof {
                        assert(code_members(lsv, j as int) == Err::<Seq<u32>, WitnessError>(WitnessError::BadVertexIndex));
                    }
                    return Err(WitnessError::BadVertexIndex);
                },
            }
        } else {
            assert(code_members(lsv, j as int) == code_members(lsv, j + 1));
        }
        j += 1;
    }
    proof {
        assert(members@ + Seq::<u32>::empty() =~= members@);
    }
    Ok(members)
}

impl Witness {
    /// Parse a witness text.
    pub fn from_text(text: &str) -> (r: Result<Witness, WitnessError>)
        ensures
            result_view(r) == parse_spec(text@),
    {
        let v = str_chars(text);
        let ls = line_ranges(&v);
        let ghost lsv = pieces(v@, ls@);
        assert(lsv == split_lines(text@));
        let (fa, fb) = piece_or_empty(&ls, 0, 0);
        proof {
            if ls@.len() > 0 {
                assert(lsv[0] == v@.subrange(fa as int, fb as int));
            } else {
                assert(v@.subrange(0, 0) =~= Seq::<char>::empty());
            }
        }
        let hdr = word_ranges(&v, fa, fb);
        if hdr.len() != 2 || !range_is(&v, hdr[0].0, hdr[0].1, "odd835-witness") {
            proof {
                if hdr@.len() == 2 {
                    assert(pieces(v@, hdr@)[0] == v@.subrange(hdr@[0].0 as int, hdr@[0].1 as int));
                }
            }
            return Err(WitnessError::NotAWitness);
        }
        proof {
            assert(pieces(v@, hdr@)[0] == v@.subrange(hdr@[0].0 as int, hdr@[0].1 as int));
            assert(pieces(v@, hdr@)[1] == v@.subrange(hdr@[1].0 as int, hdr@[1].1 as int));
        }
        let ver = match parse_u32_range(&v, hdr[1].0, hdr[1].1) {
            Some(x) => x,
            None => {
                return Err(WitnessError::BadVersion);
            },
        };
        if ver != 1 {
            return Err(WitnessError::UnsupportedVersion { version: ver });
        }
        // header
        let mut kind: (usize, usize) = (0, 0);
        let mut k: u32 = 0;
        let mut vertices: u64 = 0;
        let mut colors: Option<u32> = None;
        let mut m: Option<u64> = None;
        let mut i: usize = 1;
        let mut d: usize = 0;
        let ghost init: HeaderState = (Seq::empty(), 0u32, 0u64, None, None);
        proof {
            assert(v@.subrange(0, 0) =~= Seq::<char>::empty());
            assert(preamble_ok(text@));
        }
        loop
            invariant
                forall|q: int| 0 <= q < ls@.len() ==> #[trigger] ls@[q].0 <= ls@[q].1 <= v@.len(),
                lsv == pieces(v@, ls@),
                lsv == split_lines(text@),
                preamble_ok(text@),
                init == (Seq::<char>::empty(), 0u32, 0u64, None::<u32>, None::<u64>),
                1 <= i,
                kind.0 <= kind.1 <= v@.len(),
                scan_header(lsv, i as int, (v@.subrange(kind.0 as int, kind.1 as int), k, vertices, colors, m))
                    == scan_header(lsv, 1, init),
            ensures
                scan_header(lsv, 1, init) == Ok::<(HeaderState, int), WitnessError>(
                    ((v@.subrange(kind.0 as int, kind.1 as int), k, vertices, colors, m), i + 1),
                ),
                i < ls@.len(),
                d == i + 1,
            decreases ls@.len() - i,
        {
            if i >= ls.len() {
                return Err(WitnessError::NoDataMarker);
            }
            let (a, b) = ls[i];
            let (ta, tb) = trim_range(&v, a, b);
            let ghost st: HeaderState = (v@.subrange(kind.0 as int, kind.1 as int), k, vertices, colors, m);
            proof {
                assert(lsv[i as int] == v@.subrange(a as int, b as int));
            }
            if range_is(&v, ta, tb, "data") {
                d = i + 1;
                break;
            }
            let ws = word_ranges(&v, ta, tb);
            let (ka, kb) = piece_or_empty(&ws, 0, ta);
            let (va, vb) = piece_or_empty(&ws, 1, ta);
            proof {
                let w = pieces(v@, ws@);
                assert(v@.subrange(ta as int, ta as int) =~= Seq::<char>::empty());
                if ws@.len() > 0 {
                    assert(w[0] == v@.subrange(ka as int, kb as int));
                }
                if ws@.len() > 1 {
                    assert(w[1] == v@.subrange(va as int, vb as int));
                }
            }
            if range_is(&v, ka, kb, "kind") {
                kind = (va, vb);
            } else if range_is(&v, ka, kb, "k") {
                match parse_u32_range(&v, va, vb) {
                    Some(x) => {
                        k = x;
                    },
                    None => {
                        return Err(WitnessError::BadHeaderValue);
                    },
                }
            } else if range_is(&v, ka, kb, "vertices") {
                match parse_u64_range(&v, va, vb) {
                    Some(x) => {
                        vertices = x;
                    },
                    None => {
                        return Err(WitnessError::BadHeaderValue);
                    },
                }
            } else if range_is(&v, ka, kb, "colors") {
                match parse_u32_range(&v, va, vb) {
                    Some(x) => {
                        colors = Some(x);
                    },
                    None => {
                        return Err(WitnessError::BadHeaderValue);
                    },
                }
            } else if range_is(&v, ka, kb, "m") {
                match parse_u64_range(&v, va, vb) {
                    Some(x) => {
                        m = Some(x);
                    },
                    None => {
                        return Err(WitnessError::BadHeaderValue);
                    },
                }
            } else if range_is(&v, ka, kb, "n") || ka == kb {
            } else {
                return Err(WitnessError::UnknownHeaderKey);
            }
            i += 1;
        }
        if k < 2 || k > 16 {
            return Err(WitnessError::KOutOfRange { k });
        }
        let ev = num_vertices(k);
        if vertices != ev {
            return Err(WitnessError::VertexCount { declared: vertices, expected: ev });
        }
        if range_is(&v, kind.0, kind.1, "partition") {
            if colors != Some(k + 1) {
                return Err(WitnessError::ColourCount { colors, wanted: k + 1 });
            }
            let cs = match decode_payload(&v, &ls, d) {
                Ok(cs) => cs,
                Err(e) => {
                    return Err(e);
                },
            };
            if cs.len() as u64 != ev {
                return Err(WitnessError::PayloadLength { found: cs.len() as u64, expected: ev });
            }
            Ok(Witness::Partition { k, colors: cs })
        } else if range_is(&v, kind.0, kind.1, "code") {
            let ms = match read_members(&v, &ls, d) {
                Ok(ms) => ms,
                Err(e) => {
                    return Err(e);
                },
            };
            match m {
                Some(mm) => {
                    if ms.len() as u64 != mm {
                        return Err(WitnessError::MemberCount { declared: mm, found: ms.len() as u64 });
                    }
                    Ok(Witness::Code { k, members: ms })
                },
                None => Ok(Witness::Code { k, members: ms }),
            }
        } else {
            Err(WitnessError::UnknownKind)
        }
    }
}


// ---------------------------------------------------------------------------
// Reading back what was written
// ---------------------------------------------------------------------------

proof fn lemma_concat_trimmed_shift(a: Seq<Seq<char>>, b: Seq<Seq<char>>, j: int)
    requires
        0 <= j,
    ensures
        concat_trimmed(a + b, a.len() + j) == concat_trimmed(b, j),
    decreases b.len() - j,
{
    if j < b.len() {
        lemma_concat_trimmed_shift(a, b, j + 1);
        assert((a + b)[a.len() + j] == b[j]);
    }
}

proof fn lemma_code_members_shift(a: Seq<Seq<char>>, b: Seq<Seq<char>>, j: int)
    requires
        0 <= j,
    ensures
        code_members(a + b, a.len() + j) == code_members(b, j),
    decreases b.len() - j,
{
    if j < b.len() {
        lemma_code_members_shift(a, b, j + 1);
        assert((a + b)[a.len() + j] == b[j]);
    }
}

proof fn lemma_strip_nl_one(c: char)
    ensures
        strip_nl(seq![c]) == (if c == '\n' {
            Seq::<char>::empty()
        } else {
            seq![c]
        }),
{
    assert(seq![c].drop_last() =~= Seq::<char>::empty());
    assert(strip_nl(Seq::<char>::empty()) == Seq::<char>::empty());
    assert(seq![c].last() == c);
    assert(Seq::<char>::empty() + seq![c] =~= seq![c]);
    assert(Seq::<char>::empty() + Seq::<char>::empty() =~= Seq::<char>::empty());
}

proof fn lemma_trim_empty()
    ensures
        trim(Seq::<char>::empty()) == Seq::<char>::empty(),
{
    assert(crate::util::trim_start(Seq::<char>::empty()) == Seq::<char>::empty());
}

/// Splitting into lines, trimming each and joining them again only takes
/// out the line breaks, where nothing else is whitespace.
proof fn lemma_concat_split(s: Seq<char>)
    requires
        plain_lines(s),
    ensures
        concat_trimmed(split_lines(s), 0) == strip_nl(s),
    decreases s.len(),
{
    if s.len() == 0 {
        assert(split_lines(s) =~= Seq::<Seq<char>>::empty());
    } else {
        let e = line_len(s) as int;
        lemma_line_len_facts(s);
        let x = s.take(e);
        assert(no_newline(x)) by {
            assert forall|i: int| 0 <= i < x.len() implies #[trigger] x[i] != '\n' by {
                assert(x[i] == s[i]);
            }
        }
        assert(trim(x) == x) by {
            if e > 0 {
                assert(x[0] == s[0]);
                assert(x.last() == s[e - 1]);
                lemma_trim_id(x);
            } else {
                assert(x =~= Seq::<char>::empty());
                lemma_trim_empty();
            }
        }
        lemma_strip_nl_id(x);
        if e >= s.len() {
            assert(x =~= s);
            assert(split_lines(s) == seq![s]);
            assert(concat_trimmed(seq![s], 1) == Seq::<char>::empty());
            assert(concat_trimmed(seq![s], 0) =~= trim(s) + concat_trimmed(seq![s], 1));
        } else {
            let r = s.skip(e + 1);
            assert(plain_lines(r)) by {
                assert forall|i: int| 0 <= i < r.len() implies #[trigger] r[i] == '\n' || !is_ws(r[i]) by {
                    assert(r[i] == s[e + 1 + i]);
                }
            }
            lemma_concat_split(r);
            let ls = split_lines(s);
            assert(ls == seq![x] + split_lines(r));
            lemma_concat_trimmed_shift(seq![x], split_lines(r), 0);
            assert(ls[0] == x);
            assert(concat_trimmed(ls, 0) == trim(x) + concat_trimmed(ls, 1));
            assert(s =~= x + seq!['\n'] + r);
            lemma_strip_nl_add(x + seq!['\n'], r);
            lemma_strip_nl_add(x, seq!['\n']);
            lemma_strip_nl_one('\n');
            assert(strip_nl(s) =~= x + strip_nl(r));
        }
    }
}

/// The digit of a colour that has one is no whitespace and reads back.
proof fn lemma_digit_of(c: u8)
    requires
        c <= 35,
    ensures
        !is_ws(digit_of(c)),
        digit_of(c) != '\n',
        char_digit(digit_of(c)) == Some(c),
{
}

/// The digits of the colours.
pub open spec fn colour_digits(cs: Seq<u8>) -> Seq<char> {
    cs.map_values(|c: u8| digit_of(c))
}

proof fn lemma_wrapped_digits(cs: Seq<u8>, i: nat)
    requires
        i <= cs.len(),
        forall|j: int| 0 <= j < cs.len() ==> #[trigger] cs[j] <= 35,
    ensures
        plain_lines(wrapped(cs, i)),
        strip_nl(wrapped(cs, i)) == colour_digits(cs.take(i as int)),
    decreases i,
{
    if i == 0 {
        assert(colour_digits(cs.take(0)) =~= Seq::<char>::empty());
    } else {
        let i1 = (i - 1) as nat;
        lemma_wrapped_digits(cs, i1);
        let c = cs[i1 as int];
        lemma_digit_of(c);
        let a = wrapped(cs, i1);
        let t = if i % 72 == 0 {
            seq!['\n']
        } else {
            Seq::<char>::empty()
        };
        assert(wrapped(cs, i) == a + seq![digit_of(c)] + t);
        assert(plain_lines(wrapped(cs, i))) by {
            let w = wrapped(cs, i);
            assert forall|q: int| 0 <= q < w.len() implies #[trigger] w[q] == '\n' || !is_ws(w[q]) by {
                if q < a.len() {
                    assert(w[q] == a[q]);
                } else if q == a.len() {
                    assert(w[q] == digit_of(c));
                } else {
                    assert(w[q] == '\n');
                }
            }
        }
        lemma_strip_nl_add(a + seq![digit_of(c)], t);
        lemma_strip_nl_add(a, seq![digit_of(c)]);
        lemma_strip_nl_one(digit_of(c));
        lemma_strip_nl_one('\n');
        assert(strip_nl(Seq::<char>::empty()) =~= Seq::<char>::empty());
        assert(strip_nl(t) =~= Seq::<char>::empty());
        assert(colour_digits(cs.take(i as int)) =~= colour_digits(cs.take(i1 as int)).push(digit_of(c)));
        assert(strip_nl(wrapped(cs, i)) =~= colour_digits(cs.take(i as int)));
    }
}

proof fn lemma_payload_digits(cs: Seq<u8>)
    requires
        forall|j: int| 0 <= j < cs.len() ==> #[trigger] cs[j] <= 35,
    ensures
        plain_lines(partition_payload(cs)),
        strip_nl(partition_payload(cs)) == colour_digits(cs),
{
    lemma_wrapped_digits(cs, cs.len());
    let a = wrapped(cs, cs.len());
    let t = if cs.len() % 72 != 0 {
        seq!['\n']
    } else {
        Seq::<char>::empty()
    };
    assert(cs.take(cs.len() as int) =~= cs);
    assert(plain_lines(a + t)) by {
        assert forall|q: int| 0 <= q < (a + t).len() implies #[trigger] (a + t)[q] == '\n' || !is_ws((a + t)[q]) by {
            if q < a.len() {
                assert((a + t)[q] == a[q]);
            }
        }
    }
    lemma_strip_nl_add(a, t);
    lemma_strip_nl_one('\n');
    assert(strip_nl(Seq::<char>::empty()) =~= Seq::<char>::empty());
    assert(strip_nl(t) =~= Seq::<char>::empty());
    assert(strip_nl(a + t) =~= colour_digits(cs));
}

proof fn lemma_decode_digits(cs: Seq<u8>)
    requires
        forall|j: int| 0 <= j < cs.len() ==> #[trigger] cs[j] <= 35,
    ensures
        decode_colours(colour_digits(cs)) == Ok::<Seq<u8>, WitnessError>(cs),
    decreases cs.len(),
{
    let p = colour_digits(cs);
    if cs.len() == 0 {
        assert(p =~= Seq::<char>::empty());
        assert(cs =~= Seq::<u8>::empty());
    } else {
        let t = cs.drop_first();
        assert(p.drop_first() =~= colour_digits(t));
        lemma_decode_digits(t);
        lemma_digit_of(cs[0]);
        assert(p.len() == cs.len());
        assert(p[0] == digit_of(cs[0]));
        assert(decode_colours(p) == prepend(seq![cs[0]], decode_colours(p.drop_first())));
        assert(seq![cs[0]] + t =~= cs);
    }
}

/// The member lines of a code: one decimal per member.
pub open spec fn member_lines(ms: Seq<u32>, i: nat) -> Seq<Seq<char>> {
    Seq::new(i, |j: int| decimal(ms[j] as nat))
}

proof fn lemma_code_payload_joined(ms: Seq<u32>, i: nat)
    requires
        i <= ms.len(),
    ensures
        code_payload(ms, i) == joined(member_lines(ms, i)),
        all_no_newline(member_lines(ms, i)),
    decreases i,
{
    let l = member_lines(ms, i);
    if i == 0 {
        assert(l =~= Seq::<Seq<char>>::empty());
    } else {
        lemma_code_payload_joined(ms, (i - 1) as nat);
        assert(l.drop_last() =~= member_lines(ms, (i - 1) as nat));
        assert(l.last() == decimal(ms[i - 1] as nat));
    }
    assert forall|j: int| 0 <= j < l.len() implies no_newline(#[trigger] l[j]) by {
        lemma_numeral_decimal(ms[j] as nat);
    }
}

proof fn lemma_code_members_decimals(ms: Seq<u32>, j: int)
    requires
        0 <= j <= ms.len(),
    ensures
        code_members(member_lines(ms, ms.len()), j) == Ok::<Seq<u32>, WitnessError>(
            ms.subrange(j, ms.len() as int),
        ),
    decreases ms.len() - j,
{
    let l = member_lines(ms, ms.len());
    if j < ms.len() {
        lemma_code_members_decimals(ms, j + 1);
        let x = decimal(ms[j] as nat);
        assert(l[j] == x);
        lemma_numeral_decimal(ms[j] as nat);
        assert(!is_ws(x[0]));
        assert(!is_ws(x[x.len() - 1]));
        lemma_trim_id(x);
        assert(parse_u32(x) == Some(ms[j]));
        assert(seq![ms[j]] + ms.subrange(j + 1, ms.len() as int) =~= ms.subrange(j, ms.len() as int));
    } else {
        assert(ms.subrange(j, ms.len() as int) =~= Seq::<u32>::empty());
    }
}


/// A header line without its break: `key value`.
pub open spec fn kv(key: Seq<char>, val: nat) -> Seq<char> {
    key + seq![' '] + decimal(val)
}

proof fn lemma_kv(key: Seq<char>, val: nat)
    requires
        key.len() > 0,
        no_space(key),
    ensures
        no_newline(kv(key, val)),
        trim(kv(key, val)) == kv(key, val),
        words(kv(key, val)) == seq![key, decimal(val)],
        kv(key, val)[0] == key[0],
        header_line(key, val) == kv(key, val) + seq!['\n'],
{
    lemma_numeral_decimal(val);
    lemma_pair_line(key, decimal(val));
}

/// The first line, `odd835-witness 1`, and the facts the reader needs of it.
proof fn lemma_magic_line()
    ensures
        "odd835-witness 1\n"@ =~= ("odd835-witness"@ + seq![' '] + "1"@) + seq!['\n'],
        no_newline("odd835-witness"@ + seq![' '] + "1"@),
        words("odd835-witness"@ + seq![' '] + "1"@) == seq!["odd835-witness"@, "1"@],
        parse_u32("1"@) == Some(1u32),
{
    reveal_strlit("odd835-witness 1\n");
    reveal_strlit("odd835-witness");
    reveal_strlit("1");
    let a = "odd835-witness"@;
    assert(no_space(a)) by {
        assert forall|i: int| 0 <= i < a.len() implies !is_ws(#[trigger] a[i]) by {}
    }
    assert(no_space("1"@));
    lemma_pair_line(a, "1"@);
    lemma_numeral_decimal(1);
    assert(decimal(1) =~= "1"@);
}

/// A `kind` line.
proof fn lemma_kind_line(name: Seq<char>)
    requires
        name.len() > 0,
        no_space(name),
    ensures
        no_newline("kind"@ + seq![' '] + name),
        trim("kind"@ + seq![' '] + name) == "kind"@ + seq![' '] + name,
        words("kind"@ + seq![' '] + name) == seq!["kind"@, name],
        ("kind"@ + seq![' '] + name)[0] == 'k',
{
    reveal_strlit("kind");
    assert(no_space("kind"@));
    lemma_pair_line("kind"@, name);
}

/// The `data` line and the keys, as the reader compares them.
proof fn lemma_keys()
    ensures
        "data\n"@ =~= "data"@ + seq!['\n'],
        no_newline("data"@),
        trim("data"@) == "data"@,
        "data"@[0] == 'd',
        "kind partition\n"@ =~= ("kind"@ + seq![' '] + "partition"@) + seq!['\n'],
        "kind code\n"@ =~= ("kind"@ + seq![' '] + "code"@) + seq!['\n'],
        "partition"@.len() > 0 && no_space("partition"@),
        "code"@.len() > 0 && no_space("code"@),
        "partition"@ != "code"@,
        "k"@.len() > 0 && no_space("k"@) && "k"@[0] == 'k',
        "n"@.len() > 0 && no_space("n"@) && "n"@[0] == 'n',
        "m"@.len() > 0 && no_space("m"@) && "m"@[0] == 'm',
        "vertices"@.len() > 0 && no_space("vertices"@) && "vertices"@[0] == 'v',
        "colors"@.len() > 0 && no_space("colors"@) && "colors"@[0] == 'c',
        "k"@ != "kind"@,
        "n"@ != "kind"@ && "n"@ != "k"@ && "n"@ != "vertices"@ && "n"@ != "colors"@ && "n"@ != "m"@,
        "vertices"@ != "kind"@ && "vertices"@ != "k"@,
        "colors"@ != "kind"@ && "colors"@ != "k"@ && "colors"@ != "vertices"@,
        "m"@ != "kind"@ && "m"@ != "k"@ && "m"@ != "vertices"@ && "m"@ != "colors"@,
{
    reveal_strlit("data\n");
    reveal_strlit("data");
    reveal_strlit("kind partition\n");
    reveal_strlit("kind code\n");
    reveal_strlit("kind");
    reveal_strlit("partition");
    reveal_strlit("code");
    reveal_strlit("k");
    reveal_strlit("n");
    reveal_strlit("m");
    reveal_strlit("vertices");
    reveal_strlit("colors");
    let d = "data"@;
    assert(no_space(d)) by {
        assert forall|i: int| 0 <= i < d.len() implies !is_ws(#[trigger] d[i]) by {}
    }
    lemma_trim_id(d);
    let p = "partition"@;
    assert(no_space(p)) by {
        assert forall|i: int| 0 <= i < p.len() implies !is_ws(#[trigger] p[i]) by {}
    }
    let c = "code"@;
    assert(no_space(c)) by {
        assert forall|i: int| 0 <= i < c.len() implies !is_ws(#[trigger] c[i]) by {}
    }
    let v = "vertices"@;
    assert(no_space(v)) by {
        assert forall|i: int| 0 <= i < v.len() implies !is_ws(#[trigger] v[i]) by {}
    }
    let o = "colors"@;
    assert(no_space(o)) by {
        assert forall|i: int| 0 <= i < o.len() implies !is_ws(#[trigger] o[i]) by {}
    }
    assert(no_space("k"@));
    assert(no_space("n"@));
    assert(no_space("m"@));
    assert("n"@[0] != "k"@[0]);
    assert("n"@[0] != "m"@[0]);
    assert("m"@[0] != "k"@[0]);
}


/// The header of a witness text, line by line, written and split again.
proof fn lemma_header_split(h: Seq<Seq<char>>, pieces_: Seq<Seq<char>>, payload: Seq<char>)
    requires
        h.len() == pieces_.len(),
        h.len() > 0,
        all_no_newline(h),
        forall|i: int| 0 <= i < h.len() ==> #[trigger] pieces_[i] == h[i] + seq!['\n'],
    ensures
        split_lines(concat_pieces(pieces_, h.len() as int) + payload) == h + split_lines(payload),
{
    lemma_concat_pieces_joined(h, pieces_, h.len() as int);
    assert(h.take(h.len() as int) =~= h);
    lemma_split_joined(h, payload);
}

/// The first `i` pieces, one after another.
pub open spec fn concat_pieces(pieces_: Seq<Seq<char>>, i: int) -> Seq<char>
    decreases i,
{
    if i <= 0 {
        Seq::empty()
    } else {
        concat_pieces(pieces_, i - 1) + pieces_[i - 1]
    }
}

proof fn lemma_concat_pieces_joined(h: Seq<Seq<char>>, pieces_: Seq<Seq<char>>, i: int)
    requires
        0 <= i <= h.len(),
        h.len() == pieces_.len(),
        forall|j: int| 0 <= j < h.len() ==> #[trigger] pieces_[j] == h[j] + seq!['\n'],
    ensures
        concat_pieces(pieces_, i) == joined(h.take(i)),
    decreases i,
{
    if i == 0 {
        assert(h.take(0) =~= Seq::<Seq<char>>::empty());
    } else {
        lemma_concat_pieces_joined(h, pieces_, i - 1);
        lemma_joined_push(h.take(i - 1), h[i - 1]);
        assert(h.take(i - 1).push(h[i - 1]) =~= h.take(i));
        assert(concat_pieces(pieces_, i) =~= joined(h.take(i)));
    }
}

proof fn lemma_partition_roundtrip(k: u32, cs: Seq<u8>)
    requires
        2 <= k <= 16,
        cs.len() == binom((2 * k - 1) as nat, (k - 1) as nat),
        forall|i: int| 0 <= i < cs.len() ==> #[trigger] cs[i] <= 35,
    ensures
        parse_spec(render_spec(WitnessView::Partition { k, colors: cs })) == Ok::<WitnessView, WitnessError>(
            WitnessView::Partition { k, colors: cs },
        ),
{
    let w = WitnessView::Partition { k, colors: cs };
    lemma_magic_line();
    lemma_keys();
    crate::bits::lemma_binom_fits((2 * k - 1) as nat, (k - 1) as nat);
    let nv = cs.len();
    let l0 = "odd835-witness"@ + seq![' '] + "1"@;
    let l1 = "kind"@ + seq![' '] + "partition"@;
    let lk = kv("k"@, k as nat);
    let ln = kv("n"@, (2 * k - 1) as nat);
    let lv = kv("vertices"@, nv);
    let lc = kv("colors"@, (k + 1) as nat);
    let lm = kv("m"@, nv / (k + 1) as nat);
    let ld = "data"@;
    lemma_kind_line("partition"@);
    lemma_kv("k"@, k as nat);
    lemma_kv("n"@, (2 * k - 1) as nat);
    lemma_kv("vertices"@, nv);
    lemma_kv("colors"@, (k + 1) as nat);
    lemma_kv("m"@, nv / (k + 1) as nat);
    let h = seq![l0, l1, lk, ln, lv, lc, lm, ld];
    let pcs = seq![
        "odd835-witness 1\n"@,
        "kind partition\n"@,
        header_line("k"@, k as nat),
        header_line("n"@, (2 * k - 1) as nat),
        header_line("vertices"@, nv),
        header_line("colors"@, (k + 1) as nat),
        header_line("m"@, nv / (k + 1) as nat),
        "data\n"@,
    ];
    let payload = partition_payload(cs);
    assert(render_spec(w) =~= concat_pieces(pcs, 8) + payload) by {
        reveal_with_fuel(concat_pieces, 9);
    }
    assert(all_no_newline(h));
    lemma_header_split(h, pcs, payload);
    let ls = split_lines(render_spec(w));
    assert(ls == h + split_lines(payload));
    assert(ls[0] == l0 && ls[1] == l1 && ls[2] == lk && ls[3] == ln && ls[4] == lv);
    assert(ls[5] == lc && ls[6] == lm && ls[7] == ld);
    let st0 = (Seq::<char>::empty(), 0u32, 0u64, None::<u32>, None::<u64>);
    let st1 = ("partition"@, 0u32, 0u64, None::<u32>, None::<u64>);
    let st2 = ("partition"@, k, 0u64, None::<u32>, None::<u64>);
    let st4 = ("partition"@, k, nv as u64, None::<u32>, None::<u64>);
    let st5 = ("partition"@, k, nv as u64, Some((k + 1) as u32), None::<u64>);
    let st6 = ("partition"@, k, nv as u64, Some((k + 1) as u32), Some((nv / (k + 1) as nat) as u64));
    lemma_numeral_decimal(k as nat);
    lemma_numeral_decimal(nv);
    lemma_numeral_decimal((k + 1) as nat);
    lemma_numeral_decimal(nv / (k + 1) as nat);
    assert(scan_header(ls, 7, st6) == Ok::<(HeaderState, int), WitnessError>((st6, 8)));
    assert(scan_header(ls, 6, st5) == scan_header(ls, 7, st6));
    assert(scan_header(ls, 5, st4) == scan_header(ls, 6, st5));
    assert(scan_header(ls, 4, st2) == scan_header(ls, 5, st4));
    assert(scan_header(ls, 3, st2) == scan_header(ls, 4, st2));
    assert(scan_header(ls, 2, st1) == scan_header(ls, 3, st2));
    assert(scan_header(ls, 1, st0) == scan_header(ls, 2, st1));
    lemma_payload_digits(cs);
    lemma_concat_split(payload);
    lemma_concat_trimmed_shift(h, split_lines(payload), 0);
    lemma_decode_digits(cs);
    assert(concat_trimmed(ls, 8) == colour_digits(cs));
}


#[verifier::rlimit(40)]
proof fn lemma_code_roundtrip(k: u32, ms: Seq<u32>)
    requires
        2 <= k <= 16,
        ms.len() <= u64::MAX,
    ensures
        parse_spec(render_spec(WitnessView::Code { k, members: ms })) == Ok::<WitnessView, WitnessError>(
            WitnessView::Code { k, members: ms },
        ),
{
    let w = WitnessView::Code { k, members: ms };
    lemma_magic_line();
    lemma_keys();
    let ev = binom((2 * k - 1) as nat, (k - 1) as nat);
    crate::bits::lemma_binom_fits((2 * k - 1) as nat, (k - 1) as nat);
    let nm = ms.len();
    let l0 = "odd835-witness"@ + seq![' '] + "1"@;
    let l1 = "kind"@ + seq![' '] + "code"@;
    let lk = kv("k"@, k as nat);
    let ln = kv("n"@, (2 * k - 1) as nat);
    let lv = kv("vertices"@, ev);
    let lm = kv("m"@, nm);
    let ld = "data"@;
    lemma_kind_line("code"@);
    lemma_kv("k"@, k as nat);
    lemma_kv("n"@, (2 * k - 1) as nat);
    lemma_kv("vertices"@, ev);
    lemma_kv("m"@, nm);
    let h = seq![l0, l1, lk, ln, lv, lm, ld];
    let pcs = seq![
        "odd835-witness 1\n"@,
        "kind code\n"@,
        header_line("k"@, k as nat),
        header_line("n"@, (2 * k - 1) as nat),
        header_line("vertices"@, ev),
        header_line("m"@, nm),
        "data\n"@,
    ];
    let payload = code_payload(ms, nm);
    assert(render_spec(w) =~= concat_pieces(pcs, 7) + payload) by {
        reveal_with_fuel(concat_pieces, 8);
    }
    assert(all_no_newline(h));
    lemma_header_split(h, pcs, payload);
    let ls = split_lines(render_spec(w));
    assert(ls == h + split_lines(payload));
    assert(ls[0] == l0 && ls[1] == l1 && ls[2] == lk && ls[3] == ln && ls[4] == lv);
    assert(ls[5] == lm && ls[6] == ld);
    let st0 = (Seq::<char>::empty(), 0u32, 0u64, None::<u32>, None::<u64>);
    let st1 = ("code"@, 0u32, 0u64, None::<u32>, None::<u64>);
    let st2 = ("code"@, k, 0u64, None::<u32>, None::<u64>);
    let st4 = ("code"@, k, ev as u64, None::<u32>, None::<u64>);
    let st5 = ("code"@, k, ev as u64, None::<u32>, Some(nm as u64));
    lemma_numeral_decimal(k as nat);
    lemma_numeral_decimal(ev);
    lemma_numeral_decimal(nm);
    assert(scan_header(ls, 6, st5) == Ok::<(HeaderState, int), WitnessError>((st5, 7)));
    assert(scan_header(ls, 5, st4) == scan_header(ls, 6, st5));
    assert(scan_header(ls, 4, st2) == scan_header(ls, 5, st4));
    assert(scan_header(ls, 3, st2) == scan_header(ls, 4, st2));
    assert(scan_header(ls, 2, st1) == scan_header(ls, 3, st2));
    assert(scan_header(ls, 1, st0) == scan_header(ls, 2, st1));
    lemma_code_payload_joined(ms, nm);
    let ml = member_lines(ms, nm);
    lemma_split_joined(ml, Seq::empty());
    assert(joined(ml) + Seq::<char>::empty() =~= payload);
    assert(split_lines(Seq::<char>::empty()) =~= Seq::<Seq<char>>::empty());
    assert(split_lines(payload) =~= ml);
    lemma_code_members_shift(h, ml, 0);
    lemma_code_members_decimals(ms, 0);
    assert(ms.subrange(0, nm as int) =~= ms);
    assert(code_members(ls, 7) == Ok::<Seq<u32>, WitnessError>(ms));
}

/// Reading back the text of a witness gives the same witness: for every `k`
/// the reader accepts, for a partition with one colour per vertex and a
/// digit for each colour, and for any code (whose member count, as any
/// vector length, fits a `u64`).
pub proof fn law_witness_roundtrip(w: WitnessView)
    requires
        match w {
            WitnessView::Partition { k, colors } => {
                &&& 2 <= k <= 16
                &&& colors.len() == binom((2 * k - 1) as nat, (k - 1) as nat)
                &&& forall|i: int| 0 <= i < colors.len() ==> #[trigger] colors[i] <= 35
            },
            WitnessView::Code { k, members } => 2 <= k <= 16 && members.len() <= u64::MAX,
        },
    ensures
        parse_spec(render_spec(w)) == Ok::<WitnessView, WitnessError>(w),
{
    match w {
        WitnessView::Partition { k, colors } => lemma_partition_roundtrip(k, colors),
        WitnessView::Code { k, members } => lemma_code_roundtrip(k, members),
    }
}

} // verus!
