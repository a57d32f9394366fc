//! Line, word and unsigned-integer scanning over character sequences, with
//! the meanings of `str::lines`, `str::split_whitespace` and `u32::from_str`.
use vstd::prelude::*;
use crate::util::{is_ws, is_digit, digits_value, is_whitespace, digits_u64};

verus! {

/// Length of the first line of `s` (up to, not including, the first `\n`).
pub open spec fn line_len(s: Seq<char>) -> nat
    decreases s.len(),
{
    if s.len() == 0 || s[0] == '\n' {
        0
    } else {
        1 + line_len(s.drop_first())
    }
}

/// The lines of `s`, split at `\n`; a final empty piece is dropped, as
/// `str::lines` does.
pub open spec fn split_lines(s: Seq<char>) -> Seq<Seq<char>>
    decreases s.len(),
{
    if s.len() == 0 {
        Seq::empty()
    } else {
        let e = line_len(s) as int;
        if e >= s.len() {
            seq![s]
        } else {
            seq![s.take(e)] + split_lines(s.skip(e + 1))
        }
    }
}

/// Number of leading non-whitespace characters of `s`.
pub open spec fn tok_len(s: Seq<char>) -> nat
    decreases s.len(),
{
    if s.len() == 0 || is_ws(s[0]) {
        0
    } else {
        1 + tok_len(s.drop_first())
    }
}

/// The whitespace-separated words of `s`, as `str::split_whitespace`.
pub open spec fn words(s: Seq<char>) -> Seq<Seq<char>>
    decreases s.len(),
{
    if s.len() == 0 {
        Seq::empty()
    } else if is_ws(s[0]) {
        words(s.drop_first())
    } else {
        let e = tok_len(s) as int;
        proof {
            lemma_tok_len_pos(s);
        }
        seq![s.take(e)] + words(s.skip(e))
    }
}

/// The value of an unsigned decimal numeral with an optional leading `+`,
/// as the integer `FromStr` impls read it (no bound applied).
pub open spec fn numeral(s: Seq<char>) -> Option<nat> {
    let d = unsigned_digits(s);
    if d.len() > 0 && all_digits(d) {
        Some(digits_value(d))
    } else {
        None
    }
}

/// `s` without one leading `+`.
pub open spec fn unsigned_digits(s: Seq<char>) -> Seq<char> {
    if s.len() > 0 && s[0] == '+' { s.drop_first() } else { s }
}

pub open spec fn all_digits(d: Seq<char>) -> bool {
    forall|i: int| 0 <= i < d.len() ==> is_digit(#[trigger] d[i])
}

/// `s.parse::<u32>()`.
pub open spec fn parse_u32(s: Seq<char>) -> Option<u32> {
    match numeral(s) {
        Some(v) => if v <= u32::MAX { Some(v as u32) } else { None },
        None => None,
    }
}

/// `s.parse::<u64>()`.
pub open spec fn parse_u64(s: Seq<char>) -> Option<u64> {
    match numeral(s) {
        Some(v) => if v <= u64::MAX { Some(v as u64) } else { None },
        None => None,
    }
}

/// A view of a list of ranges as the pieces of `v` they cover.
pub open spec fn pieces(v: Seq<char>, r: Seq<(usize, usize)>) -> Seq<Seq<char>> {
    r.map_values(|p: (usize, usize)| v.subrange(p.0 as int, p.1 as int))
}

/// End of the line that starts at `lo` (the index of the next `\n`, or `hi`).
fn line_end(v: &Vec<char>, lo: usize, hi: usize) -> (e: usize)
    requires
        lo <= hi <= v@.len(),
    ensures
        lo <= e <= hi,
        e - lo == line_len(v@.subrange(lo as int, hi as int)),
{
    let mut e = lo;
    while e < hi && v[e] != '\n'
        invariant
            lo <= e <= hi <= v@.len(),
            line_len(v@.subrange(lo as int, hi as int)) == (e - lo) + line_len(v@.subrange(e as int, hi as int)),
        decreases hi - e,
    {
        proof {
            assert(v@.subrange(e as int, hi as int).drop_first() =~= v@.subrange(e + 1, hi as int));
        }
        e += 1;
    }
    e
}

/// The ranges of the lines of `v`.
pub fn line_ranges(v: &Vec<char>) -> (r: Vec<(usize, usize)>)
    ensures
        pieces(v@, r@) == split_lines(v@),
        forall|i: int| 0 <= i < r@.len() ==> #[trigger] r@[i].0 <= r@[i].1 <= v@.len(),
{
    let mut out: Vec<(usize, usize)> = Vec::new();
    let mut i: usize = 0;
    let n = v.len();
    proof {
        assert(v@.subrange(0, n as int) =~= v@);
        assert(pieces(v@, out@) =~= Seq::<Seq<char>>::empty());
        assert(Seq::<Seq<char>>::empty() + split_lines(v@) =~= split_lines(v@));
    }
    while i < n
        invariant
            n == v@.len(),
            i <= n,
            forall|q: int| 0 <= q < out@.len() ==> #[trigger] out@[q].0 <= out@[q].1 <= n,
            pieces(v@, out@) + split_lines(v@.subrange(i as int, n as int)) == split_lines(v@),
        decreases n - i,
    {
        let e = line_end(v, i, n);
        let ghost rest = v@.subrange(i as int, n as int);
        let ghost before = out@;
        out.push((i, e));
        proof {
            assert(pieces(v@, out@) == pieces(v@, before).push(v@.subrange(i as int, e as int)));
            assert(rest.take((e - i) as int) =~= v@.subrange(i as int, e as int));
        }
        if e == n {
            proof {
                assert(split_lines(rest) == seq![rest]);
                assert(v@.subrange(n as int, n as int) =~= Seq::<char>::empty());
                assert(pieces(v@, before) + split_lines(rest) == pieces(v@, out@) + split_lines(v@.subrange(n as int, n as int)));
            }
            i = n;
        } else {
            proof {
                assert(rest.skip((e - i) + 1) =~= v@.subrange(e + 1, n as int));
                assert(split_lines(rest) == seq![v@.subrange(i as int, e as int)] + split_lines(v@.subrange(e + 1, n as int)));
                assert(pieces(v@, before) + split_lines(rest) == pieces(v@, out@) + split_lines(v@.subrange(e + 1, n as int)));
            }
            i = e + 1;
        }
    }
    proof {
        assert(v@.subrange(n as int, n as int) =~= Seq::<char>::empty());
        assert(pieces(v@, out@) + Seq::<Seq<char>>::empty() =~= pieces(v@, out@));
        assert(v@.subrange(0, n as int) =~= v@);
    }
    out
}

/// End of the word that starts at `lo`.
fn tok_end(v: &Vec<char>, lo: usize, hi: usize) -> (e: usize)
    requires
        lo <= hi <= v@.len(),
    ensures
        lo <= e <= hi,
        e - lo == tok_len(v@.subrange(lo as int, hi as int)),
{
    let mut e = lo;
    while e < hi && !is_whitespace(v[e])
        invariant
            lo <= e <= hi <= v@.len(),
            tok_len(v@.subrange(lo as int, hi as int)) == (e - lo) + tok_len(v@.subrange(e as int, hi as int)),
        decreases hi - e,
    {
        proof {
            assert(v@.subrange(e as int, hi as int).drop_first() =~= v@.subrange(e + 1, hi as int));
        }
        e += 1;
    }
    e
}

pub proof fn lemma_tok_len_pos(s: Seq<char>)
    requires
        s.len() > 0,
        !is_ws(s[0]),
    ensures
        1 <= tok_len(s) <= s.len(),
{
    lemma_tok_len_bound(s);
}

pub proof fn lemma_tok_len_bound(s: Seq<char>)
    ensures
        tok_len(s) <= s.len(),
    decreases s.len(),
{
    if s.len() > 0 {
        lemma_tok_len_bound(s.drop_first());
    }
}

/// The ranges of the words of `v[lo..hi]`.
pub fn word_ranges(v: &Vec<char>, lo: usize, hi: usize) -> (r: Vec<(usize, usize)>)
    requires
        lo <= hi <= v@.len(),
    ensures
        pieces(v@, r@) == words(v@.subrange(lo as int, hi as int)),
        forall|i: int| 0 <= i < r@.len() ==> lo <= #[trigger] r@[i].0 <= r@[i].1 <= hi,
{
    let mut out: Vec<(usize, usize)> = Vec::new();
    let mut i: usize = lo;
    while i < hi
        invariant
            lo <= i <= hi <= v@.len(),
            forall|q: int| 0 <= q < out@.len() ==> lo <= #[trigger] out@[q].0 <= out@[q].1 <= hi,
            pieces(v@, out@) + words(v@.subrange(i as int, hi as int)) == words(v@.subrange(lo as int, hi as int)),
        decreases hi - i,
    {
        let ghost rest = v@.subrange(i as int, hi as int);
        if is_whitespace(v[i]) {
            proof {
                assert(rest.drop_first() =~= v@.subrange(i + 1, hi as int));
            }
            i += 1;
        } else {
            let e = tok_end(v, i, hi);
            let ghost before = out@;
            out.push((i, e));
            proof {
                lemma_tok_len_pos(rest);
                assert(pieces(v@, out@) == pieces(v@, before).push(v@.subrange(i as int, e as int)));
                assert(rest.take((e - i) as int) =~= v@.subrange(i as int, e as int));
                assert(rest.skip((e - i) as int) =~= v@.subrange(e as int, hi as int));
                assert(words(rest) == seq![v@.subrange(i as int, e as int)] + words(v@.subrange(e as int, hi as int)));
                assert(pieces(v@, before) + words(rest) == pieces(v@, out@) + words(v@.subrange(e as int, hi as int)));
            }
            i = e;
        }
    }
    proof {
        assert(v@.subrange(hi as int, hi as int) =~= Seq::<char>::empty());
        assert(pieces(v@, out@) + Seq::<Seq<char>>::empty() =~= pieces(v@, out@));
    }
    out
}

/// `v[lo..hi].parse::<u64>()`.
pub fn parse_u64_range(v: &Vec<char>, lo: usize, hi: usize) -> (r: Option<u64>)
    requires
        lo <= hi <= v@.len(),
    ensures
        r == parse_u64(v@.subrange(lo as int, hi as int)),
{
    let ghost s = v@.subrange(lo as int, hi as int);
    let start = if lo < hi && v[lo] == '+' {
        lo + 1
    } else {
        lo
    };
    let ghost d = v@.subrange(start as int, hi as int);
    proof {
        if lo < hi && v@[lo as int] == '+' {
            assert(s.drop_first() =~= d);
        } else {
            assert(s =~= d);
        }
    }
    if start == hi {
        return None;
    }
    let mut i = start;
    while i < hi
        invariant
            lo <= start < hi,
            start <= i <= hi <= v@.len(),
            d == v@.subrange(start as int, hi as int),
            s == v@.subrange(lo as int, hi as int),
            unsigned_digits(s) == d,
            forall|q: int| start <= q < i ==> is_digit(#[trigger] v@[q]),
        decreases hi - i,
    {
        if !('0' <= v[i] && v[i] <= '9') {
            proof {
                assert(d[i - start] == v@[i as int]);
                assert(!is_digit(d[i - start]));
                assert(!all_digits(d));
            }
            return None;
        }
        i += 1;
    }
    proof {
        assert forall|q: int| 0 <= q < d.len() implies is_digit(#[trigger] d[q]) by {
            assert(d[q] == v@[start + q]);
        }
    }
    digits_u64(v, start, hi)
}

/// `v[lo..hi].parse::<u32>()`.
pub fn parse_u32_range(v: &Vec<char>, lo: usize, hi: usize) -> (r: Option<u32>)
    requires
        lo <= hi <= v@.len(),
    ensures
        r == parse_u32(v@.subrange(lo as int, hi as int)),
{
    match parse_u64_range(v, lo, hi) {
        Some(x) => if x <= 0xFFFF_FFFF {
            Some(x as u32)
        } else {
            None
        },
        None => None,
    }
}


// ---------------------------------------------------------------------------
// Facts about lines and words of composed text
// ---------------------------------------------------------------------------

/// `x` holds no line break.
pub open spec fn no_newline(x: Seq<char>) -> bool {
    forall|i: int| 0 <= i < x.len() ==> #[trigger] x[i] != '\n'
}

/// `x` holds no whitespace.
pub open spec fn no_space(x: Seq<char>) -> bool {
    forall|i: int| 0 <= i < x.len() ==> !is_ws(#[trigger] x[i])
}

pub proof fn lemma_line_len_prefix(x: Seq<char>, rest: Seq<char>)
    requires
        no_newline(x),
        rest.len() == 0 || rest[0] == '\n',
    ensures
        line_len(x + rest) == x.len(),
    decreases x.len(),
{
    if x.len() > 0 {
        assert((x + rest).drop_first() =~= x.drop_first() + rest);
        lemma_line_len_prefix(x.drop_first(), rest);
    } else {
        assert(x + rest =~= rest);
    }
}

/// A line without a break, ended by one, is the first line.
pub proof fn lemma_split_lines_cons(x: Seq<char>, rest: Seq<char>)
    requires
        no_newline(x),
    ensures
        split_lines(x + seq!['\n'] + rest) == seq![x] + split_lines(rest),
{
    let s = x + seq!['\n'] + rest;
    assert(s =~= x + (seq!['\n'] + rest));
    lemma_line_len_prefix(x, seq!['\n'] + rest);
    assert(s.take(x.len() as int) =~= x);
    assert(s.skip(x.len() as int + 1) =~= rest);
}

/// A last line without a break.
pub proof fn lemma_split_lines_last(x: Seq<char>)
    requires
        no_newline(x),
        x.len() > 0,
    ensures
        split_lines(x) == seq![x],
{
    lemma_line_len_prefix(x, Seq::empty());
    assert(x + Seq::<char>::empty() =~= x);
}

pub proof fn lemma_tok_len_word(a: Seq<char>, rest: Seq<char>)
    requires
        no_space(a),
        rest.len() == 0 || is_ws(rest[0]),
    ensures
        tok_len(a + rest) == a.len(),
    decreases a.len(),
{
    if a.len() > 0 {
        assert((a + rest).drop_first() =~= a.drop_first() + rest);
        lemma_tok_len_word(a.drop_first(), rest);
    } else {
        assert(a + rest =~= rest);
    }
}

/// A nonempty run without whitespace is one word.
pub proof fn lemma_words_one(a: Seq<char>)
    requires
        a.len() > 0,
        no_space(a),
    ensures
        words(a) == seq![a],
{
    lemma_tok_len_word(a, Seq::empty());
    assert(a + Seq::<char>::empty() =~= a);
    assert(!is_ws(a[0]));
    assert(a.take(a.len() as int) =~= a);
    assert(a.skip(a.len() as int) =~= Seq::<char>::empty());
    assert(words(Seq::<char>::empty()) =~= Seq::<Seq<char>>::empty());
    assert(words(a) == seq![a.take(tok_len(a) as int)] + words(a.skip(tok_len(a) as int)));
    assert(seq![a] + Seq::<Seq<char>>::empty() =~= seq![a]);
}

/// Two nonempty runs without whitespace, with a space between, are two
/// words.
pub proof fn lemma_words_two(a: Seq<char>, b: Seq<char>)
    requires
        a.len() > 0,
        b.len() > 0,
        no_space(a),
        no_space(b),
    ensures
        words(a + seq![' '] + b) == seq![a, b],
{
    let s = a + seq![' '] + b;
    assert(s =~= a + (seq![' '] + b));
    lemma_tok_len_word(a, seq![' '] + b);
    assert(s.take(a.len() as int) =~= a);
    let r = s.skip(a.len() as int);
    assert(r =~= seq![' '] + b);
    assert(r.drop_first() =~= b);
    assert(!is_ws(s[0])) by {
        assert(s[0] == a[0]);
    }
    assert(words(s) == seq![s.take(tok_len(s) as int)] + words(r));
    assert(is_ws(r[0])) by {
        assert(r[0] == ' ');
    }
    assert(words(r) == words(r.drop_first()));
    lemma_words_one(b);
    assert(seq![a] + seq![b] =~= seq![a, b]);
}

/// Text that starts and ends with a non-space is its own trim.
pub proof fn lemma_trim_id(x: Seq<char>)
    requires
        x.len() > 0,
        !is_ws(x[0]),
        !is_ws(x.last()),
    ensures
        crate::util::trim(x) == x,
{
}

/// The decimal rendering of `n` has no whitespace and reads back as `n`.
pub proof fn lemma_numeral_decimal(n: nat)
    ensures
        numeral(crate::text::decimal(n)) == Some(n),
        crate::text::decimal(n).len() > 0,
        no_space(crate::text::decimal(n)),
        no_newline(crate::text::decimal(n)),
        all_digits(crate::text::decimal(n)),
    decreases n,
{
    let d = crate::text::decimal(n);
    if n < 10 {
        assert(d == seq![crate::text::digit_char(n)]);
        assert(d.drop_last() =~= Seq::<char>::empty());
        assert(digits_value(d) == digits_value(Seq::<char>::empty()) * 10 + (d.last() as nat - 48) as nat);
    } else {
        lemma_numeral_decimal(n / 10);
        let p = crate::text::decimal(n / 10);
        assert(d == p.push(crate::text::digit_char(n % 10)));
        assert(d.drop_last() =~= p);
        assert(all_digits(d)) by {
            assert forall|i: int| 0 <= i < d.len() implies is_digit(#[trigger] d[i]) by {
                if i < p.len() {
                    assert(d[i] == p[i]);
                }
            }
        }
        assert(d[0] == p[0]);
    }
    assert(unsigned_digits(d) == d);
}


/// The lines, each followed by a line break.
pub open spec fn joined(lines: Seq<Seq<char>>) -> Seq<char>
    decreases lines.len(),
{
    if lines.len() == 0 {
        Seq::empty()
    } else {
        joined(lines.drop_last()) + lines.last() + seq!['\n']
    }
}

/// No line of `lines` holds a line break.
pub open spec fn all_no_newline(lines: Seq<Seq<char>>) -> bool {
    forall|i: int| 0 <= i < lines.len() ==> no_newline(#[trigger] lines[i])
}

pub proof fn lemma_joined_push(lines: Seq<Seq<char>>, x: Seq<char>)
    ensures
        joined(lines.push(x)) == joined(lines) + x + seq!['\n'],
{
    assert(lines.push(x).drop_last() =~= lines);
}

pub proof fn lemma_joined_front(lines: Seq<Seq<char>>)
    requires
        lines.len() > 0,
    ensures
        joined(lines) == lines[0] + seq!['\n'] + joined(lines.drop_first()),
    decreases lines.len(),
{
    if lines.len() == 1 {
        assert(lines.drop_last() =~= Seq::<Seq<char>>::empty());
        assert(lines.drop_first() =~= Seq::<Seq<char>>::empty());
        assert(joined(lines) =~= lines[0] + seq!['\n'] + joined(lines.drop_first()));
    } else {
        let d = lines.drop_last();
        lemma_joined_front(d);
        assert(d.drop_first() =~= lines.drop_first().drop_last());
        assert(lines.drop_first().last() == lines.last());
        assert(d[0] == lines[0]);
        assert(joined(lines) =~= lines[0] + seq!['\n'] + joined(lines.drop_first()));
    }
}

/// Lines written one after another, each ended by a break, split back
/// into the same lines.
pub proof fn lemma_split_joined(lines: Seq<Seq<char>>, rest: Seq<char>)
    requires
        all_no_newline(lines),
    ensures
        split_lines(joined(lines) + rest) == lines + split_lines(rest),
    decreases lines.len(),
{
    if lines.len() == 0 {
        assert(joined(lines) + rest =~= rest);
        assert(lines + split_lines(rest) =~= split_lines(rest));
    } else {
        lemma_joined_front(lines);
        let t = lines.drop_first();
        assert(all_no_newline(t)) by {
            assert forall|i: int| 0 <= i < t.len() implies no_newline(#[trigger] t[i]) by {
                assert(t[i] == lines[i + 1]);
            }
        }
        lemma_split_joined(t, rest);
        assert(joined(lines) + rest =~= lines[0] + seq!['\n'] + (joined(t) + rest));
        assert(no_newline(lines[0]));
        lemma_split_lines_cons(lines[0], joined(t) + rest);
        assert(lines =~= seq![lines[0]] + t);
        assert(lines + split_lines(rest) =~= seq![lines[0]] + (t + split_lines(rest)));
    }
}

/// The first line of `s` holds no break, and a break ends it if `s` goes on.
pub proof fn lemma_line_len_facts(s: Seq<char>)
    ensures
        line_len(s) <= s.len(),
        forall|i: int| 0 <= i < line_len(s) ==> #[trigger] s[i] != '\n',
        line_len(s) < s.len() ==> s[line_len(s) as int] == '\n',
    decreases s.len(),
{
    if s.len() > 0 && s[0] != '\n' {
        let t = s.drop_first();
        lemma_line_len_facts(t);
        assert forall|i: int| 0 <= i < line_len(s) implies #[trigger] s[i] != '\n' by {
            if i > 0 {
                assert(s[i] == t[i - 1]);
            }
        }
        if line_len(s) < s.len() {
            assert(s[line_len(s) as int] == t[line_len(t) as int]);
        }
    }
}

/// `s` with its line breaks taken out.
pub open spec fn strip_nl(s: Seq<char>) -> Seq<char>
    decreases s.len(),
{
    if s.len() == 0 {
        Seq::empty()
    } else {
        strip_nl(s.drop_last()) + (if s.last() == '\n' {
            Seq::empty()
        } else {
            seq![s.last()]
        })
    }
}

pub proof fn lemma_strip_nl_add(a: Seq<char>, b: Seq<char>)
    ensures
        strip_nl(a + b) == strip_nl(a) + strip_nl(b),
    decreases b.len(),
{
    if b.len() == 0 {
        assert(a + b =~= a);
        assert(strip_nl(a) + strip_nl(b) =~= strip_nl(a));
    } else {
        lemma_strip_nl_add(a, b.drop_last());
        assert((a + b).drop_last() =~= a + b.drop_last());
        assert((a + b).last() == b.last());
        let tail = if b.last() == '\n' {
            Seq::<char>::empty()
        } else {
            seq![b.last()]
        };
        assert(strip_nl(a + b) == strip_nl(a + b.drop_last()) + tail);
        assert(strip_nl(b) == strip_nl(b.drop_last()) + tail);
        assert(strip_nl(a + b) =~= strip_nl(a) + strip_nl(b));
    }
}

pub proof fn lemma_strip_nl_id(s: Seq<char>)
    requires
        no_newline(s),
    ensures
        strip_nl(s) == s,
    decreases s.len(),
{
    if s.len() > 0 {
        assert(no_newline(s.drop_last())) by {
            assert forall|i: int| 0 <= i < s.drop_last().len() implies #[trigger] s.drop_last()[i] != '\n' by {
                assert(s.drop_last()[i] == s[i]);
            }
        }
        lemma_strip_nl_id(s.drop_last());
        assert(s.last() == s[s.len() - 1]);
        assert(s =~= s.drop_last() + seq![s.last()]);
    }
}

/// Every character of `s` is a line break or is not whitespace.
pub open spec fn plain_lines(s: Seq<char>) -> bool {
    forall|i: int| 0 <= i < s.len() ==> #[trigger] s[i] == '\n' || !is_ws(s[i])
}

/// Two words with one space between: one line, its own trim, two words.
pub proof fn lemma_pair_line(a: Seq<char>, b: Seq<char>)
    requires
        a.len() > 0,
        b.len() > 0,
        no_space(a),
        no_space(b),
    ensures
        no_newline(a + seq![' '] + b),
        no_space(a) && no_space(b),
        crate::util::trim(a + seq![' '] + b) == a + seq![' '] + b,
        words(a + seq![' '] + b) == seq![a, b],
{
    let s = a + seq![' '] + b;
    assert forall|i: int| 0 <= i < s.len() implies #[trigger] s[i] != '\n' by {
        if i < a.len() {
            assert(s[i] == a[i]);
            assert(!is_ws(a[i]));
        } else if i > a.len() {
            assert(s[i] == b[i - a.len() - 1]);
            assert(!is_ws(b[i - a.len() - 1]));
        }
    }
    assert(s[0] == a[0]);
    assert(!is_ws(a[0]));
    assert(s.last() == b.last());
    assert(!is_ws(b[b.len() - 1]));
    lemma_trim_id(s);
    lemma_words_two(a, b);
}

} // verus!
