//! Textual segmentation of LOOKUP/CLOSEST argument lists.
//!
//! The dialect defines LOOKUP arms textually: the argument text is split on
//! `:` (ignoring nesting), `key=value` segments become double-quoted string
//! arguments, integer `a~b=v` ranges expand to one quoted arm per integer,
//! and empty or blank segments become `""`. Argument text without a `:` is
//! split at its top-level commas instead (commas inside parentheses,
//! brackets and quoted strings do not count), and each piece is segmented on
//! its own, so `LOOKUP(A, 0, 1=100, 2=200)` has arms as well. The result is
//! comma-separated argument text that the parser then reads again.
use vstd::prelude::*;
use vstd::string::*;
use crate::text::{digit_char, push_decimal, spec_decimal};

verus! {

/// Unicode `White_Space` (what `char::is_whitespace` tests).
pub open spec fn is_uws(c: char) -> bool {
    let v = c as u32;
    (9 <= v <= 13) || v == 32 || v == 0x85 || v == 0xA0 || v == 0x1680 || (0x2000 <= v <= 0x200A)
        || v == 0x2028 || v == 0x2029 || v == 0x202F || v == 0x205F || v == 0x3000
}

/// First position at or after `i` holding `ch`, or the length.
pub open spec fn next_char(c: Seq<char>, i: int, ch: char) -> int
    decreases c.len() - i,
{
    if i < 0 || i >= c.len() {
        c.len() as int
    } else if c[i] == ch {
        i
    } else {
        next_char(c, i + 1, ch)
    }
}

pub proof fn lemma_next_char(c: Seq<char>, i: int, ch: char)
    requires
        0 <= i <= c.len(),
    ensures
        i <= next_char(c, i, ch) <= c.len(),
        next_char(c, i, ch) < c.len() ==> c[next_char(c, i, ch)] == ch,
        forall|k: int| i <= k < next_char(c, i, ch) ==> #[trigger] c[k] != ch,
    decreases c.len() - i,
{
    if i < c.len() && c[i] != ch {
        lemma_next_char(c, i + 1, ch);
    }
}

/// Every character of `c[i..j]` is white space.
pub open spec fn all_ws(c: Seq<char>, i: int, j: int) -> bool {
    forall|k: int| i <= k < j ==> is_uws(#[trigger] c[k])
}

/// `s` without leading white space.
pub open spec fn trim_start(s: Seq<char>) -> Seq<char>
    decreases s.len(),
{
    if s.len() > 0 && is_uws(s[0]) {
        trim_start(s.drop_first())
    } else {
        s
    }
}

/// `s` without trailing white space.
pub open spec fn trim_end(s: Seq<char>) -> Seq<char>
    decreases s.len(),
{
    if s.len() > 0 && is_uws(s.last()) {
        trim_end(s.drop_last())
    } else {
        s
    }
}

/// `s` without leading and trailing white space (`str::trim`).
pub open spec fn trim(s: Seq<char>) -> Seq<char> {
    trim_end(trim_start(s))
}

/// ASCII decimal digit character.
pub open spec fn is_digit_char(c: char) -> bool {
    '0' <= c <= '9'
}

/// Value of a string of decimal digit characters.
pub open spec fn digits_value(s: Seq<char>) -> int
    decreases s.len(),
{
    if s.len() == 0 {
        0
    } else {
        digits_value(s.drop_last()) * 10 + (s.last() as int - 48)
    }
}

/// Every character is an ASCII decimal digit.
pub open spec fn all_digits(d: Seq<char>) -> bool {
    forall|k: int| 0 <= k < d.len() ==> is_digit_char(#[trigger] d[k])
}

/// What `str::parse::<i64>` accepts: an optional sign, then one or more
/// ASCII digits, with the value inside the `i64` range.
pub open spec fn parse_i64(s: Seq<char>) -> Option<int> {
    let neg = s.len() > 0 && s[0] == '-';
    let signed = s.len() > 0 && (s[0] == '-' || s[0] == '+');
    let d = if signed { s.drop_first() } else { s };
    if d.len() == 0 || !all_digits(d) {
        None
    } else {
        let v = if neg { -digits_value(d) } else { digits_value(d) };
        if i64::MIN <= v <= i64::MAX {
            Some(v)
        } else {
            None
        }
    }
}

/// Decimal text of an integer, with `-` for a negative one.
pub open spec fn int_text(n: int) -> Seq<char> {
    if n < 0 {
        seq!['-'] + spec_decimal((-n) as nat)
    } else {
        spec_decimal(n as nat)
    }
}

/// One expanded range arm: `"n=value"`.
pub open spec fn range_arm(n: int, v: Seq<char>) -> Seq<char> {
    seq!['"'] + int_text(n) + seq!['='] + v + seq!['"']
}

/// The arms for every integer from `lo` to `hi`, separated by commas.
pub open spec fn expand_range(lo: int, hi: int, v: Seq<char>) -> Seq<char>
    decreases hi - lo + 1,
{
    if lo > hi {
        Seq::empty()
    } else if lo == hi {
        range_arm(lo, v)
    } else {
        range_arm(lo, v) + seq![','] + expand_range(lo + 1, hi, v)
    }
}

/// Number of occurrences of `ch` in `s`.
pub open spec fn count_char(s: Seq<char>, ch: char) -> nat
    decreases s.len(),
{
    if s.len() == 0 {
        0
    } else {
        count_char(s.drop_last(), ch) + if s.last() == ch { 1nat } else { 0nat }
    }
}

/// The integer bounds of a `lo~hi=value` segment, when it is one.
pub open spec fn tilde_bounds(seg: Seq<char>) -> Option<(int, int)> {
    let tp = next_char(seg, 0, '~');
    let ep = next_char(seg, 0, '=');
    if tp < seg.len() && ep < seg.len() && tp < ep {
        let range_part = seg.subrange(0, ep);
        if count_char(range_part, '~') == 1 {
            match (parse_i64(trim(range_part.subrange(0, tp))), parse_i64(trim(range_part.subrange(tp + 1, ep)))) {
                (Some(lo), Some(hi)) => Some((lo, hi)),
                _ => None,
            }
        } else {
            None
        }
    } else {
        None
    }
}

/// `c[k]` is a lone `=` (not part of `<=`, `>=`, `!=` or `==`).
pub open spec fn single_equals_at(c: Seq<char>, k: int) -> bool {
    &&& c[k] == '='
    &&& !(k > 0 && (c[k - 1] == '<' || c[k - 1] == '>' || c[k - 1] == '!'))
    &&& !(k + 1 < c.len() && c[k + 1] == '=')
}

/// The output for the segment `c[i..j]`.
pub open spec fn segment_out(c: Seq<char>, i: int, j: int) -> Seq<char> {
    let seg = c.subrange(i, j);
    match tilde_bounds(seg) {
        Some((lo, hi)) => expand_range(lo, hi, trim(seg.subrange(next_char(seg, 0, '=') + 1, seg.len() as int))),
        None => if exists|k: int| i <= k < j && #[trigger] single_equals_at(c, k) {
            seq!['"'] + seg + seq!['"']
        } else {
            seg
        },
    }
}

/// The segmentation loop from position `i`, with `out` produced so far.
pub open spec fn segment_from(c: Seq<char>, i: int, out: Seq<char>) -> Seq<char>
    decreases c.len() - i,
{
    if i < 0 || i >= c.len() {
        out
    } else if c[i] == ':' {
        let o1 = if out.len() == 0 || out.last() == ',' { out + seq!['"', '"'] } else { out };
        segment_from(c, i + 1, o1.push(','))
    } else {
        let j = next_char(c, i, ':');
        proof {
            lemma_next_char(c, i, ':');
        }
        if j < c.len() && all_ws(c, i, j) {
            segment_from(c, j + 1, out + seq!['"', '"', ','])
        } else {
            segment_from(c, j, out + segment_out(c, i, j))
        }
    }
}

/// Processed argument text of a LOOKUP/CLOSEST call written with `:`.
pub open spec fn spec_lookup_args(c: Seq<char>) -> Seq<char> {
    segment_from(c, 0, Seq::empty())
}

/// Where the argument piece that starts at `i` ends: the next `,` outside
/// parentheses, brackets and quoted strings (where `\` escapes the
/// character after it), or the end. `depth` counts the open brackets, `q`
/// is the open quote.
pub open spec fn next_top_comma(c: Seq<char>, i: int, depth: nat, q: Option<char>) -> int
    decreases c.len() - i,
{
    if i < 0 || i >= c.len() {
        c.len() as int
    } else {
        match q {
            Some(qc) => if c[i] == '\\' {
                if i + 1 < c.len() {
                    next_top_comma(c, i + 2, depth, q)
                } else {
                    c.len() as int
                }
            } else if c[i] == qc {
                next_top_comma(c, i + 1, depth, None)
            } else {
                next_top_comma(c, i + 1, depth, q)
            },
            None => if c[i] == ',' && depth == 0 {
                i
            } else if c[i] == '\'' || c[i] == '"' {
                next_top_comma(c, i + 1, depth, Some(c[i]))
            } else if c[i] == '(' || c[i] == '[' {
                next_top_comma(c, i + 1, depth + 1, None)
            } else if c[i] == ')' || c[i] == ']' {
                next_top_comma(c, i + 1, if depth > 0 { (depth - 1) as nat } else { 0 }, None)
            } else {
                next_top_comma(c, i + 1, depth, None)
            },
        }
    }
}

pub proof fn lemma_next_top_comma(c: Seq<char>, i: int, depth: nat, q: Option<char>)
    requires
        0 <= i,
    ensures
        i <= next_top_comma(c, i, depth, q) || i > c.len(),
        next_top_comma(c, i, depth, q) <= c.len(),
        next_top_comma(c, i, depth, q) < c.len() ==> c[next_top_comma(c, i, depth, q)] == ',',
    decreases c.len() - i,
{
    if i < c.len() {
        match q {
            Some(qc) => if c[i] == '\\' {
                if i + 1 < c.len() {
                    lemma_next_top_comma(c, i + 2, depth, q);
                }
            } else if c[i] == qc {
                lemma_next_top_comma(c, i + 1, depth, None);
            } else {
                lemma_next_top_comma(c, i + 1, depth, q);
            },
            None => if c[i] == ',' && depth == 0 {
            } else if c[i] == '\'' || c[i] == '"' {
                lemma_next_top_comma(c, i + 1, depth, Some(c[i]));
            } else if c[i] == '(' || c[i] == '[' {
                lemma_next_top_comma(c, i + 1, depth + 1, None);
            } else if c[i] == ')' || c[i] == ']' {
                lemma_next_top_comma(c, i + 1, if depth > 0 { (depth - 1) as nat } else { 0 }, None);
            } else {
                lemma_next_top_comma(c, i + 1, depth, None);
            },
        }
    }
}

/// Argument text without `:` from position `i`: each piece between
/// top-level commas is processed on its own, as one arm.
pub open spec fn comma_text(c: Seq<char>, i: int) -> Seq<char>
    decreases c.len() - i,
{
    if i < 0 || i > c.len() {
        Seq::empty()
    } else {
        let j = next_top_comma(c, i, 0, None);
        proof {
            lemma_next_top_comma(c, i, 0, None);
        }
        if j >= c.len() {
            spec_lookup_args(c.subrange(i, c.len() as int))
        } else {
            spec_lookup_args(c.subrange(i, j)) + seq![','] + comma_text(c, j + 1)
        }
    }
}

/// The argument text of a LOOKUP/CLOSEST call as the parser reads it again:
/// with a `:` anywhere, the colon segmentation of the whole text; without,
/// the pieces between top-level commas, each segmented on its own.
pub open spec fn lookup_text(c: Seq<char>) -> Seq<char> {
    if next_char(c, 0, ':') < c.len() {
        spec_lookup_args(c)
    } else {
        comma_text(c, 0)
    }
}



// ---------------------------------------------------------------------------
// Range arms
// ---------------------------------------------------------------------------

/// The decimal text of a natural number is a run of digits that reads back
/// as the number.
proof fn lemma_decimal_reads_back(n: nat)
    ensures
        spec_decimal(n).len() >= 1,
        all_digits(spec_decimal(n)),
        digits_value(spec_decimal(n)) == n,
    decreases n,
{
    let s = spec_decimal(n);
    if n >= 10 {
        lemma_decimal_reads_back(n / 10);
        assert(s.drop_last() =~= spec_decimal(n / 10));
        assert(n / 10 * 10 + n % 10 == n) by (nonlinear_arith);
    } else {
        assert(s.drop_last() =~= Seq::<char>::empty());
    }
    assert(s.last() == digit_char(n % 10));
    assert(digit_char(n % 10) as int == 48 + n % 10);
    assert(digits_value(s) == digits_value(s.drop_last()) * 10 + (s.last() as int - 48));
    if n < 10 {
        assert(digits_value(s.drop_last()) == 0);
    }
}

/// Law: an integer written by `int_text` is read back by `parse_i64`.
pub proof fn lemma_int_text_reads_back(n: int)
    requires
        i64::MIN <= n <= i64::MAX,
    ensures
        parse_i64(int_text(n)) == Some(n),
        int_text(n).len() >= 1,
        forall|k: int| 0 <= k < int_text(n).len() ==> #[trigger] int_text(n)[k] == '-' || is_digit_char(int_text(n)[k]),
        is_digit_char(int_text(n).last()),
        !is_uws(int_text(n)[0]),
{
    if n < 0 {
        lemma_decimal_reads_back((-n) as nat);
        let s = int_text(n);
        assert(s.drop_first() =~= spec_decimal((-n) as nat));
        assert forall|k: int| 0 <= k < s.len() implies #[trigger] s[k] == '-' || is_digit_char(s[k]) by {
            if k > 0 {
                assert(s[k] == spec_decimal((-n) as nat)[k - 1]);
            }
        }
    } else {
        lemma_decimal_reads_back(n as nat);
    }
}

/// White space at neither end: `trim` keeps the text as it is.
proof fn lemma_trim_noop(s: Seq<char>)
    requires
        s.len() >= 1,
        !is_uws(s[0]),
        !is_uws(s.last()),
    ensures
        trim(s) == s,
{
}

/// Counting a character over a concatenation.
proof fn lemma_count_concat(a: Seq<char>, b: Seq<char>, ch: char)
    ensures
        count_char(a + b, ch) == count_char(a, ch) + count_char(b, ch),
    decreases b.len(),
{
    if b.len() == 0 {
        assert(a + b =~= a);
    } else {
        lemma_count_concat(a, b.drop_last(), ch);
        assert((a + b).drop_last() =~= a + b.drop_last());
    }
}

/// A sequence without `ch` counts no `ch`.
proof fn lemma_count_none(a: Seq<char>, ch: char)
    requires
        forall|k: int| 0 <= k < a.len() ==> a[k] != ch,
    ensures
        count_char(a, ch) == 0,
    decreases a.len(),
{
    if a.len() > 0 {
        lemma_count_none(a.drop_last(), ch);
    }
}

/// `next_char` finds the first occurrence.
proof fn lemma_next_char_at(c: Seq<char>, j: int, ch: char)
    requires
        0 <= j < c.len(),
        c[j] == ch,
        forall|k: int| 0 <= k < j ==> c[k] != ch,
    ensures
        next_char(c, 0, ch) == j,
{
    lemma_next_char(c, 0, ch);
}

/// Law: a LOOKUP arm `lo~hi=value` whose bounds are integers written in
/// decimal becomes one quoted arm `"n=value"` (value trimmed) for every
/// integer `n` from `lo` to `hi`, and nothing when `lo > hi`.
pub proof fn lemma_range_arm_expands(lo: int, hi: int, v: Seq<char>)
    requires
        i64::MIN <= lo <= i64::MAX,
        i64::MIN <= hi <= i64::MAX,
        forall|k: int| 0 <= k < v.len() ==> v[k] != ':',
    ensures
        spec_lookup_args(int_text(lo) + seq!['~'] + int_text(hi) + seq!['='] + v) == expand_range(
            lo,
            hi,
            trim(v),
        ),
{
    let a = int_text(lo);
    let b = int_text(hi);
    lemma_int_text_reads_back(lo);
    lemma_int_text_reads_back(hi);
    let c = a + seq!['~'] + b + seq!['='] + v;
    let tp = a.len() as int;
    let ep = tp + 1 + b.len();
    assert(c[tp] == '~');
    assert(c[ep] == '=');
    assert forall|k: int| 0 <= k < c.len() implies c[k] != ':' by {
        if k < tp {
            assert(c[k] == a[k]);
        } else if tp < k < ep {
            assert(c[k] == b[k - tp - 1]);
        } else if k > ep {
            assert(c[k] == v[k - ep - 1]);
        }
    }
    assert forall|k: int| 0 <= k < tp implies c[k] != '~' && c[k] != '=' by {
        assert(c[k] == a[k]);
    }
    assert forall|k: int| tp < k < ep implies c[k] != '~' && c[k] != '=' by {
        assert(c[k] == b[k - tp - 1]);
    }
    lemma_next_char_at(c, tp, '~');
    lemma_next_char_at(c, ep, '=');
    lemma_next_char(c, 0, ':');
    assert(next_char(c, 0, ':') == c.len());
    assert(c[0] == a[0]);
    assert(c.subrange(0, c.len() as int) =~= c);
    let range_part = c.subrange(0, ep);
    assert(range_part =~= a + seq!['~'] + b);
    assert forall|k: int| 0 <= k < a.len() implies a[k] != '~' by {
        assert(c[k] == a[k]);
    }
    assert forall|k: int| 0 <= k < b.len() implies b[k] != '~' by {
        assert(c[k + tp + 1] == b[k]);
    }
    lemma_count_none(a, '~');
    lemma_count_none(b, '~');
    lemma_count_concat(a, seq!['~'], '~');
    lemma_count_concat(a + seq!['~'], b, '~');
    assert(count_char(seq!['~'], '~') == 1) by {
        assert(seq!['~'].drop_last() =~= Seq::<char>::empty());
        assert(count_char(Seq::<char>::empty(), '~') == 0);
    }
    assert(range_part.subrange(0, tp) =~= a);
    assert(range_part.subrange(tp + 1, ep) =~= b);
    lemma_trim_noop(a);
    lemma_trim_noop(b);
    assert(c.subrange(ep + 1, c.len() as int) =~= v);
    assert(tilde_bounds(c) == Some((lo, hi)));
    assert(segment_out(c, 0, c.len() as int) == expand_range(lo, hi, trim(v)));
    let out = Seq::<char>::empty() + segment_out(c, 0, c.len() as int);
    assert(out =~= expand_range(lo, hi, trim(v)));
    assert(segment_from(c, c.len() as int, out) == out);
    assert(c[0] != ':');
    assert(segment_from(c, 0, Seq::empty()) == segment_from(c, c.len() as int, out));
}

// ---------------------------------------------------------------------------
// Executable segmentation
// ---------------------------------------------------------------------------

/// The characters of `s`, in order.
pub(crate) fn chars_of(s: &str) -> (v: Vec<char>)
    ensures
        v@ == s@,
{
    broadcast use vstd::string::group_string_axioms;
    let mut v: Vec<char> = Vec::new();
    for c in it: s.chars()
        invariant
            it.seq() == s@,
            v@ == it.seq().take(it.index()),
    {
        v.push(c);
    }
    v
}

fn is_uws_exec(c: char) -> (r: bool)
    ensures
        r == is_uws(c),
{
    let v = c as u32;
    (9 <= v && v <= 13) || v == 32 || v == 0x85 || v == 0xA0 || v == 0x1680 || (0x2000 <= v && v
        <= 0x200A) || v == 0x2028 || v == 0x2029 || v == 0x202F || v == 0x205F || v == 0x3000
}

/// First position at or after `i` holding `ch`, or the length.
pub(crate) fn next_char_exec(c: &[char], i: usize, ch: char) -> (j: usize)
    requires
        i <= c@.len(),
    ensures
        j == next_char(c@, i as int, ch),
{
    let mut j = i;
    while j < c.len() && c[j] != ch
        invariant
            i <= j <= c@.len(),
            next_char(c@, i as int, ch) == next_char(c@, j as int, ch),
        decreases c@.len() - j,
    {
        j += 1;
    }
    j
}

/// Whether `c[i..j]` is all white space.
fn all_ws_exec(c: &[char], i: usize, j: usize) -> (r: bool)
    requires
        i <= j <= c@.len(),
    ensures
        r == all_ws(c@, i as int, j as int),
{
    let mut k = i;
    while k < j
        invariant
            i <= k <= j <= c@.len(),
            all_ws(c@, i as int, k as int),
        decreases j - k,
    {
        if !is_uws_exec(c[k]) {
            return false;
        }
        k += 1;
    }
    true
}

/// Bounds of `trim(c[a..b])` within `c`.
pub(crate) fn trim_bounds(c: &[char], a: usize, b: usize) -> (r: (usize, usize))
    requires
        a <= b <= c@.len(),
    ensures
        a <= r.0 <= r.1 <= b,
        c@.subrange(r.0 as int, r.1 as int) == trim(c@.subrange(a as int, b as int)),
{
    let mut p = a;
    while p < b && is_uws_exec(c[p])
        invariant
            a <= p <= b <= c@.len(),
            trim_start(c@.subrange(a as int, b as int)) == trim_start(c@.subrange(p as int, b as int)),
        decreases b - p,
    {
        assert(c@.subrange(p as int, b as int).drop_first() =~= c@.subrange(p + 1, b as int));
        p += 1;
    }
    let mut q = b;
    while q > p && is_uws_exec(c[q - 1])
        invariant
            a <= p <= q <= b <= c@.len(),
            trim_start(c@.subrange(a as int, b as int)) == c@.subrange(p as int, b as int),
            trim_end(c@.subrange(p as int, b as int)) == trim_end(c@.subrange(p as int, q as int)),
        decreases q - p,
    {
        assert(c@.subrange(p as int, q as int).drop_last() =~= c@.subrange(p as int, q - 1));
        q -= 1;
    }
    (p, q)
}

/// A longer run of digits never has a smaller value.
proof fn lemma_digits_value_mono(s: Seq<char>, k: int)
    requires
        0 <= k <= s.len(),
        all_digits(s),
    ensures
        digits_value(s.subrange(0, k)) <= digits_value(s),
        digits_value(s) >= 0,
    decreases s.len(),
{
    if s.len() > 0 {
        let t = s.drop_last();
        if k == s.len() {
            assert(s.subrange(0, k) =~= s);
            lemma_digits_value_mono(t, 0);
        } else {
            lemma_digits_value_mono(t, k);
            assert(t.subrange(0, k) =~= s.subrange(0, k));
        }
    } else {
        assert(s.subrange(0, k) =~= s);
    }
}

/// `str::parse::<i64>` of `c[a..b]`.
fn parse_i64_exec(c: &[char], a: usize, b: usize) -> (r: Option<i64>)
    requires
        a <= b <= c@.len(),
    ensures
        match r {
            Some(v) => parse_i64(c@.subrange(a as int, b as int)) == Some(v as int),
            None => parse_i64(c@.subrange(a as int, b as int)) is None,
        },
{
    let ghost s = c@.subrange(a as int, b as int);
    let neg = a < b && c[a] == '-';
    let signed = a < b && (c[a] == '-' || c[a] == '+');
    let start = if signed { a + 1 } else { a };
    let ghost d = if signed { s.drop_first() } else { s };
    assert(s.len() > 0 ==> s[0] == c@[a as int]);
    assert(d =~= c@.subrange(start as int, b as int));
    if start == b {
        return None;
    }
    let limit: u64 = 0x8000_0000_0000_0000;
    let mut acc: u64 = 0;
    let mut k = start;
    while k < b
        invariant
            a <= start <= k <= b <= c@.len(),
            s == c@.subrange(a as int, b as int),
            signed == (s.len() > 0 && (s[0] == '-' || s[0] == '+')),
            d == (if signed { s.drop_first() } else { s }),
            d == c@.subrange(start as int, b as int),
            limit == 0x8000_0000_0000_0000,
            acc <= limit,
            acc == digits_value(c@.subrange(start as int, k as int)),
            forall|i: int| start <= i < k ==> is_digit_char(#[trigger] c@[i]),
        decreases b - k,
    {
        let ch = c[k];
        if !('0' <= ch && ch <= '9') {
            assert(!is_digit_char(d[k - start]));
            return None;
        }
        let dv = (ch as u32 - 48) as u64;
        assert(c@.subrange(start as int, k + 1).drop_last() =~= c@.subrange(start as int, k as int));
        if acc > 922_337_203_685_477_580 || acc * 10 + dv > limit {
            proof {
                assert(digits_value(c@.subrange(start as int, k + 1)) == acc * 10 + dv);
                assert(acc * 10 + dv > limit);
                if all_digits(d) {
                    lemma_digits_value_mono(d, k + 1 - start);
                    assert(d.subrange(0, k + 1 - start) =~= c@.subrange(start as int, k + 1));
                }
            }
            return None;
        }
        acc = acc * 10 + dv;
        k += 1;
    }
    assert(c@.subrange(start as int, b as int) =~= d);
    if neg {
        if acc == limit {
            Some(i64::MIN)
        } else {
            Some(-(acc as i64))
        }
    } else if acc > 0x7fff_ffff_ffff_ffff {
        None
    } else {
        Some(acc as i64)
    }
}

/// Number of `ch` in `c[0..k]`.
fn count_char_exec(c: &[char], k: usize, ch: char) -> (n: usize)
    requires
        k <= c@.len(),
    ensures
        n == count_char(c@.subrange(0, k as int), ch),
{
    let mut n: usize = 0;
    let mut i: usize = 0;
    while i < k
        invariant
            i <= k <= c@.len(),
            n <= i,
            n == count_char(c@.subrange(0, i as int), ch),
        decreases k - i,
    {
        assert(c@.subrange(0, i + 1).drop_last() =~= c@.subrange(0, i as int));
        if c[i] == ch {
            n += 1;
        }
        i += 1;
    }
    n
}

/// The integer bounds of a `lo~hi=value` segment.
fn tilde_bounds_exec(seg: &[char]) -> (r: Option<(i64, i64)>)
    ensures
        match r {
            Some((lo, hi)) => tilde_bounds(seg@) == Some((lo as int, hi as int)),
            None => tilde_bounds(seg@) is None,
        },
{
    let n = seg.len();
    let tp = next_char_exec(seg, 0, '~');
    let ep = next_char_exec(seg, 0, '=');
    if !(tp < n && ep < n && tp < ep) {
        return None;
    }
    proof {
        lemma_next_char(seg@, 0, '=');
    }
    let ghost range_part = seg@.subrange(0, ep as int);
    if count_char_exec(seg, ep, '~') != 1 {
        return None;
    }
    let (a1, b1) = trim_bounds(seg, 0, tp);
    let (a2, b2) = trim_bounds(seg, tp + 1, ep);
    assert(range_part.subrange(0, tp as int) =~= seg@.subrange(0, tp as int));
    assert(range_part.subrange(tp + 1, ep as int) =~= seg@.subrange(tp + 1, ep as int));
    match (parse_i64_exec(seg, a1, b1), parse_i64_exec(seg, a2, b2)) {
        (Some(lo), Some(hi)) => Some((lo, hi)),
        _ => None,
    }
}

/// Whether some position of `c[i..j]` holds a lone `=`.
fn has_single_equals(c: &[char], i: usize, j: usize) -> (r: bool)
    requires
        i <= j <= c@.len(),
    ensures
        r == exists|k: int| i <= k < j && #[trigger] single_equals_at(c@, k),
{
    let n = c.len();
    let mut k = i;
    while k < j
        invariant
            i <= k <= j <= c@.len(),
            n == c@.len(),
            forall|m: int| i <= m < k ==> !#[trigger] single_equals_at(c@, m),
        decreases j - k,
    {
        if c[k] == '=' && !(k > 0 && (c[k - 1] == '<' || c[k - 1] == '>' || c[k - 1] == '!')) && !(
        k + 1 < n && c[k + 1] == '=') {
            assert(single_equals_at(c@, k as int));
            return true;
        }
        k += 1;
    }
    false
}

/// Appends one expanded arm `"n=value"`.
fn push_arm(res: &mut String, n: i64, v: &str)
    ensures
        final(res)@ == old(res)@ + range_arm(n as int, v@),
{
    proof {
        reveal_strlit("\"");
        reveal_strlit("-");
        reveal_strlit("=");
    }
    res.append("\"");
    if n < 0 {
        res.append("-");
        let m: u64 = (-(n + 1)) as u64 + 1;
        push_decimal(res, m);
        assert(int_text(n as int) =~= seq!['-'] + spec_decimal(m as nat));
    } else {
        push_decimal(res, n as u64);
    }
    res.append("=");
    res.append(v);
    res.append("\"");
    assert(final(res)@ =~= old(res)@ + range_arm(n as int, v@));
}

/// Appends the arms for every integer from `lo` to `hi`.
fn push_range(res: &mut String, lo: i64, hi: i64, v: &str)
    ensures
        final(res)@ == old(res)@ + expand_range(lo as int, hi as int, v@),
        lo <= hi ==> final(res)@.len() > 0 && final(res)@.last() == '"',
{
    if lo > hi {
        assert(final(res)@ =~= old(res)@ + expand_range(lo as int, hi as int, v@));
        return;
    }
    let mut n = lo;
    loop
        invariant
            lo <= n <= hi,
            old(res)@ + expand_range(lo as int, hi as int, v@) == res@ + expand_range(n as int, hi as int, v@),
        decreases hi - n,
    {
        proof {
            reveal_strlit(",");
        }
        let ghost before = res@;
        push_arm(res, n, v);
        if n == hi {
            assert(res@.last() == range_arm(n as int, v@).last());
            return;
        }
        res.append(",");
        assert(expand_range(n as int, hi as int, v@) == range_arm(n as int, v@) + seq![','] + expand_range(n + 1, hi as int, v@));
        assert(before + expand_range(n as int, hi as int, v@) =~= res@ + expand_range(n + 1, hi as int, v@));
        n += 1;
    }
}

/// Appends the output for the segment `c[i..j]` (a run without `:`).
/// Takes and returns whether the output is empty or ends with `,`.
fn push_segment(res: &mut String, args: &str, c: &[char], i: usize, j: usize, open: bool) -> (r: bool)
    requires
        c@ == args@,
        i < j <= c@.len(),
        open == (old(res)@.len() == 0 || old(res)@.last() == ','),
    ensures
        final(res)@ == old(res)@ + segment_out(c@, i as int, j as int),
        r == (final(res)@.len() == 0 || final(res)@.last() == ','),
{
    proof {
        reveal_strlit("\"");
    }
    let seg = vstd::slice::slice_subrange(c, i, j);
    match tilde_bounds_exec(seg) {
        Some((lo, hi)) => {
            let ep = next_char_exec(seg, 0, '=');
            proof {
                lemma_next_char(seg@, 0, '=');
            }
            let (a, b) = trim_bounds(seg, ep + 1, seg.len());
            let v = args.substring_char(i + a, i + b);
            assert(v@ =~= seg@.subrange(a as int, b as int));
            push_range(res, lo, hi, v);
            if lo <= hi {
                false
            } else {
                open
            }
        },
        None => {
            let text = args.substring_char(i, j);
            if has_single_equals(c, i, j) {
                res.append("\"");
                res.append(text);
                res.append("\"");
                false
            } else {
                res.append(text);
                c[j - 1] == ','
            }
        },
    }
}

/// Segments the argument text of a LOOKUP/CLOSEST call: `:` separates
/// arms, `key=value` arms become double-quoted strings, integer
/// `lo~hi=value` ranges expand to one quoted arm per integer, and empty or
/// blank arms become `""`. The result is comma-separated argument text.
pub fn process_lookup_args(args: &str) -> (res: String)
    ensures
        res@ == spec_lookup_args(args@),
{
    let c = chars_of(args);
    let n = c.len();
    let mut res = String::new();
    let mut open = true;
    let mut i: usize = 0;
    while i < n
        invariant
            c@ == args@,
            n == c@.len(),
            i <= n,
            open == (res@.len() == 0 || res@.last() == ','),
            segment_from(c@, i as int, res@) == spec_lookup_args(c@),
        decreases n - i,
    {
        proof {
            reveal_strlit("\"\"");
            reveal_strlit(",");
            reveal_strlit("\"\",");
        }
        let ghost before = res@;
        if c[i] == ':' {
            if open {
                res.append("\"\"");
            }
            res.append(",");
            assert(res@ =~= (if before.len() == 0 || before.last() == ',' { before + seq!['"', '"'] } else { before }).push(','));
            open = true;
            i += 1;
        } else {
            let j = next_char_exec(c.as_slice(), i, ':');
            proof {
                lemma_next_char(c@, i as int, ':');
            }
            if j < n && all_ws_exec(c.as_slice(), i, j) {
                res.append("\"\",");
                assert(res@ =~= before + seq!['"', '"', ',']);
                open = true;
                i = j + 1;
            } else {
                open = push_segment(&mut res, args, c.as_slice(), i, j, open);
                i = j;
            }
        }
    }
    res
}

/// Where the argument piece starting at `i` ends (`next_top_comma`).
fn next_top_comma_exec(c: &[char], i: usize) -> (j: usize)
    requires
        i <= c@.len(),
    ensures
        j == next_top_comma(c@, i as int, 0, None),
{
    let mut k = i;
    let mut depth: usize = 0;
    let mut q: Option<char> = None;
    while k < c.len()
        invariant
            i <= k <= c@.len(),
            depth <= k,
            next_top_comma(c@, i as int, 0, None) == next_top_comma(c@, k as int, depth as nat, q),
        decreases c@.len() - k,
    {
        match q {
            Some(qc) => {
                if c[k] == '\\' {
                    if k + 1 < c.len() {
                        k = k + 2;
                    } else {
                        k = c.len();
                    }
                } else if c[k] == qc {
                    q = None;
                    k = k + 1;
                } else {
                    k = k + 1;
                }
            },
            None => {
                if c[k] == ',' && depth == 0 {
                    return k;
                } else if c[k] == '\'' || c[k] == '"' {
                    q = Some(c[k]);
                    k = k + 1;
                } else if c[k] == '(' || c[k] == '[' {
                    depth = depth + 1;
                    k = k + 1;
                } else if c[k] == ')' || c[k] == ']' {
                    if depth > 0 {
                        depth = depth - 1;
                    }
                    k = k + 1;
                } else {
                    k = k + 1;
                }
            },
        }
    }
    c.len()
}

/// The argument text of a LOOKUP/CLOSEST call, ready to be read again as a
/// comma-separated argument list: text with a `:` goes through
/// `process_lookup_args` whole; text without one is split at its top-level
/// commas and each piece goes through `process_lookup_args` on its own, so
/// that `1=100` or `0~3='Low'` between commas are arms as well.
pub fn lookup_call_text(args: &str) -> (res: String)
    ensures
        res@ == lookup_text(args@),
{
    let c = chars_of(args);
    let n = c.len();
    let p = next_char_exec(c.as_slice(), 0, ':');
    proof {
        lemma_next_char(c@, 0, ':');
    }
    if p < n {
        return process_lookup_args(args);
    }
    let mut res = String::new();
    let mut i: usize = 0;
    loop
        invariant
            c@ == args@,
            n == c@.len(),
            i <= n,
            next_char(c@, 0, ':') >= n,
            res@ + comma_text(c@, i as int) == comma_text(c@, 0),
        decreases n - i,
    {
        let j = next_top_comma_exec(c.as_slice(), i);
        proof {
            lemma_next_top_comma(c@, i as int, 0, None);
            reveal_strlit(",");
        }
        let ghost before = res@;
        let piece = args.substring_char(i, j);
        let t = process_lookup_args(piece);
        res.append(t.as_str());
        if j >= n {
            proof {
                assert(comma_text(c@, i as int) == spec_lookup_args(c@.subrange(i as int, n as int)));
            }
            return res;
        }
        res.append(",");
        proof {
            assert(comma_text(c@, i as int) == spec_lookup_args(c@.subrange(i as int, j as int)) + seq![',']
                + comma_text(c@, j + 1));
            assert(res@ + comma_text(c@, j + 1) =~= before + comma_text(c@, i as int));
        }
        i = j + 1;
    }
}

} // verus!
