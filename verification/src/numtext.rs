//! The textual side of JavaScript's string-to-number conversions.
use vstd::prelude::*;
use vstd::string::*;
use crate::lexer::{Class, scan, lemma_scan, scan_exec};
use vstd::utf8::*;
use crate::lookup::{chars_of, is_digit_char, is_uws};
use crate::text::{push_decimal, spec_decimal};

verus! {

/// White space JavaScript trims from numeric strings: Unicode `White_Space`
/// and the byte-order mark U+FEFF.
pub open spec fn spec_is_js_ws(c: char) -> bool {
    is_uws(c) || c == '\u{feff}'
}

/// Whether `c` is white space for JavaScript's string-to-number rules.
pub fn is_js_ws(c: char) -> (r: bool)
    ensures
        r == spec_is_js_ws(c),
{
    let v = c as u32;
    (9 <= v && v <= 13) || v == 32 || v == 0x85 || v == 0xA0 || v == 0x1680 || (0x2000 <= v && v
        <= 0x200A) || v == 0x2028 || v == 0x2029 || v == 0x202F || v == 0x205F || v == 0x3000
        || v == 0xFEFF
}

/// An unsigned decimal literal as JavaScript reads it from a string:
/// `digits [. digits?] [e|E [+|-] digits]` or `. digits [exponent]`,
/// with at least one digit before the exponent, and nothing after it.
pub open spec fn spec_valid_str_decimal(b: Seq<u8>) -> bool {
    let n = b.len() as int;
    let i1 = scan(b, 0, Class::Digit);
    let dot = i1 < n && b[i1] == 46;
    let i2 = if dot { scan(b, i1 + 1, Class::Digit) } else { i1 };
    let frac = if dot { i2 - i1 - 1 } else { 0 };
    if i1 == 0 && frac == 0 {
        false
    } else if i2 < n && (b[i2] == 101 || b[i2] == 69) {
        let j = if i2 + 1 < n && (b[i2 + 1] == 43 || b[i2 + 1] == 45) { i2 + 2 } else { i2 + 1 };
        let k = scan(b, j, Class::Digit);
        k > j && k == n
    } else {
        i2 == n
    }
}

/// Whether `s` is an unsigned decimal literal (see `spec_valid_str_decimal`).
pub fn valid_str_decimal(s: &str) -> (r: bool)
    ensures
        r == spec_valid_str_decimal(s.spec_bytes()),
{
    let b = s.as_bytes();
    let n = b.len();
    proof {
        lemma_scan(b@, 0, Class::Digit);
    }
    let i1 = scan_exec(b, 0, Class::Digit);
    let dot = i1 < n && b[i1] == 46;
    let i2 = if dot {
        proof {
            lemma_scan(b@, i1 + 1, Class::Digit);
        }
        scan_exec(b, i1 + 1, Class::Digit)
    } else {
        i1
    };
    let frac = if dot { i2 - i1 - 1 } else { 0 };
    if i1 == 0 && frac == 0 {
        return false;
    }
    if i2 < n && (b[i2] == 101 || b[i2] == 69) {
        let j = if i2 + 1 < n && (b[i2 + 1] == 43 || b[i2 + 1] == 45) { i2 + 2 } else { i2 + 1 };
        proof {
            lemma_scan(b@, j as int, Class::Digit);
        }
        let k = scan_exec(b, j, Class::Digit);
        k > j && k == n
    } else {
        i2 == n
    }
}


// ---------------------------------------------------------------------------
// Trimming
// ---------------------------------------------------------------------------

/// `s` without leading JavaScript white space.
pub open spec fn trim_start_js(s: Seq<char>) -> Seq<char>
    decreases s.len(),
{
    if s.len() > 0 && spec_is_js_ws(s[0]) {
        trim_start_js(s.drop_first())
    } else {
        s
    }
}

/// `s` without trailing JavaScript white space.
pub open spec fn trim_end_js(s: Seq<char>) -> Seq<char>
    decreases s.len(),
{
    if s.len() > 0 && spec_is_js_ws(s.last()) {
        trim_end_js(s.drop_last())
    } else {
        s
    }
}

/// `s` without JavaScript white space at either end.
pub open spec fn trim_js(s: Seq<char>) -> Seq<char> {
    trim_end_js(trim_start_js(s))
}

/// Start of `trim_start_js(c[a..b])` within `c`.
fn skip_js_ws(c: &[char], a: usize, b: usize) -> (p: usize)
    requires
        a <= b <= c@.len(),
    ensures
        a <= p <= b,
        c@.subrange(p as int, b as int) == trim_start_js(c@.subrange(a as int, b as int)),
{
    let mut p = a;
    while p < b && is_js_ws(c[p])
        invariant
            a <= p <= b <= c@.len(),
            trim_start_js(c@.subrange(a as int, b as int)) == trim_start_js(c@.subrange(p as int, b as int)),
        decreases b - p,
    {
        assert(c@.subrange(p as int, b as int).drop_first() =~= c@.subrange(p + 1, b as int));
        p += 1;
    }
    p
}

/// End of `trim_end_js(c[a..b])` within `c`.
fn back_js_ws(c: &[char], a: usize, b: usize) -> (q: usize)
    requires
        a <= b <= c@.len(),
    ensures
        a <= q <= b,
        c@.subrange(a as int, q as int) == trim_end_js(c@.subrange(a as int, b as int)),
{
    let mut q = b;
    while q > a && is_js_ws(c[q - 1])
        invariant
            a <= q <= b <= c@.len(),
            trim_end_js(c@.subrange(a as int, b as int)) == trim_end_js(c@.subrange(a as int, q as int)),
        decreases q - a,
    {
        assert(c@.subrange(a as int, q as int).drop_last() =~= c@.subrange(a as int, q - 1));
        q -= 1;
    }
    q
}

// ---------------------------------------------------------------------------
// Digits
// ---------------------------------------------------------------------------

/// Value of `c` as a digit in `radix` (at most 36), as `char::to_digit`
/// gives it: `0`–`9`, then `a`–`z` or `A`–`Z` from 10.
pub open spec fn char_digit(c: char, radix: u32) -> Option<u32> {
    let v = c as u32;
    let d: int = if 48 <= v <= 57 {
        v - 48
    } else if 97 <= v <= 122 {
        v - 87
    } else if 65 <= v <= 90 {
        v - 55
    } else {
        99
    };
    if d < radix {
        Some(d as u32)
    } else {
        None
    }
}

fn char_digit_exec(c: char, radix: u32) -> (r: Option<u32>)
    requires
        radix <= 36,
    ensures
        r == char_digit(c, radix),
{
    let v = c as u32;
    let d: u32 = if 48 <= v && v <= 57 {
        v - 48
    } else if 97 <= v && v <= 122 {
        v - 87
    } else if 65 <= v && v <= 90 {
        v - 55
    } else {
        99
    };
    if d < radix {
        Some(d)
    } else {
        None
    }
}

/// Every character is a digit in `radix`.
pub open spec fn all_radix_digits(d: Seq<char>, radix: u32) -> bool {
    forall|k: int| 0 <= k < d.len() ==> #[trigger] char_digit(d[k], radix) is Some
}

/// The digit values of `d` in `radix`.
pub open spec fn radix_digits(d: Seq<char>, radix: u32) -> Seq<u32> {
    Seq::new(
        d.len(),
        |k: int|
            match char_digit(d[k], radix) {
                Some(v) => v,
                None => 0,
            },
    )
}

/// End of the run of characters from `i` that are digits in `radix`.
pub open spec fn scan_radix(t: Seq<char>, i: int, radix: u32) -> int
    decreases t.len() - i,
{
    if 0 <= i < t.len() && char_digit(t[i], radix) is Some {
        scan_radix(t, i + 1, radix)
    } else {
        i
    }
}

proof fn lemma_scan_radix(t: Seq<char>, i: int, radix: u32)
    requires
        0 <= i <= t.len(),
    ensures
        i <= scan_radix(t, i, radix) <= t.len(),
        all_radix_digits(t.subrange(i, scan_radix(t, i, radix)), radix),
        scan_radix(t, i, radix) < t.len() ==> char_digit(t[scan_radix(t, i, radix)], radix) is None,
    decreases t.len() - i,
{
    if i < t.len() && char_digit(t[i], radix) is Some {
        lemma_scan_radix(t, i + 1, radix);
        let k = scan_radix(t, i, radix);
        assert forall|m: int| 0 <= m < k - i implies #[trigger] char_digit(t.subrange(i, k)[m], radix) is Some by {
            if m > 0 {
                assert(t.subrange(i, k)[m] == t.subrange(i + 1, k)[m - 1]);
            }
        }
    }
}

fn scan_radix_exec(t: &[char], i: usize, radix: u32) -> (k: usize)
    requires
        i <= t@.len(),
        radix <= 36,
    ensures
        k == scan_radix(t@, i as int, radix),
{
    let mut k = i;
    while k < t.len() && char_digit_exec(t[k], radix).is_some()
        invariant
            i <= k <= t@.len(),
            radix <= 36,
            scan_radix(t@, i as int, radix) == scan_radix(t@, k as int, radix),
        decreases t@.len() - k,
    {
        k += 1;
    }
    k
}

/// The digit values of `t[a..b]`, all of them digits in `radix`.
fn digit_values(t: &[char], a: usize, b: usize, radix: u32) -> (v: Vec<u32>)
    requires
        a <= b <= t@.len(),
        radix <= 36,
    ensures
        v@ == radix_digits(t@.subrange(a as int, b as int), radix),
{
    let mut v: Vec<u32> = Vec::new();
    let mut k = a;
    while k < b
        invariant
            a <= k <= b <= t@.len(),
            radix <= 36,
            v@ == radix_digits(t@.subrange(a as int, k as int), radix),
        decreases b - k,
    {
        let d = match char_digit_exec(t[k], radix) {
            Some(d) => d,
            None => 0,
        };
        v.push(d);
        k += 1;
        assert(v@ =~= radix_digits(t@.subrange(a as int, k as int), radix));
    }
    v
}

// ---------------------------------------------------------------------------
// ToNumber(String)
// ---------------------------------------------------------------------------

/// The word `Infinity`.
pub open spec fn infinity_word() -> Seq<char> {
    seq!['I', 'n', 'f', 'i', 'n', 'i', 't', 'y']
}

/// Whether `t[i..]` starts with `Infinity`.
fn infinity_at(t: &[char], i: usize) -> (r: bool)
    requires
        i <= t@.len(),
    ensures
        r == (t@.len() - i >= 8 && t@.subrange(i as int, i + 8) == infinity_word()),
{
    if t.len() - i < 8 {
        return false;
    }
    let r = t[i] == 'I' && t[i + 1] == 'n' && t[i + 2] == 'f' && t[i + 3] == 'i' && t[i + 4] == 'n'
        && t[i + 5] == 'i' && t[i + 6] == 't' && t[i + 7] == 'y';
    proof {
        let w = t@.subrange(i as int, i + 8);
        if r {
            assert(w =~= infinity_word());
        } else if w == infinity_word() {
            assert(w[0] == t@[i as int] && w[1] == t@[i + 1] && w[2] == t@[i + 2] && w[3] == t@[i + 3]);
            assert(w[4] == t@[i + 4] && w[5] == t@[i + 5] && w[6] == t@[i + 6] && w[7] == t@[i + 7]);
        }
    }
    r
}

/// Radix prefix letter: `x` for 16, `o` for 8, `b` for 2 (either case);
/// 0 for any other character.
pub open spec fn radix_of(c: char) -> u32 {
    if c == 'x' || c == 'X' {
        16
    } else if c == 'o' || c == 'O' {
        8
    } else if c == 'b' || c == 'B' {
        2
    } else {
        0
    }
}

/// How JavaScript's `ToNumber` reads a string.
pub enum SpecNumberText {
    Zero,
    Radix(u32, Seq<u32>),
    Infinity(bool),
    Decimal(bool, Seq<char>),
    NotANumber,
}

/// How JavaScript's `ToNumber` reads a string: blank is zero; `0x`, `0o`
/// and `0b` take digits of their radix; otherwise an optional sign, then
/// `Infinity` or an unsigned decimal literal; anything else is NaN.
pub open spec fn spec_number_text(s: Seq<char>) -> SpecNumberText {
    let t = trim_js(s);
    if t.len() == 0 {
        SpecNumberText::Zero
    } else if t.len() > 2 && t[0] == '0' && radix_of(t[1]) != 0 {
        let d = t.subrange(2, t.len() as int);
        if all_radix_digits(d, radix_of(t[1])) {
            SpecNumberText::Radix(radix_of(t[1]), radix_digits(d, radix_of(t[1])))
        } else {
            SpecNumberText::NotANumber
        }
    } else {
        let neg = t[0] == '-';
        let num = if t[0] == '+' || t[0] == '-' { t.drop_first() } else { t };
        if num == infinity_word() {
            SpecNumberText::Infinity(neg)
        } else if spec_valid_str_decimal(encode_utf8(num)) {
            SpecNumberText::Decimal(neg, num)
        } else {
            SpecNumberText::NotANumber
        }
    }
}

/// How a string reads as a number: the text side of JavaScript's
/// `ToNumber`, which leaves only the arithmetic on the digits to do.
pub enum NumberText {
    /// Blank: the value 0.
    Zero,
    /// `0x`, `0o` or `0b`: the radix and the digit values, most significant
    /// first.
    Radix(u32, Vec<u32>),
    /// `Infinity`, negative when the flag is set.
    Infinity(bool),
    /// A decimal literal, negative when the flag is set; the text after the
    /// sign.
    Decimal(bool, String),
    /// Not a number.
    NotANumber,
}

impl View for NumberText {
    type V = SpecNumberText;

    open spec fn view(&self) -> SpecNumberText {
        match self {
            NumberText::Zero => SpecNumberText::Zero,
            NumberText::Radix(r, d) => SpecNumberText::Radix(*r, d@),
            NumberText::Infinity(n) => SpecNumberText::Infinity(*n),
            NumberText::Decimal(n, t) => SpecNumberText::Decimal(*n, t@),
            NumberText::NotANumber => SpecNumberText::NotANumber,
        }
    }
}

/// Reads `s` as JavaScript's `ToNumber` does, up to the arithmetic.
#[verifier::spinoff_prover]
#[verifier::rlimit(40)]
pub fn number_text(s: &str) -> (r: NumberText)
    ensures
        r@ == spec_number_text(s@),
{
    let c = chars_of(s);
    let n = c.len();
    let a = skip_js_ws(c.as_slice(), 0, n);
    let b = back_js_ws(c.as_slice(), a, n);
    assert(c@.subrange(0, n as int) =~= c@);
    let t = vstd::slice::slice_subrange(c.as_slice(), a, b);
    assert(t@ == trim_js(s@));
    let m = t.len();
    if m == 0 {
        return NumberText::Zero;
    }
    if m > 2 && t[0] == '0' {
        let radix: u32 = if t[1] == 'x' || t[1] == 'X' {
            16
        } else if t[1] == 'o' || t[1] == 'O' {
            8
        } else if t[1] == 'b' || t[1] == 'B' {
            2
        } else {
            0
        };
        if radix != 0 {
            proof {
                lemma_scan_radix(t@, 2, radix);
            }
            let k = scan_radix_exec(t, 2, radix);
            let ghost d = t@.subrange(2, m as int);
            if k < m {
                assert(char_digit(d[k - 2], radix) is None);
                return NumberText::NotANumber;
            }
            let v = digit_values(t, 2, m, radix);
            return NumberText::Radix(radix, v);
        }
    }
    let neg = t[0] == '-';
    let start = if t[0] == '+' || t[0] == '-' { 1 } else { 0 };
    let ghost num = if t@[0] == '+' || t@[0] == '-' { t@.drop_first() } else { t@ };
    assert(num =~= t@.subrange(start as int, m as int));
    if m - start == 8 && infinity_at(t, start) {
        return NumberText::Infinity(neg);
    }
    let num_str = s.substring_char(a + start, b);
    assert(num_str@ =~= num);
    if valid_str_decimal(num_str) {
        NumberText::Decimal(neg, String::from_str(num_str))
    } else {
        proof {
            if num == infinity_word() {
                assert(m - start == 8);
            }
        }
        NumberText::NotANumber
    }
}

// ---------------------------------------------------------------------------
// parseFloat and parseInt
// ---------------------------------------------------------------------------

/// How JavaScript's `parseFloat` reads a string.
pub enum SpecFloatPrefix {
    NotANumber,
    Infinity(bool),
    Decimal(Seq<char>),
}

/// `parseFloat`: after leading white space, an optional sign and then
/// `Infinity`, or the longest decimal literal (an exponent only with its
/// digits); NaN when there is no digit.
pub open spec fn spec_float_prefix(s: Seq<char>) -> SpecFloatPrefix {
    let t = trim_start_js(s);
    let n = t.len() as int;
    let i0: int = if n > 0 && (t[0] == '+' || t[0] == '-') { 1 } else { 0 };
    if n - i0 >= 8 && t.subrange(i0, i0 + 8) == infinity_word() {
        SpecFloatPrefix::Infinity(i0 > 0 && t[0] == '-')
    } else {
        match decimal_prefix_end(t, i0) {
            None => SpecFloatPrefix::NotANumber,
            Some(i3) => SpecFloatPrefix::Decimal(t.subrange(0, i3)),
        }
    }
}

/// End of the decimal literal `parseFloat` reads in `t` after the sign
/// (which ends at `i0`); `None` when it holds no digit.
pub open spec fn decimal_prefix_end(t: Seq<char>, i0: int) -> Option<int> {
    let n = t.len() as int;
    let i1 = scan_radix(t, i0, 10);
    let dot = i1 < n && t[i1] == '.';
    let i2 = if dot { scan_radix(t, i1 + 1, 10) } else { i1 };
    let frac = if dot { i2 - i1 - 1 } else { 0 };
    if i1 == i0 && frac == 0 {
        None
    } else if i2 < n && (t[i2] == 'e' || t[i2] == 'E') {
        let j = if i2 + 1 < n && (t[i2 + 1] == '+' || t[i2 + 1] == '-') { i2 + 2 } else { i2 + 1 };
        let k = scan_radix(t, j, 10);
        if k > j {
            Some(k)
        } else {
            Some(i2)
        }
    } else {
        Some(i2)
    }
}

fn decimal_prefix_end_exec(t: &[char], i0: usize) -> (r: Option<usize>)
    requires
        i0 <= t@.len(),
    ensures
        match r {
            Some(i) => decimal_prefix_end(t@, i0 as int) == Some(i as int) && i <= t@.len(),
            None => decimal_prefix_end(t@, i0 as int) is None,
        },
{
    let m = t.len();
    proof {
        lemma_scan_radix(t@, i0 as int, 10);
    }
    let i1 = scan_radix_exec(t, i0, 10);
    let dot = i1 < m && t[i1] == '.';
    let i2 = if dot {
        proof {
            lemma_scan_radix(t@, i1 + 1, 10);
        }
        scan_radix_exec(t, i1 + 1, 10)
    } else {
        i1
    };
    let frac = if dot { i2 - i1 - 1 } else { 0 };
    if i1 == i0 && frac == 0 {
        return None;
    }
    if i2 < m && (t[i2] == 'e' || t[i2] == 'E') {
        let j = if i2 + 1 < m && (t[i2 + 1] == '+' || t[i2 + 1] == '-') { i2 + 2 } else { i2 + 1 };
        proof {
            lemma_scan_radix(t@, j as int, 10);
        }
        let k = scan_radix_exec(t, j, 10);
        if k > j {
            Some(k)
        } else {
            Some(i2)
        }
    } else {
        Some(i2)
    }
}

/// How a string reads under `parseFloat`, up to the arithmetic.
pub enum FloatPrefix {
    NotANumber,
    /// `Infinity`, negative when the flag is set.
    Infinity(bool),
    /// The decimal literal read, with its sign.
    Decimal(String),
}

impl View for FloatPrefix {
    type V = SpecFloatPrefix;

    open spec fn view(&self) -> SpecFloatPrefix {
        match self {
            FloatPrefix::NotANumber => SpecFloatPrefix::NotANumber,
            FloatPrefix::Infinity(n) => SpecFloatPrefix::Infinity(*n),
            FloatPrefix::Decimal(t) => SpecFloatPrefix::Decimal(t@),
        }
    }
}

/// Reads `s` as JavaScript's `parseFloat` does, up to the arithmetic.
#[verifier::spinoff_prover]
#[verifier::rlimit(40)]
pub fn float_prefix(s: &str) -> (r: FloatPrefix)
    ensures
        r@ == spec_float_prefix(s@),
{
    let c = chars_of(s);
    let n = c.len();
    let a = skip_js_ws(c.as_slice(), 0, n);
    assert(c@.subrange(0, n as int) =~= c@);
    let t = vstd::slice::slice_subrange(c.as_slice(), a, n);
    assert(t@ == trim_start_js(s@));
    let m = t.len();
    let i0: usize = if m > 0 && (t[0] == '+' || t[0] == '-') { 1 } else { 0 };
    if m - i0 >= 8 && infinity_at(t, i0) {
        return FloatPrefix::Infinity(i0 > 0 && t[0] == '-');
    }
    let i3 = match decimal_prefix_end_exec(t, i0) {
        None => {
            return FloatPrefix::NotANumber;
        },
        Some(i3) => i3,
    };
    let text = s.substring_char(a, a + i3);
    assert(text@ =~= t@.subrange(0, i3 as int));
    FloatPrefix::Decimal(String::from_str(text))
}

/// How JavaScript's `parseInt` (without a radix) reads a string.
pub enum SpecIntPrefix {
    NotANumber,
    Digits(bool, u32, Seq<u32>),
}

/// `parseInt` without a radix: after leading white space, an optional
/// sign, then hexadecimal digits after `0x`/`0X` or else decimal digits, as
/// many as there are; NaN when there are none.
pub open spec fn spec_int_prefix(s: Seq<char>) -> SpecIntPrefix {
    let t = trim_start_js(s);
    let n = t.len() as int;
    let i0: int = if n > 0 && (t[0] == '+' || t[0] == '-') { 1 } else { 0 };
    let neg = i0 > 0 && t[0] == '-';
    let hex = i0 + 1 < n && t[i0] == '0' && (t[i0 + 1] == 'x' || t[i0 + 1] == 'X');
    let radix: u32 = if hex { 16 } else { 10 };
    let start = if hex { i0 + 2 } else { i0 };
    let k = scan_radix(t, start, radix);
    if k == start {
        SpecIntPrefix::NotANumber
    } else {
        SpecIntPrefix::Digits(neg, radix, radix_digits(t.subrange(start, k), radix))
    }
}

/// How a string reads under `parseInt`, up to the arithmetic.
pub enum IntPrefix {
    NotANumber,
    /// Negative when the flag is set; the radix; the digit values, most
    /// significant first.
    Digits(bool, u32, Vec<u32>),
}

impl View for IntPrefix {
    type V = SpecIntPrefix;

    open spec fn view(&self) -> SpecIntPrefix {
        match self {
            IntPrefix::NotANumber => SpecIntPrefix::NotANumber,
            IntPrefix::Digits(n, r, d) => SpecIntPrefix::Digits(*n, *r, d@),
        }
    }
}

/// Reads `s` as JavaScript's `parseInt` (no radix argument) does, up to
/// the arithmetic.
#[verifier::spinoff_prover]
#[verifier::rlimit(40)]
pub fn int_prefix(s: &str) -> (r: IntPrefix)
    ensures
        r@ == spec_int_prefix(s@),
{
    let c = chars_of(s);
    let n = c.len();
    let a = skip_js_ws(c.as_slice(), 0, n);
    assert(c@.subrange(0, n as int) =~= c@);
    let t = vstd::slice::slice_subrange(c.as_slice(), a, n);
    assert(t@ == trim_start_js(s@));
    let m = t.len();
    let i0: usize = if m > 0 && (t[0] == '+' || t[0] == '-') { 1 } else { 0 };
    let neg = i0 > 0 && t[0] == '-';
    let hex = i0 + 1 < m && t[i0] == '0' && (t[i0 + 1] == 'x' || t[i0 + 1] == 'X');
    let radix: u32 = if hex { 16 } else { 10 };
    let start = if hex { i0 + 2 } else { i0 };
    proof {
        lemma_scan_radix(t@, start as int, radix);
    }
    let k = scan_radix_exec(t, start, radix);
    if k == start {
        return IntPrefix::NotANumber;
    }
    IntPrefix::Digits(neg, radix, digit_values(t, start, k, radix))
}

// ---------------------------------------------------------------------------
// Number::toString layout
// ---------------------------------------------------------------------------

/// `m` without its `.` characters.
pub open spec fn drop_dots(m: Seq<char>) -> Seq<char>
    decreases m.len(),
{
    if m.len() == 0 {
        Seq::empty()
    } else if m.last() == '.' {
        drop_dots(m.drop_last())
    } else {
        drop_dots(m.drop_last()).push(m.last())
    }
}

/// `d` without trailing `0` characters.
pub open spec fn trim_zeros(d: Seq<char>) -> Seq<char>
    decreases d.len(),
{
    if d.len() > 0 && d.last() == '0' {
        trim_zeros(d.drop_last())
    } else {
        d
    }
}

/// `n` zeros.
pub open spec fn zeros(n: int) -> Seq<char> {
    Seq::new(if n > 0 { n as nat } else { 0 }, |i: int| '0')
}

/// The significant digits of a mantissa `d[.ddd]`: without the point and
/// trailing zeros, and `0` when nothing is left.
pub open spec fn significant_digits(m: Seq<char>) -> Seq<char> {
    let t = trim_zeros(drop_dots(m));
    if t.len() == 0 {
        seq!['0']
    } else {
        t
    }
}

/// The text of a number whose value is `0.digits × 10^point` (with `-` when
/// `neg`): plain digits up to 21 integer digits, `0.000ddd` down to six
/// zeros, and otherwise `d.ddde±x`.
pub open spec fn spec_js_number_layout(neg: bool, mantissa: Seq<char>, exp: int) -> Seq<char> {
    let d = significant_digits(mantissa);
    let k = d.len() as int;
    let point = exp + 1;
    let sign: Seq<char> = if neg { seq!['-'] } else { Seq::empty() };
    if k <= point && point <= 21 {
        sign + d + zeros(point - k)
    } else if 0 < point && point <= 21 {
        sign + d.subrange(0, point) + seq!['.'] + d.subrange(point, k)
    } else if -6 < point && point <= 0 {
        sign + seq!['0', '.'] + zeros(-point) + d
    } else {
        let e = point - 1;
        sign + seq![d[0]] + (if k > 1 { seq!['.'] + d.subrange(1, k) } else { Seq::empty() })
            + seq!['e'] + (if e >= 0 { seq!['+'] } else { seq!['-'] }) + spec_decimal(
            (if e >= 0 { e } else { -e }) as nat,
        )
    }
}

/// The mantissa is decimal digits and points.
pub open spec fn mantissa_chars(m: Seq<char>) -> bool {
    forall|i: int| 0 <= i < m.len() ==> (is_digit_char(#[trigger] m[i]) || m[i] == '.')
}

/// Appends the decimal digit character `c`.
fn push_digit_char(s: &mut String, c: char)
    requires
        is_digit_char(c),
    ensures
        final(s)@ == old(s)@.push(c),
{
    let digits = "0123456789";
    proof {
        reveal_strlit("0123456789");
    }
    let d = (c as u32 - 48) as usize;
    let piece = digits.substring_ascii(d, d + 1);
    s.append(piece);
    assert(piece@ =~= seq![c]);
}

/// Appends `c[a..b]`, all decimal digits.
fn push_digit_range(s: &mut String, c: &[char], a: usize, b: usize)
    requires
        a <= b <= c@.len(),
        forall|i: int| a <= i < b ==> is_digit_char(#[trigger] c@[i]),
    ensures
        final(s)@ == old(s)@ + c@.subrange(a as int, b as int),
{
    let mut i = a;
    while i < b
        invariant
            a <= i <= b <= c@.len(),
            forall|j: int| a <= j < b ==> is_digit_char(#[trigger] c@[j]),
            s@ == old(s)@ + c@.subrange(a as int, i as int),
        decreases b - i,
    {
        push_digit_char(s, c[i]);
        i += 1;
        assert(s@ =~= old(s)@ + c@.subrange(a as int, i as int));
    }
}

/// Appends `n` zeros.
fn push_zeros(s: &mut String, n: u64)
    ensures
        final(s)@ == old(s)@ + zeros(n as int),
{
    let mut i: u64 = 0;
    while i < n
        invariant
            i <= n,
            s@ == old(s)@ + zeros(i as int),
        decreases n - i,
    {
        proof {
            reveal_strlit("0");
        }
        s.append("0");
        i += 1;
        assert(s@ =~= old(s)@ + zeros(i as int));
    }
}

/// The significant digits of a mantissa, as characters.
fn significant_digits_exec(m: &str) -> (d: Vec<char>)
    requires
        mantissa_chars(m@),
    ensures
        d@ == significant_digits(m@),
        forall|i: int| 0 <= i < d@.len() ==> is_digit_char(#[trigger] d@[i]),
{
    let c = chars_of(m);
    let mut d: Vec<char> = Vec::new();
    let mut i: usize = 0;
    while i < c.len()
        invariant
            c@ == m@,
            i <= c@.len(),
            mantissa_chars(m@),
            d@ == drop_dots(c@.subrange(0, i as int)),
            forall|j: int| 0 <= j < d@.len() ==> is_digit_char(#[trigger] d@[j]),
        decreases c@.len() - i,
    {
        assert(c@.subrange(0, i + 1).drop_last() =~= c@.subrange(0, i as int));
        if c[i] != '.' {
            d.push(c[i]);
        }
        i += 1;
    }
    assert(c@.subrange(0, c@.len() as int) =~= c@);
    let ghost all = d@;
    let mut k = d.len();
    assert(all.subrange(0, k as int) =~= all);
    while k > 0 && d[k - 1] == '0'
        invariant
            k <= d@.len(),
            d@ == all,
            trim_zeros(all) == trim_zeros(all.subrange(0, k as int)),
        decreases k,
    {
        assert(all.subrange(0, k as int).drop_last() =~= all.subrange(0, k - 1));
        k -= 1;
    }
    assert(trim_zeros(all.subrange(0, k as int)) == all.subrange(0, k as int));
    d.truncate(k);
    assert(d@ =~= all.subrange(0, k as int));
    if d.len() == 0 {
        d.push('0');
        assert(d@ =~= seq!['0']);
    }
    d
}

/// The JavaScript text of a nonzero finite number given its shortest
/// scientific form `mantissa` `e` `exp` (as Rust's `{:e}` writes it) and
/// its sign: `Number::toString` with the 21/-6 exponent-form thresholds.
#[verifier::spinoff_prover]
#[verifier::rlimit(40)]
pub fn js_number_layout(neg: bool, mantissa: &str, exp: i32) -> (s: String)
    requires
        mantissa_chars(mantissa@),
        i32::MIN < exp < i32::MAX,
    ensures
        s@ == spec_js_number_layout(neg, mantissa@, exp as int),
{
    proof {
        reveal_strlit("-");
        reveal_strlit(".");
        reveal_strlit("0.");
        reveal_strlit("e");
        reveal_strlit("+");
    }
    let d = significant_digits_exec(mantissa);
    let k = d.len();
    let ghost dd = d@;
    let point: i64 = exp as i64 + 1;
    let kk: i64 = if k <= 22 { k as i64 } else { 22 };
    let mut out = String::new();
    if neg {
        out.append("-");
    }
    let ghost sign: Seq<char> = if neg { seq!['-'] } else { Seq::empty() };
    assert(out@ =~= sign);
    if kk <= point && point <= 21 {
        push_digit_range(&mut out, d.as_slice(), 0, k);
        push_zeros(&mut out, (point - kk) as u64);
        assert(dd.subrange(0, k as int) =~= dd);
        assert(out@ =~= sign + dd + zeros(point - k));
    } else if 0 < point && point <= 21 {
        let p = point as usize;
        push_digit_range(&mut out, d.as_slice(), 0, p);
        out.append(".");
        push_digit_range(&mut out, d.as_slice(), p, k);
        assert(out@ =~= sign + dd.subrange(0, point as int) + seq!['.'] + dd.subrange(point as int, k as int));
    } else if -6 < point && point <= 0 {
        out.append("0.");
        push_zeros(&mut out, (-point) as u64);
        push_digit_range(&mut out, d.as_slice(), 0, k);
        assert(dd.subrange(0, k as int) =~= dd);
        assert(out@ =~= sign + seq!['0', '.'] + zeros(-point) + dd);
    } else {
        push_digit_range(&mut out, d.as_slice(), 0, 1);
        assert(dd.subrange(0, 1) =~= seq![dd[0]]);
        let ghost mid = out@;
        if k > 1 {
            out.append(".");
            push_digit_range(&mut out, d.as_slice(), 1, k);
        }
        assert(out@ =~= mid + (if k > 1 { seq!['.'] + dd.subrange(1, k as int) } else { Seq::empty() }));
        out.append("e");
        let e = point - 1;
        let ghost before = out@;
        if e >= 0 {
            out.append("+");
            push_decimal(&mut out, e as u64);
        } else {
            out.append("-");
            push_decimal(&mut out, (-e) as u64);
        }
        assert(out@ =~= before + (if e >= 0 { seq!['+'] } else { seq!['-'] }) + spec_decimal(
            (if e >= 0 { e as int } else { -e }) as nat,
        ));
    }
    assert(out@ =~= spec_js_number_layout(neg, mantissa@, exp as int));
    out
}

// ---------------------------------------------------------------------------
// Laws
// ---------------------------------------------------------------------------

/// Law: the sign does not depend on the layout: a negative number is
/// written as `-` followed by the text of its magnitude, in every layout.
#[verifier::spinoff_prover]
pub proof fn lemma_layout_sign(mantissa: Seq<char>, exp: int)
    ensures
        spec_js_number_layout(true, mantissa, exp) == seq!['-'] + spec_js_number_layout(
            false,
            mantissa,
            exp,
        ),
{
    let d = significant_digits(mantissa);
    let k = d.len() as int;
    let point = exp + 1;
    let e: Seq<char> = Seq::empty();
    if k <= point && point <= 21 {
        assert(seq!['-'] + d + zeros(point - k) =~= seq!['-'] + (e + d + zeros(point - k)));
    } else if 0 < point && point <= 21 {
        assert(seq!['-'] + d.subrange(0, point) + seq!['.'] + d.subrange(point, k) =~= seq!['-']
            + (e + d.subrange(0, point) + seq!['.'] + d.subrange(point, k)));
    } else if -6 < point && point <= 0 {
        assert(seq!['-'] + seq!['0', '.'] + zeros(-point) + d =~= seq!['-'] + (e + seq!['0', '.']
            + zeros(-point) + d));
    } else {
        let ex = point - 1;
        let frac: Seq<char> = if k > 1 { seq!['.'] + d.subrange(1, k) } else { Seq::empty() };
        let tail = seq!['e'] + (if ex >= 0 { seq!['+'] } else { seq!['-'] }) + spec_decimal(
            (if ex >= 0 { ex } else { -ex }) as nat,
        );
        assert(seq!['-'] + seq![d[0]] + frac + tail =~= seq!['-'] + (e + seq![d[0]] + frac
            + tail));
    }
}

/// Law: `parseInt` reads a negative number exactly when the first
/// character after the leading white space is `-`; a leading `+` reads
/// as positive.
pub proof fn lemma_int_prefix_sign(s: Seq<char>)
    ensures
        spec_int_prefix(s) matches SpecIntPrefix::Digits(neg, _, _) ==> (neg <==> (trim_start_js(
            s,
        ).len() > 0 && trim_start_js(s)[0] == '-')),
{
}

/// A run of digits in `radix` from `i` up to `j`, where the run stops,
/// is what `scan_radix` finds.
proof fn lemma_scan_run(t: Seq<char>, i: int, j: int, radix: u32)
    requires
        0 <= i <= j <= t.len(),
        forall|k: int| i <= k < j ==> #[trigger] char_digit(t[k], radix) is Some,
        j == t.len() || char_digit(t[j], radix) is None,
    ensures
        scan_radix(t, i, radix) == j,
    decreases j - i,
{
    if i < j {
        lemma_scan_run(t, i + 1, j, radix);
    }
}

/// Scanning behind a prefix `p` is scanning `r`, shifted.
proof fn lemma_scan_shift(p: Seq<char>, r: Seq<char>, i: int, radix: u32)
    requires
        0 <= i <= r.len(),
    ensures
        scan_radix(p + r, p.len() + i, radix) == p.len() + scan_radix(r, i, radix),
    decreases r.len() - i,
{
    let t = p + r;
    assert(t.len() == p.len() + r.len());
    if i < r.len() {
        assert(t[p.len() + i] == r[i]);
        if char_digit(r[i], radix) is Some {
            lemma_scan_shift(p, r, i + 1, radix);
        }
    }
}

/// White space trimming leaves a text that starts with a non-space alone.
proof fn lemma_trim_start_noop(s: Seq<char>)
    requires
        s.len() == 0 || !spec_is_js_ws(s[0]),
    ensures
        trim_start_js(s) == s,
{
}

/// Law: a leading `+` does not change what `parseInt` reads, and a
/// leading `-` negates it, for any text that does not itself start with
/// white space or a sign.
#[verifier::spinoff_prover]
pub proof fn lemma_int_prefix_signs(r: Seq<char>)
    requires
        r.len() == 0 || (!spec_is_js_ws(r[0]) && r[0] != '+' && r[0] != '-'),
    ensures
        spec_int_prefix(seq!['+'] + r) == spec_int_prefix(r),
        spec_int_prefix(seq!['-'] + r) == match spec_int_prefix(r) {
            SpecIntPrefix::Digits(_, radix, d) => SpecIntPrefix::Digits(true, radix, d),
            SpecIntPrefix::NotANumber => SpecIntPrefix::NotANumber,
        },
{
    lemma_trim_start_noop(r);
    let n = r.len() as int;
    let hex = 1 < n && r[0] == '0' && (r[1] == 'x' || r[1] == 'X');
    let radix: u32 = if hex { 16 } else { 10 };
    let start = if hex { 2int } else { 0int };
    let k = scan_radix(r, start, radix);
    lemma_scan_radix(r, start, radix);
    lemma_signed_int_text(r, '+', start, radix);
    lemma_signed_int_text(r, '-', start, radix);
}

proof fn lemma_signed_int_text(r: Seq<char>, c: char, start: int, radix: u32)
    requires
        c == '+' || c == '-',
        0 <= start <= r.len(),
    ensures
        ({
            let t = seq![c] + r;
            &&& trim_start_js(t) == t
            &&& scan_radix(t, 1 + start, radix) == 1 + scan_radix(r, start, radix)
            &&& t.subrange(1 + start, 1 + scan_radix(r, start, radix)) == r.subrange(
                start,
                scan_radix(r, start, radix),
            )
            &&& t.len() == 1 + r.len()
            &&& t[0] == c
            &&& forall|i: int| 0 <= i < r.len() ==> #[trigger] t[1 + i] == r[i]
        }),
{
    let t = seq![c] + r;
    lemma_trim_start_noop(t);
    lemma_scan_shift(seq![c], r, start, radix);
    lemma_scan_radix(r, start, radix);
    let k = scan_radix(r, start, radix);
    assert(t.subrange(1 + start, 1 + k) =~= r.subrange(start, k));
}

/// `t` holds the digits `d` of `radix` from `i` on.
pub open spec fn digits_at(t: Seq<char>, i: int, d: Seq<char>) -> bool {
    &&& 0 <= i
    &&& i + d.len() <= t.len()
    &&& forall|k: int| 0 <= k < d.len() ==> #[trigger] t[i + k] == d[k]
}

/// Every character is an ASCII decimal digit.
pub open spec fn decimal_digits(d: Seq<char>) -> bool {
    forall|k: int| 0 <= k < d.len() ==> is_digit_char(#[trigger] d[k])
}

proof fn lemma_digit_run(t: Seq<char>, i: int, j: int)
    requires
        0 <= i <= j <= t.len(),
        forall|k: int| i <= k < j ==> is_digit_char(#[trigger] t[k]),
        j == t.len() || char_digit(t[j], 10) is None,
    ensures
        scan_radix(t, i, 10) == j,
{
    assert forall|k: int| i <= k < j implies #[trigger] char_digit(t[k], 10) is Some by {
        assert(is_digit_char(t[k]));
    }
    lemma_scan_run(t, i, j, 10);
}

/// Law: a whole decimal literal `digits.digits e [sign] digits` (the
/// exponent sign `+` or `-`, or none) is read by `parseFloat` whole, with
/// its exponent.
#[verifier::spinoff_prover]
#[verifier::rlimit(40)]
pub proof fn lemma_float_prefix_reads_exponent(
    a: Seq<char>,
    f: Seq<char>,
    e: char,
    sign: Seq<char>,
    x: Seq<char>,
)
    requires
        a.len() >= 1,
        x.len() >= 1,
        decimal_digits(a),
        decimal_digits(f),
        decimal_digits(x),
        e == 'e' || e == 'E',
        sign.len() == 0 || sign == seq!['+'] || sign == seq!['-'],
    ensures
        ({
            let s = a + seq!['.'] + f + seq![e] + sign + x;
            spec_float_prefix(s) == SpecFloatPrefix::Decimal(s)
        }),
{
    let s = a + seq!['.'] + f + seq![e] + sign + x;
    let n = s.len() as int;
    let la = a.len() as int;
    let lf = f.len() as int;
    let ls = sign.len() as int;
    assert(s[0] == a[0]);
    assert(is_digit_char(a[0]));
    lemma_trim_start_noop(s);
    assert(!(n >= 8 && s.subrange(0, 8) == infinity_word())) by {
        if n >= 8 && s.subrange(0, 8) == infinity_word() {
            assert(s.subrange(0, 8)[0] == s[0]);
        }
    }
    assert forall|k: int| 0 <= k < la implies is_digit_char(#[trigger] s[k]) by {
        assert(s[k] == a[k]);
    }
    assert(s[la] == '.');
    assert(char_digit(s[la], 10) is None);
    lemma_digit_run(s, 0, la);
    assert forall|k: int| la + 1 <= k < la + 1 + lf implies is_digit_char(#[trigger] s[k]) by {
        assert(s[k] == f[k - la - 1]);
    }
    assert(s[la + 1 + lf] == e);
    assert(char_digit(s[la + 1 + lf], 10) is None);
    lemma_digit_run(s, la + 1, la + 1 + lf);
    let j = la + 2 + lf + ls;
    if ls == 1 {
        assert(s[la + 2 + lf] == sign[0]);
    } else {
        assert(s[la + 2 + lf] == x[0]);
        assert(is_digit_char(x[0]));
    }
    assert forall|k: int| j <= k < n implies is_digit_char(#[trigger] s[k]) by {
        assert(s[k] == x[k - j]);
    }
    lemma_digit_run(s, j, n);
    assert(s.subrange(0, n) =~= s);
}

/// Law: a sign in front of a number read by `parseFloat` only signs it:
/// `-` and `+` are kept in front of the decimal text, and `-` makes
/// `Infinity` negative.
pub proof fn lemma_float_prefix_signs(r: Seq<char>, c: char)
    requires
        c == '+' || c == '-',
        r.len() == 0 || (!spec_is_js_ws(r[0]) && r[0] != '+' && r[0] != '-'),
    ensures
        spec_float_prefix(seq![c] + r) == match spec_float_prefix(r) {
            SpecFloatPrefix::Decimal(d) => SpecFloatPrefix::Decimal(seq![c] + d),
            SpecFloatPrefix::Infinity(_) => SpecFloatPrefix::Infinity(c == '-'),
            SpecFloatPrefix::NotANumber => SpecFloatPrefix::NotANumber,
        },
{
    let t = seq![c] + r;
    lemma_trim_start_noop(r);
    lemma_trim_start_noop(t);
    let n = r.len() as int;
    assert(t[0] == c);
    if n >= 8 {
        assert(t.subrange(1, 9) =~= r.subrange(0, 8));
    }
    lemma_decimal_end_shift(c, r);
    lemma_decimal_end_bound(r, 0);
    match decimal_prefix_end(r, 0) {
        Some(i3) => {
            assert(t.subrange(0, 1 + i3) =~= seq![c] + r.subrange(0, i3));
        },
        None => {},
    }
}

proof fn lemma_decimal_end_bound(t: Seq<char>, i0: int)
    requires
        0 <= i0 <= t.len(),
    ensures
        decimal_prefix_end(t, i0) matches Some(i) ==> i0 <= i <= t.len(),
{
    let n = t.len() as int;
    lemma_scan_radix(t, i0, 10);
    let i1 = scan_radix(t, i0, 10);
    let dot = i1 < n && t[i1] == '.';
    if dot {
        lemma_scan_radix(t, i1 + 1, 10);
    }
    let i2 = if dot { scan_radix(t, i1 + 1, 10) } else { i1 };
    if i2 < n && (t[i2] == 'e' || t[i2] == 'E') {
        let j = if i2 + 1 < n && (t[i2 + 1] == '+' || t[i2 + 1] == '-') { i2 + 2 } else { i2 + 1 };
        lemma_scan_radix(t, j, 10);
    }
}

/// The decimal literal behind a one-character prefix is the one of the
/// text after it, shifted.
#[verifier::spinoff_prover]
proof fn lemma_decimal_end_shift(c: char, r: Seq<char>)
    ensures
        decimal_prefix_end(seq![c] + r, 1) == match decimal_prefix_end(r, 0) {
            Some(i) => Some(i + 1),
            None => None::<int>,
        },
{
    let p = seq![c];
    let t = p + r;
    let n = r.len() as int;
    assert(t.len() == n + 1);
    assert forall|i: int| 0 <= i < n implies #[trigger] t[1 + i] == r[i] by {}
    lemma_scan_radix(r, 0, 10);
    lemma_scan_shift(p, r, 0, 10);
    let i1 = scan_radix(r, 0, 10);
    let dot = i1 < n && r[i1] == '.';
    if dot {
        assert(t[1 + i1] == r[i1]);
        lemma_scan_radix(r, i1 + 1, 10);
        lemma_scan_shift(p, r, i1 + 1, 10);
    } else if i1 < n {
        assert(t[1 + i1] == r[i1]);
    }
    let i2 = if dot { scan_radix(r, i1 + 1, 10) } else { i1 };
    if i2 < n {
        assert(t[1 + i2] == r[i2]);
        if i2 + 1 < n {
            assert(t[2 + i2] == r[i2 + 1]);
        }
    }
    if i2 < n && (r[i2] == 'e' || r[i2] == 'E') {
        let j = if i2 + 1 < n && (r[i2 + 1] == '+' || r[i2 + 1] == '-') { i2 + 2 } else { i2 + 1 };
        lemma_scan_radix(r, j, 10);
        lemma_scan_shift(p, r, j, 10);
    }
}

/// A character other than `0`–`9` is no decimal digit.
proof fn lemma_non_digit(c: char)
    requires
        !is_digit_char(c),
    ensures
        char_digit(c, 10) is None,
{
    assert((c as u32) < 48 || (c as u32) > 57);
}

/// The values of decimal digit characters.
pub open spec fn decimal_values(d: Seq<char>) -> Seq<u32> {
    Seq::new(d.len(), |i: int| (d[i] as u32 - 48) as u32)
}

/// Law: `parseInt` reads a run of decimal digits up to the first character
/// that is not one (not starting a `0x` prefix), digit by digit, as a
/// positive number.
pub proof fn lemma_int_prefix_decimal(d: Seq<char>, r: Seq<char>)
    requires
        d.len() >= 1,
        decimal_digits(d),
        r.len() == 0 || !(is_digit_char(r[0]) || r[0] == 'x' || r[0] == 'X'),
    ensures
        spec_int_prefix(d + r) == SpecIntPrefix::Digits(false, 10, decimal_values(d)),
{
    let t = d + r;
    let n = d.len() as int;
    assert(t[0] == d[0]);
    assert(is_digit_char(d[0]));
    lemma_trim_start_noop(t);
    assert forall|k: int| 0 <= k < n implies is_digit_char(#[trigger] t[k]) by {
        assert(t[k] == d[k]);
    }
    if r.len() > 0 {
        assert(t[n] == r[0]);
        lemma_non_digit(r[0]);
    }
    if n >= 2 {
        assert(t[1] == d[1]);
        assert(is_digit_char(d[1]));
    }
    lemma_digit_run(t, 0, n);
    assert(t.subrange(0, n) =~= d);
    assert forall|i: int| 0 <= i < n implies #[trigger] radix_digits(d, 10)[i] == decimal_values(d)[i] by {
        assert(is_digit_char(d[i]));
    }
    assert(radix_digits(d, 10) =~= decimal_values(d));
}

/// Law: without an exponent, `parseFloat` reads digits, then a point and
/// digits (at least one digit in all), and stops at the first character
/// that cannot continue the literal, whatever follows.
#[verifier::spinoff_prover]
#[verifier::rlimit(40)]
pub proof fn lemma_float_prefix_stops(a: Seq<char>, dot: bool, f: Seq<char>, r: Seq<char>)
    requires
        decimal_digits(a),
        decimal_digits(f),
        a.len() >= 1 || (dot && f.len() >= 1),
        !dot ==> f.len() == 0,
        r.len() == 0 || !(is_digit_char(r[0]) || r[0] == 'e' || r[0] == 'E' || (!dot && r[0]
            == '.')),
    ensures
        ({
            let lit = if dot { a + seq!['.'] + f } else { a };
            spec_float_prefix(lit + r) == SpecFloatPrefix::Decimal(lit)
        }),
{
    let lit = if dot { a + seq!['.'] + f } else { a };
    let s = lit + r;
    let n = s.len() as int;
    let la = a.len() as int;
    let lf = f.len() as int;
    let ll = lit.len() as int;
    assert(ll == if dot { la + 1 + lf } else { la });
    assert forall|k: int| 0 <= k < ll implies #[trigger] s[k] == lit[k] by {}
    assert forall|k: int| 0 <= k < la implies is_digit_char(#[trigger] s[k]) by {
        assert(s[k] == lit[k]);
        assert(lit[k] == a[k]);
    }
    if la >= 1 {
        assert(s[0] == a[0]);
        assert(is_digit_char(a[0]));
    } else {
        assert(s[0] == '.');
    }
    lemma_trim_start_noop(s);
    assert(!(n >= 8 && s.subrange(0, 8) == infinity_word())) by {
        if n >= 8 && s.subrange(0, 8) == infinity_word() {
            assert(s.subrange(0, 8)[0] == s[0]);
        }
    }
    if r.len() > 0 {
        assert(s[ll] == r[0]);
        lemma_non_digit(r[0]);
    }
    if dot {
        assert(s[la] == '.');
        assert(char_digit(s[la], 10) is None);
        lemma_digit_run(s, 0, la);
        assert forall|k: int| la + 1 <= k < la + 1 + lf implies is_digit_char(#[trigger] s[k]) by {
            assert(s[k] == lit[k]);
            assert(lit[k] == f[k - la - 1]);
        }
        lemma_digit_run(s, la + 1, ll);
    } else {
        lemma_digit_run(s, 0, la);
    }
    assert(s.subrange(0, ll) =~= lit);
}

proof fn lemma_drop_dots_digits(m: Seq<char>)
    requires
        mantissa_chars(m),
    ensures
        forall|i: int| 0 <= i < drop_dots(m).len() ==> is_digit_char(#[trigger] drop_dots(m)[i]),
    decreases m.len(),
{
    if m.len() > 0 {
        let m1 = m.drop_last();
        assert forall|i: int| 0 <= i < m1.len() implies (is_digit_char(#[trigger] m1[i]) || m1[i]
            == '.') by {
            assert(m1[i] == m[i]);
        }
        lemma_drop_dots_digits(m1);
        assert(is_digit_char(m[m.len() - 1]) || m[m.len() - 1] == '.');
        if m.last() != '.' {
            let p = drop_dots(m1);
            assert(drop_dots(m) == p.push(m.last()));
            assert forall|i: int| 0 <= i < drop_dots(m).len() implies is_digit_char(
                #[trigger] drop_dots(m)[i],
            ) by {
                if i < p.len() {
                    assert(drop_dots(m)[i] == p[i]);
                }
            }
        }
    }
}

proof fn lemma_trim_zeros_prefix(d: Seq<char>)
    ensures
        trim_zeros(d).len() <= d.len(),
        forall|i: int| 0 <= i < trim_zeros(d).len() ==> #[trigger] trim_zeros(d)[i] == d[i],
    decreases d.len(),
{
    if d.len() > 0 && d.last() == '0' {
        lemma_trim_zeros_prefix(d.drop_last());
    }
}

/// The significant digits are one or more decimal digits.
proof fn lemma_significant_digits(m: Seq<char>)
    requires
        mantissa_chars(m),
    ensures
        significant_digits(m).len() >= 1,
        forall|i: int|
            0 <= i < significant_digits(m).len() ==> is_digit_char(#[trigger] significant_digits(m)[i]),
{
    lemma_drop_dots_digits(m);
    lemma_trim_zeros_prefix(drop_dots(m));
    let t = trim_zeros(drop_dots(m));
    if t.len() > 0 {
        assert forall|i: int| 0 <= i < t.len() implies is_digit_char(#[trigger] t[i]) by {
            assert(t[i] == drop_dots(m)[i]);
        }
    }
}

/// Law: JavaScript writes a number in exponent form exactly when its
/// decimal exponent is 21 or more, or -7 or less; the text then ends with
/// `e`, the sign of the exponent and its digits.
#[verifier::spinoff_prover]
#[verifier::rlimit(40)]
pub proof fn lemma_layout_exponent_form(neg: bool, mantissa: Seq<char>, exp: int)
    requires
        mantissa_chars(mantissa),
    ensures
        spec_js_number_layout(neg, mantissa, exp).contains('e') <==> (exp >= 21 || exp <= -7),
        (exp >= 21 || exp <= -7) ==> {
            let l = spec_js_number_layout(neg, mantissa, exp);
            let tail = seq!['e'] + (if exp >= 0 { seq!['+'] } else { seq!['-'] }) + spec_decimal(
                (if exp >= 0 { exp } else { -exp }) as nat,
            );
            l.len() >= tail.len() && l.subrange(l.len() - tail.len(), l.len() as int) == tail
        },
{
    lemma_significant_digits(mantissa);
    let d = significant_digits(mantissa);
    let k = d.len() as int;
    let point = exp + 1;
    let sign: Seq<char> = if neg { seq!['-'] } else { Seq::empty() };
    let l = spec_js_number_layout(neg, mantissa, exp);
    assert forall|i: int| 0 <= i < k implies #[trigger] d[i] != 'e' by {
        assert(is_digit_char(d[i]));
    }
    if -6 < point && point <= 21 {
        assert forall|i: int| 0 <= i < l.len() implies #[trigger] l[i] != 'e' by {
            if k <= point && point <= 21 {
                assert(l == sign + d + zeros(point - k));
            } else if 0 < point && point <= 21 {
                assert(l == sign + d.subrange(0, point) + seq!['.'] + d.subrange(point, k));
            } else {
                assert(l == sign + seq!['0', '.'] + zeros(-point) + d);
            }
        }
        assert(!l.contains('e'));
    } else {
        let e = point - 1;
        let frac: Seq<char> = if k > 1 { seq!['.'] + d.subrange(1, k) } else { Seq::empty() };
        let tail = seq!['e'] + (if e >= 0 { seq!['+'] } else { seq!['-'] }) + spec_decimal(
            (if e >= 0 { e } else { -e }) as nat,
        );
        let pre = sign + seq![d[0]] + frac;
        assert(l =~= pre + tail);
        assert(l[pre.len() as int] == 'e');
        assert(l.subrange(l.len() - tail.len(), l.len() as int) =~= tail);
    }
}

proof fn lemma_drop_dots_concat(a: Seq<char>, b: Seq<char>)
    ensures
        drop_dots(a + b) == drop_dots(a) + drop_dots(b),
    decreases b.len(),
{
    if b.len() == 0 {
        assert(a + b =~= a);
        assert(drop_dots(a) + drop_dots(b) =~= drop_dots(a));
    } else {
        lemma_drop_dots_concat(a, b.drop_last());
        assert((a + b).drop_last() =~= a + b.drop_last());
        assert((a + b).last() == b.last());
        if b.last() != '.' {
            assert(drop_dots(a) + drop_dots(b.drop_last()).push(b.last()) =~= (drop_dots(a)
                + drop_dots(b.drop_last())).push(b.last()));
        }
    }
}

proof fn lemma_drop_dots_none(s: Seq<char>)
    requires
        forall|i: int| 0 <= i < s.len() ==> #[trigger] s[i] != '.',
    ensures
        drop_dots(s) == s,
    decreases s.len(),
{
    if s.len() > 0 {
        let s1 = s.drop_last();
        assert forall|i: int| 0 <= i < s1.len() implies #[trigger] s1[i] != '.' by {
            assert(s1[i] == s[i]);
        }
        lemma_drop_dots_none(s1);
        assert(s[s.len() - 1] != '.');
        assert(s1.push(s.last()) =~= s);
    }
}

/// Law: between `1e-7` and `1e21` a number is written with its digits
/// in place: the text without its point is the significant digits, padded
/// with zeros after them up to the units for a large integer, or preceded
/// by the zeros before them (the one before the point included) for a
/// number below 1; the point, when there is one, stands after the integer
/// digits (after the single `0` below 1), and an integer has none.
#[verifier::spinoff_prover]
#[verifier::rlimit(40)]
pub proof fn lemma_layout_digits_in_place(mantissa: Seq<char>, exp: int)
    requires
        mantissa_chars(mantissa),
        -7 < exp < 21,
    ensures
        ({
            let l = spec_js_number_layout(false, mantissa, exp);
            let d = significant_digits(mantissa);
            let k = d.len() as int;
            let point = exp + 1;
            &&& drop_dots(l) == (if point <= 0 {
                zeros(1 - point) + d
            } else if k <= point {
                d + zeros(point - k)
            } else {
                d
            })
            &&& (l.contains('.') <==> !(0 < point && k <= point))
            &&& !(0 < point && k <= point) ==> l[if point <= 0 { 1 } else { point }] == '.'
        }),
{
    lemma_significant_digits(mantissa);
    let d = significant_digits(mantissa);
    let k = d.len() as int;
    let point = exp + 1;
    let l = spec_js_number_layout(false, mantissa, exp);
    let e: Seq<char> = Seq::empty();
    assert forall|i: int| 0 <= i < k implies #[trigger] d[i] != '.' by {
        assert(is_digit_char(d[i]));
    }
    if k <= point && point <= 21 {
        let z = zeros(point - k);
        assert(l =~= d + z);
        assert forall|i: int| 0 <= i < l.len() implies #[trigger] l[i] != '.' by {
            if i >= k {
                assert(l[i] == z[i - k]);
            } else {
                assert(l[i] == d[i]);
            }
        }
        lemma_drop_dots_none(l);
    } else if 0 < point && point <= 21 {
        let a = d.subrange(0, point);
        let b = d.subrange(point, k);
        assert(l =~= a + seq!['.'] + b);
        assert forall|i: int| 0 <= i < a.len() implies #[trigger] a[i] != '.' by {
            assert(a[i] == d[i]);
        }
        assert forall|i: int| 0 <= i < b.len() implies #[trigger] b[i] != '.' by {
            assert(b[i] == d[point + i]);
        }
        lemma_drop_dots_none(a);
        lemma_drop_dots_none(b);
        lemma_drop_dots_concat(a + seq!['.'], b);
        lemma_drop_dots_concat(a, seq!['.']);
        assert(seq!['.'].drop_last() =~= Seq::<char>::empty());
        assert(seq!['.'].last() == '.');
        assert(drop_dots(seq!['.']) == drop_dots(Seq::<char>::empty()));
        assert(a + Seq::<char>::empty() + b =~= d);
        assert(l[point] == '.');
    } else {
        let z = zeros(-point);
        assert(l =~= seq!['0', '.'] + z + d);
        assert forall|i: int| 0 <= i < z.len() implies #[trigger] z[i] != '.' by {}
        lemma_drop_dots_none(z);
        lemma_drop_dots_none(d);
        lemma_drop_dots_concat(seq!['0', '.'] + z, d);
        lemma_drop_dots_concat(seq!['0', '.'], z);
        assert(seq!['0', '.'].drop_last() =~= seq!['0']);
        assert(seq!['0'].drop_last() =~= Seq::<char>::empty());
        assert(seq!['0', '.'].last() == '.');
        assert(drop_dots(seq!['0', '.']) == drop_dots(seq!['0']));
        assert(seq!['0'].last() == '0');
        assert(drop_dots(Seq::<char>::empty()) == Seq::<char>::empty());
        assert(drop_dots(seq!['0']) == drop_dots(Seq::<char>::empty()).push('0'));
        assert(drop_dots(seq!['0']) =~= seq!['0']);
        assert(seq!['0'] + z + d =~= zeros(1 - point) + d);
        assert(l[1] == '.');
    }
}

proof fn lemma_trim_zeros_shape(d: Seq<char>)
    ensures
        trim_zeros(d) + zeros(d.len() - trim_zeros(d).len()) == d,
        trim_zeros(d).len() == 0 || trim_zeros(d).last() != '0',
    decreases d.len(),
{
    if d.len() > 0 && d.last() == '0' {
        let d1 = d.drop_last();
        lemma_trim_zeros_shape(d1);
        let t = trim_zeros(d1);
        assert(trim_zeros(d) == t);
        assert(t + zeros(d.len() - t.len()) =~= (t + zeros(d1.len() - t.len())).push('0'));
        assert(d1.push('0') =~= d);
    } else {
        assert(d + zeros(0) =~= d);
    }
}

/// Law: the significant digits of a mantissa are its digits (without the
/// point) up to the last nonzero one, so that they followed by zeros give
/// back all its digits; for a mantissa of zeros they are `0`.
pub proof fn lemma_significant_digits_shape(m: Seq<char>)
    ensures
        ({
            let all = drop_dots(m);
            let sd = significant_digits(m);
            ||| (sd.last() != '0' && all == sd + zeros(all.len() - sd.len()))
            ||| (sd == seq!['0'] && all == zeros(all.len() as int))
        }),
{
    let all = drop_dots(m);
    lemma_trim_zeros_shape(all);
    let t = trim_zeros(all);
    if t.len() == 0 {
        assert(Seq::<char>::empty() + zeros(all.len() as int) =~= zeros(all.len() as int));
    }
}

} // verus!
