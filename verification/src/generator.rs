//! Equation text from PID parameters: byte range, signedness, and the
//! scale and offset already written as text.
//!
//! The bytes `start..=end` are combined big-endian (`A*256 + B`); a signed
//! value goes through `SIGNED`, `SIGNED16`, or an `IF … THEN … ELSE` for
//! wider values; the scale multiplies and the offset is added last.
use vstd::prelude::*;
use vstd::string::*;
use crate::text::{push_decimal, spec_decimal};
use crate::variables::{byte_var_name, spec_byte_var_name};

verus! {

/// `b` to the power `e`.
pub open spec fn pow_nat(b: nat, e: nat) -> nat
    decreases e,
{
    if e == 0 {
        1
    } else {
        b * pow_nat(b, (e - 1) as nat)
    }
}

/// The term of byte `index` with weight `256^power`: the byte's name,
/// times the weight when the weight is not 1.
pub open spec fn byte_term(index: nat, power: nat) -> Seq<char> {
    if power > 0 {
        spec_byte_var_name(index) + "*"@ + spec_decimal(pow_nat(256, power))
    } else {
        spec_byte_var_name(index)
    }
}

/// The first `k` of the `count` terms for the bytes from `start`, joined
/// by ` + `.
pub open spec fn joined_terms(start: nat, count: nat, k: nat) -> Seq<char>
    decreases k,
{
    if k == 0 {
        Seq::empty()
    } else {
        let prev = joined_terms(start, count, (k - 1) as nat);
        let t = byte_term((start + k - 1) as nat, (count - k) as nat);
        if k == 1 {
            t
        } else {
            prev + " + "@ + t
        }
    }
}

/// The unsigned value of `count` bytes from `start`, big-endian.
pub open spec fn combined_terms(start: nat, count: nat) -> Seq<char> {
    joined_terms(start, count, count)
}

/// The value, made signed when asked: `SIGNED` for one byte, `SIGNED16`
/// for two, and an explicit two's-complement `IF` for more.
pub open spec fn inner_expr(start: nat, count: nat, signed: bool) -> Seq<char> {
    let c = combined_terms(start, count);
    if !signed {
        c
    } else if count == 1 {
        "SIGNED("@ + c + ")"@
    } else if count == 2 {
        "SIGNED16("@ + c + ")"@
    } else {
        "IF "@ + c + " >= "@ + spec_decimal(pow_nat(2, (8 * count - 1) as nat)) + " THEN "@ + c
            + " - "@ + spec_decimal(pow_nat(2, 8 * count)) + " ELSE "@ + c
    }
}

/// The byte range is one the generator accepts.
pub open spec fn valid_range(start_byte: i32, end_byte: i32) -> bool {
    0 <= start_byte <= end_byte <= 63
}

/// The whole equation: the value (in parentheses when it is compound and
/// scaled), times the scale when there is one, plus the offset when there
/// is one. `None` for an invalid byte range.
pub open spec fn spec_generate(
    scale: Option<Seq<char>>,
    offset: Option<Seq<char>>,
    start_byte: i32,
    end_byte: i32,
    signed: bool,
) -> Option<Seq<char>> {
    if !valid_range(start_byte, end_byte) {
        None
    } else {
        let start = start_byte as nat;
        let count = (end_byte - start_byte + 1) as nat;
        let inner = inner_expr(start, count, signed);
        let scaled = if count > 1 || signed { "("@ + inner + ")"@ } else { inner };
        Some(
            match (scale, offset) {
                (None, None) => inner,
                (None, Some(o)) => inner + " + "@ + o,
                (Some(s), None) => s + " * "@ + scaled,
                (Some(s), Some(o)) => s + " * "@ + scaled + " + "@ + o,
            },
        )
    }
}

/// The weights fit the 64-bit integers they are computed in: at most eight
/// bytes, and at most seven for a signed value of three or more bytes.
pub open spec fn generate_fits(start_byte: i32, end_byte: i32, signed: bool) -> bool {
    valid_range(start_byte, end_byte) ==> {
        let count = end_byte - start_byte + 1;
        &&& count <= 8
        &&& (signed && count >= 3 ==> count <= 7)
    }
}

/// Appends the decimal text of `256^power`.
fn push_pow(s: &mut String, b: u64, power: u64)
    requires
        b == 2 || b == 256,
        pow_nat(b as nat, power as nat) <= u64::MAX,
    ensures
        final(s)@ == old(s)@ + spec_decimal(pow_nat(b as nat, power as nat)),
{
    let mut v: u64 = 1;
    let mut k: u64 = 0;
    while k < power
        invariant
            b == 2 || b == 256,
            k <= power,
            v == pow_nat(b as nat, k as nat),
            pow_nat(b as nat, power as nat) <= u64::MAX,
        decreases power - k,
    {
        proof {
            lemma_pow_mono(b as nat, (k + 1) as nat, power as nat);
        }
        v = v * b;
        k += 1;
    }
    push_decimal(s, v);
}

/// A larger exponent gives a power at least as large.
proof fn lemma_pow_mono(b: nat, e1: nat, e2: nat)
    requires
        b >= 1,
        e1 <= e2,
    ensures
        pow_nat(b, e1) <= pow_nat(b, e2),
    decreases e2,
{
    if e1 < e2 {
        lemma_pow_mono(b, e1, (e2 - 1) as nat);
        assert(pow_nat(b, (e2 - 1) as nat) <= b * pow_nat(b, (e2 - 1) as nat)) by (nonlinear_arith)
            requires
                b >= 1,
        ;
    }
}


/// The powers the generator writes fit in 64 bits.
proof fn lemma_pow_bounds()
    ensures
        pow_nat(256, 7) == 0x100_0000_0000_0000,
        pow_nat(2, 56) == 0x100_0000_0000_0000,
{
    reveal_with_fuel(pow_nat, 8);
    assert(pow_nat(2, 8) == 256) by {
        reveal_with_fuel(pow_nat, 9);
    }
    lemma_pow_add(2, 8, 48);
    assert(pow_nat(2, 48) == 0x1_0000_0000_0000) by {
        lemma_pow_add(2, 8, 40);
        lemma_pow_add(2, 8, 32);
        lemma_pow_add(2, 8, 24);
        lemma_pow_add(2, 8, 16);
        lemma_pow_add(2, 8, 8);
    }
}

/// `b^(e1 + e2) == b^e1 * b^e2`.
proof fn lemma_pow_add(b: nat, e1: nat, e2: nat)
    ensures
        pow_nat(b, e1 + e2) == pow_nat(b, e1) * pow_nat(b, e2),
    decreases e1,
{
    if e1 > 0 {
        lemma_pow_add(b, (e1 - 1) as nat, e2);
        assert(pow_nat(b, e1 + e2) == b * pow_nat(b, (e1 - 1 + e2) as nat));
        assert(b * (pow_nat(b, (e1 - 1) as nat) * pow_nat(b, e2)) == (b * pow_nat(b, (e1 - 1) as nat))
            * pow_nat(b, e2)) by (nonlinear_arith);
        assert(pow_nat(b, e1) == b * pow_nat(b, (e1 - 1) as nat));
    } else {
        assert(pow_nat(b, 0) == 1);
        assert(e1 + e2 == e2);
    }
}

/// Appends the term of byte `index` with weight `256^power`.
fn push_term(s: &mut String, index: usize, power: usize)
    requires
        power <= 7,
    ensures
        final(s)@ == old(s)@ + byte_term(index as nat, power as nat),
{
    proof {
        reveal_strlit("*");
    }
    let name = byte_var_name(index);
    s.append(name.as_str());
    if power > 0 {
        s.append("*");
        proof {
            lemma_pow_mono(256, power as nat, 7);
            lemma_pow_bounds();
        }
        push_pow(s, 256, power as u64);
    }
    assert(final(s)@ =~= old(s)@ + byte_term(index as nat, power as nat));
}

/// Appends the `count` byte terms for the bytes from `start`, joined by
/// ` + `.
fn push_terms(s: &mut String, start: usize, count: usize)
    requires
        1 <= count <= 8,
        start + count <= 64,
    ensures
        final(s)@ == old(s)@ + combined_terms(start as nat, count as nat),
{
    let mut k: usize = 0;
    while k < count
        invariant
            k <= count <= 8,
            start + count <= 64,
            s@ == old(s)@ + joined_terms(start as nat, count as nat, k as nat),
        decreases count - k,
    {
        proof {
            reveal_strlit(" + ");
        }
        let ghost before = s@;
        if k > 0 {
            s.append(" + ");
        }
        push_term(s, start + k, count - 1 - k);
        let ghost t = byte_term((start + k) as nat, (count - 1 - k) as nat);
        let ghost prev = joined_terms(start as nat, count as nat, k as nat);
        assert(joined_terms(start as nat, count as nat, (k + 1) as nat) == if k == 0 { t } else {
            prev + " + "@ + t
        });
        assert(s@ =~= old(s)@ + joined_terms(start as nat, count as nat, (k + 1) as nat));
        k += 1;
    }
}

/// The view of an optional text.
pub open spec fn opt_text(o: Option<&str>) -> Option<Seq<char>> {
    match o {
        Some(t) => Some(t@),
        None => None,
    }
}

/// Equation text for the bytes `start_byte..=end_byte` (0 is `A`), signed
/// or not, with `scale` (written as text; `None` for a scale of 1) and
/// `offset` (`None` for an offset of 0). `None` for a byte range outside
/// `0..=63` or with its end before its start.
pub fn generate_equation_text(
    scale: Option<&str>,
    offset: Option<&str>,
    start_byte: i32,
    end_byte: i32,
    signed: bool,
) -> (r: Option<String>)
    requires
        generate_fits(start_byte, end_byte, signed),
    ensures
        match r {
            Some(t) => spec_generate(opt_text(scale), opt_text(offset), start_byte, end_byte, signed)
                == Some(t@),
            None => spec_generate(opt_text(scale), opt_text(offset), start_byte, end_byte, signed)
                is None,
        },
{
    if start_byte < 0 || end_byte < start_byte || end_byte > 63 {
        return None;
    }
    proof {
        reveal_strlit("SIGNED(");
        reveal_strlit("SIGNED16(");
        reveal_strlit(")");
        reveal_strlit("(");
        reveal_strlit("IF ");
        reveal_strlit(" >= ");
        reveal_strlit(" THEN ");
        reveal_strlit(" - ");
        reveal_strlit(" ELSE ");
        reveal_strlit(" + ");
        reveal_strlit(" * ");
    }
    let start = start_byte as usize;
    let count = (end_byte - start_byte + 1) as usize;
    let mut combined = String::new();
    push_terms(&mut combined, start, count);
    let c = combined.as_str();
    let mut inner = String::new();
    if !signed {
        inner.append(c);
    } else if count == 1 {
        inner.append("SIGNED(");
        inner.append(c);
        inner.append(")");
    } else if count == 2 {
        inner.append("SIGNED16(");
        inner.append(c);
        inner.append(")");
    } else {
        proof {
            lemma_pow_bounds();
            lemma_pow_mono(2, (8 * count - 1) as nat, 56);
            lemma_pow_mono(2, (8 * count) as nat, 56);
        }
        inner.append("IF ");
        inner.append(c);
        inner.append(" >= ");
        push_pow(&mut inner, 2, (8 * count - 1) as u64);
        inner.append(" THEN ");
        inner.append(c);
        inner.append(" - ");
        push_pow(&mut inner, 2, (8 * count) as u64);
        inner.append(" ELSE ");
        inner.append(c);
    }
    let ghost vi = inner@;
    assert(vi =~= inner_expr(start as nat, count as nat, signed));
    let needs_parens = count > 1 || signed;
    let mut scaled = String::new();
    if needs_parens {
        scaled.append("(");
        scaled.append(inner.as_str());
        scaled.append(")");
    } else {
        scaled.append(inner.as_str());
    }
    let mut eq = String::new();
    match (scale, offset) {
        (None, None) => {
            eq.append(inner.as_str());
        },
        (None, Some(o)) => {
            eq.append(inner.as_str());
            eq.append(" + ");
            eq.append(o);
        },
        (Some(sc), None) => {
            eq.append(sc);
            eq.append(" * ");
            eq.append(scaled.as_str());
        },
        (Some(sc), Some(o)) => {
            eq.append(sc);
            eq.append(" * ");
            eq.append(scaled.as_str());
            eq.append(" + ");
            eq.append(o);
        },
    }
    assert(Some(eq@) =~= spec_generate(opt_text(scale), opt_text(offset), start_byte, end_byte, signed));
    Some(eq)
}

/// `2^(8k)` is `256^k`.
proof fn lemma_pow2_bytes(k: nat)
    ensures
        pow_nat(2, 8 * k) == pow_nat(256, k),
    decreases k,
{
    if k > 0 {
        lemma_pow2_bytes((k - 1) as nat);
        lemma_pow_add(2, 8, 8 * (k - 1) as nat);
        assert(pow_nat(2, 8) == 256) by {
            reveal_with_fuel(pow_nat, 9);
        }
        assert(8 + 8 * (k - 1) as nat == 8 * k);
    }
}

/// Law: a signed value of three or more bytes is read as two's complement
/// of its `8 * count` bits. The number compared against is the weight of
/// the sign bit, 128 times the weight of the first (most significant)
/// byte, and the number subtracted is twice that, `2^(8 * count)`; with
/// neither scale nor offset this is the whole equation.
pub proof fn lemma_signed_threshold(start_byte: i32, end_byte: i32)
    requires
        valid_range(start_byte, end_byte),
        end_byte - start_byte + 1 >= 3,
    ensures
        ({
            let count = (end_byte - start_byte + 1) as nat;
            let c = combined_terms(start_byte as nat, count);
            let top = pow_nat(256, (count - 1) as nat);
            let text = "IF "@ + c + " >= "@ + spec_decimal(128 * top) + " THEN "@ + c + " - "@
                + spec_decimal(256 * top) + " ELSE "@ + c;
            &&& inner_expr(start_byte as nat, count, true) == text
            &&& spec_generate(None, None, start_byte, end_byte, true) == Some(text)
            &&& 128 * top == pow_nat(2, (8 * count - 1) as nat)
            &&& 256 * top == pow_nat(2, 8 * count)
        }),
{
    let count = (end_byte - start_byte + 1) as nat;
    let k = (count - 1) as nat;
    lemma_pow2_bytes(k);
    lemma_pow_add(2, 7, 8 * k);
    lemma_pow_add(2, 8, 8 * k);
    assert(pow_nat(2, 7) == 128 && pow_nat(2, 8) == 256) by {
        reveal_with_fuel(pow_nat, 9);
    }
    assert(7 + 8 * k == (8 * count - 1) as nat);
    assert(8 + 8 * k == 8 * count);
}

/// The first of several terms, then the terms of the bytes after it.
proof fn lemma_joined_split(start: nat, count: nat, k: nat)
    requires
        2 <= k <= count,
    ensures
        joined_terms(start, count, k) == byte_term(start, (count - 1) as nat) + " + "@
            + joined_terms(start + 1, (count - 1) as nat, (k - 1) as nat),
    decreases k,
{
    let c1 = (count - 1) as nat;
    let a = byte_term(start, c1);
    if k > 2 {
        let k1 = (k - 1) as nat;
        let k2 = (k - 2) as nat;
        lemma_joined_split(start, count, k1);
        let mid = joined_terms(start + 1, c1, k2);
        let last = byte_term((start + k - 1) as nat, (count - k) as nat);
        assert(joined_terms(start, count, k) == joined_terms(start, count, k1) + " + "@ + last);
        assert(joined_terms(start, count, k1) == a + " + "@ + mid);
        assert(joined_terms(start + 1, c1, k1) == mid + " + "@ + byte_term(
            (start + 1 + k1 - 1) as nat,
            (c1 - k1) as nat,
        ));
        assert((start + 1 + k1 - 1) as nat == (start + k - 1) as nat);
        assert((c1 - k1) as nat == (count - k) as nat);
        assert(a + " + "@ + mid + " + "@ + last =~= a + " + "@ + (mid + " + "@ + last));
    } else {
        assert(joined_terms(start, count, 1) == a);
        assert(joined_terms(start + 1, c1, 1) == byte_term((start + 1 + 1 - 1) as nat, (c1 - 1) as nat));
        assert(joined_terms(start, count, 2) == a + " + "@ + byte_term(
            (start + 2 - 1) as nat,
            (count - 2) as nat,
        ));
    }
}

/// Law: the unsigned equation of a single byte is the byte's name; that of
/// a longer range is the first byte's name times `256^(bytes after it)`,
/// plus the equation of the bytes after it (big-endian weights).
pub proof fn lemma_unsigned_equation(start_byte: i32, end_byte: i32)
    requires
        valid_range(start_byte, end_byte),
    ensures
        start_byte == end_byte ==> spec_generate(None, None, start_byte, end_byte, false) == Some(
            spec_byte_var_name(start_byte as nat),
        ),
        start_byte < end_byte ==> spec_generate(None, None, start_byte, end_byte, false) == Some(
            spec_byte_var_name(start_byte as nat) + "*"@ + spec_decimal(
                pow_nat(256, (end_byte - start_byte) as nat),
            ) + " + "@ + spec_generate(None, None, (start_byte + 1) as i32, end_byte, false).unwrap(),
        ),
{
    let count = (end_byte - start_byte + 1) as nat;
    if start_byte < end_byte {
        lemma_joined_split(start_byte as nat, count, count);
        assert(((start_byte + 1) as i32) as nat == start_byte as nat + 1);
    }
}

/// Law: a signed value of one byte is `SIGNED` of the unsigned equation,
/// of two bytes `SIGNED16` of it, and of more bytes the two's-complement
/// `IF` over it.
pub proof fn lemma_signed_equation(start_byte: i32, end_byte: i32)
    requires
        valid_range(start_byte, end_byte),
    ensures
        ({
            let count = end_byte - start_byte + 1;
            let u = spec_generate(None, None, start_byte, end_byte, false).unwrap();
            let v = spec_generate(None, None, start_byte, end_byte, true).unwrap();
            &&& count == 1 ==> v == "SIGNED("@ + u + ")"@
            &&& count == 2 ==> v == "SIGNED16("@ + u + ")"@
            &&& count >= 3 ==> v == "IF "@ + u + " >= "@ + spec_decimal(pow_nat(2, (8 * count - 1) as nat))
                + " THEN "@ + u + " - "@ + spec_decimal(pow_nat(2, (8 * count) as nat)) + " ELSE "@ + u
        }),
{
    if end_byte - start_byte + 1 >= 3 {
        lemma_signed_threshold(start_byte, end_byte);
    }
}

/// Law: the scale multiplies and the offset is added to the equation
/// without them; the scaled value is put in parentheses when it is
/// compound (several bytes, or signed).
pub proof fn lemma_scale_and_offset(
    scale: Seq<char>,
    offset: Seq<char>,
    start_byte: i32,
    end_byte: i32,
    signed: bool,
)
    requires
        valid_range(start_byte, end_byte),
    ensures
        ({
            let u = spec_generate(None, None, start_byte, end_byte, signed).unwrap();
            let w = if end_byte > start_byte || signed { "("@ + u + ")"@ } else { u };
            &&& spec_generate(None, Some(offset), start_byte, end_byte, signed) == Some(u + " + "@ + offset)
            &&& spec_generate(Some(scale), None, start_byte, end_byte, signed) == Some(scale + " * "@ + w)
            &&& spec_generate(Some(scale), Some(offset), start_byte, end_byte, signed) == Some(
                scale + " * "@ + w + " + "@ + offset,
            )
        }),
{
}

} // verus!
