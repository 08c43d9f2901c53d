//! Decimal digits and ASCII text helpers shared by the name, generator and
//! lexer code.
use vstd::prelude::*;
use vstd::string::*;
use vstd::utf8::*;

verus! {

/// ASCII decimal digit.
pub open spec fn is_digit_byte(b: u8) -> bool {
    48 <= b <= 57
}

/// Value of a (possibly empty) string of ASCII decimal digits.
pub open spec fn spec_digits_value(d: Seq<u8>) -> nat
    decreases d.len(),
{
    if d.len() == 0 {
        0
    } else {
        spec_digits_value(d.drop_last()) * 10 + (d.last() - 48) as nat
    }
}

pub proof fn lemma_digits_value_step(d: Seq<u8>)
    requires
        d.len() > 0,
    ensures
        spec_digits_value(d) == spec_digits_value(d.drop_last()) * 10 + (d.last() - 48) as nat,
{
}

/// The character for a decimal digit value.
pub open spec fn digit_char(d: nat) -> char {
    ((48 + d % 10) as u8) as char
}

/// Shortest decimal representation of a natural number.
pub open spec fn spec_decimal(n: nat) -> Seq<char>
    decreases n,
{
    if n < 10 {
        seq![digit_char(n)]
    } else {
        spec_decimal(n / 10).push(digit_char(n % 10))
    }
}

/// The same representation as bytes.
pub open spec fn spec_decimal_bytes(n: nat) -> Seq<u8>
    decreases n,
{
    if n < 10 {
        seq![(48 + n) as u8]
    } else {
        spec_decimal_bytes(n / 10).push((48 + n % 10) as u8)
    }
}

/// The ASCII bytes of a character sequence (each character cast to a byte).
pub open spec fn ascii_bytes(s: Seq<char>) -> Seq<u8> {
    Seq::new(s.len(), |i: int| s[i] as u8)
}

pub proof fn lemma_decimal_facts(n: nat)
    ensures
        is_ascii_chars(spec_decimal(n)),
        ascii_bytes(spec_decimal(n)) == spec_decimal_bytes(n),
        encode_utf8(spec_decimal(n)) == spec_decimal_bytes(n),
        spec_decimal_bytes(n).len() >= 1,
        forall|i: int|
            0 <= i < spec_decimal_bytes(n).len() ==> is_digit_byte(
                #[trigger] spec_decimal_bytes(n)[i],
            ),
        spec_digits_value(spec_decimal_bytes(n)) == n,
    decreases n,
{
    if n >= 10 {
        lemma_decimal_facts(n / 10);
        assert(spec_decimal_bytes(n).drop_last() =~= spec_decimal_bytes(n / 10));
        assert(n / 10 * 10 + n % 10 == n) by (nonlinear_arith);
        assert(spec_decimal_bytes(n).last() == (48 + n % 10) as u8);
        assert(((48 + n % 10) as u8 - 48) as nat == n % 10);
        assert(spec_digits_value(spec_decimal_bytes(n)) == spec_digits_value(spec_decimal_bytes(n / 10)) * 10 + n % 10);
    } else {
        assert(spec_decimal_bytes(n).drop_last() =~= Seq::<u8>::empty());
        assert(spec_digits_value(Seq::<u8>::empty()) == 0);
        assert(((48 + n) as u8 - 48) as nat == n);
    }
    let s = spec_decimal(n);
    assert(is_ascii_chars(s));
    is_ascii_chars_encode_utf8(s);
    assert(ascii_bytes(s) =~= spec_decimal_bytes(n));
    assert(encode_utf8(s) =~= spec_decimal_bytes(n));
}

/// Appends the decimal representation of `n`.
pub fn push_decimal(s: &mut String, n: u64)
    ensures
        final(s)@ == old(s)@ + spec_decimal(n as nat),
    decreases n,
{
    if n >= 10 {
        push_decimal(s, n / 10);
    }
    let digits = "0123456789";
    proof {
        reveal_strlit("0123456789");
    }
    let d = (n % 10) as usize;
    let piece = digits.substring_ascii(d, d + 1);
    s.append(piece);
    assert(piece@ =~= seq![digit_char(n as nat)]);
    if n >= 10 {
        assert(spec_decimal(n as nat) =~= spec_decimal((n / 10) as nat).push(digit_char(n as nat)));
    }
}

/// Round trip of byte-variable names.
pub proof fn lemma_name_round_trip(index: nat)
    ensures
        crate::variables::spec_byte_var_index(
            encode_utf8(crate::variables::spec_byte_var_name(index)),
        ) == Some(index as int),
{
    let name = crate::variables::spec_byte_var_name(index);
    let group = index / 26;
    let l = crate::variables::spec_letter(index);
    assert(65 <= 65 + index % 26 <= 90);
    if group == 0 {
        assert(is_ascii_chars(name));
        is_ascii_chars_encode_utf8(name);
    } else {
        lemma_decimal_facts(group);
        let d = spec_decimal(group);
        assert(name =~= seq![l] + d);
        assert(is_ascii_chars(name));
        is_ascii_chars_encode_utf8(name);
        let b = encode_utf8(name);
        assert(b.subrange(1, b.len() as int) =~= spec_decimal_bytes(group)) by {
            assert forall|i: int| 0 <= i < d.len() implies b[i + 1] == spec_decimal_bytes(group)[i] by {
                assert(name[i + 1] == d[i]);
                assert(ascii_bytes(d)[i] == d[i] as u8);
            }
        }
    }
}

} // verus!
