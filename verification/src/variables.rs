//! Byte-variable names: `A`–`Z` for response bytes 0–25, then `A1`–`Z1` for
//! 26–51, `A2`–`Z2` for 52–77, and so on (group = `index / 26`, letter =
//! `index % 26`). Shared by the byte binding of the evaluator and by the
//! equation generator so both agree on names for bytes past `Z`.
use vstd::prelude::*;
use vstd::string::*;
use crate::text::{push_decimal, spec_decimal, spec_digits_value, is_digit_byte};

verus! {

/// The uppercase letter that names byte `index` within its group.
pub open spec fn spec_letter(index: nat) -> char {
    ((65 + index % 26) as u8) as char
}

/// The name of byte `index`: its letter, followed by the group number when
/// the group is not zero.
pub open spec fn spec_byte_var_name(index: nat) -> Seq<char> {
    let group = index / 26;
    if group == 0 {
        seq![spec_letter(index)]
    } else {
        seq![spec_letter(index)] + spec_decimal(group)
    }
}

/// Maps a byte index to its equation variable name.
pub fn byte_var_name(index: usize) -> (name: String)
    ensures
        name@ == spec_byte_var_name(index as nat),
{
    let letters = "ABCDEFGHIJKLMNOPQRSTUVWXYZ";
    proof {
        reveal_strlit("ABCDEFGHIJKLMNOPQRSTUVWXYZ");
    }
    let k = index % 26;
    let letter = letters.substring_ascii(k, k + 1);
    let mut name = String::from_str(letter);
    let group = index / 26;
    assert(name@ =~= seq![spec_letter(index as nat)]);
    if group != 0 {
        push_decimal(&mut name, group as u64);
    }
    name
}

/// ASCII letter test (`A`–`Z`, `a`–`z`).
pub open spec fn is_alpha_byte(b: u8) -> bool {
    (65 <= b <= 90) || (97 <= b <= 122)
}

/// Position of an ASCII letter in the alphabet, ignoring case.
pub open spec fn letter_index(b: u8) -> int {
    if b >= 97 { b - 97 } else { b - 65 }
}

/// The byte index a variable name stands for, as a mathematical integer:
/// one letter (either case) alone, or followed by a decimal group number
/// of one or more digits whose value is not zero. `None` for every other name.
pub open spec fn spec_byte_var_index(name: Seq<u8>) -> Option<int> {
    if name.len() == 0 || !is_alpha_byte(name[0]) {
        None
    } else if name.len() == 1 {
        Some(letter_index(name[0]))
    } else {
        let rest = name.subrange(1, name.len() as int);
        if !all_digit_bytes(rest) {
            None
        } else if spec_digits_value(rest) == 0 {
            None
        } else {
            Some(spec_digits_value(rest) * 26 + letter_index(name[0]))
        }
    }
}

/// Every byte is an ASCII decimal digit.
pub open spec fn all_digit_bytes(d: Seq<u8>) -> bool {
    forall|i: int| 0 <= i < d.len() ==> is_digit_byte(#[trigger] d[i])
}

/// A name of a letter and a group number that fits a `usize` gives an index
/// that fits a `usize` too (the index is computed in `usize`).
pub open spec fn byte_var_index_fits(name: Seq<u8>) -> bool {
    let rest = name.subrange(1, name.len() as int);
    (name.len() > 1 && is_alpha_byte(name[0]) && all_digit_bytes(rest) && spec_digits_value(rest)
        <= usize::MAX) ==> spec_digits_value(rest) * 26 + letter_index(name[0]) <= usize::MAX
}

/// Inverse of `byte_var_name`: `A`→0 … `Z`→25, `A1`→26, `P1`→41 …
/// Lowercase letters are accepted; a group suffix must be at least 1.
/// A group number too large for a `usize` gives `None`.
pub fn byte_var_index(name: &str) -> (res: Option<usize>)
    requires
        byte_var_index_fits(name.spec_bytes()),
    ensures
        res == (match spec_byte_var_index(name.spec_bytes()) {
            Some(v) => if v <= usize::MAX { Some(v as usize) } else { None::<usize> },
            None => None::<usize>,
        }),
{
    let b = name.as_bytes();
    let ghost s = name.spec_bytes();
    if b.len() == 0 {
        return None;
    }
    let first = b[0];
    if !((65 <= first && first <= 90) || (97 <= first && first <= 122)) {
        return None;
    }
    let letter: usize = if first >= 97 { (first - 97) as usize } else { (first - 65) as usize };
    if b.len() == 1 {
        return Some(letter);
    }
    let ghost rest = s.subrange(1, s.len() as int);
    let mut group: usize = 0;
    let mut overflow = false;
    let mut i: usize = 1;
    while i < b.len()
        invariant
            b@ == s,
            s == name.spec_bytes(),
            1 <= i <= b.len(),
            b.len() >= 2,
            s[0] == first,
            is_alpha_byte(first),
            letter as int == letter_index(first),
            rest == s.subrange(1, s.len() as int),
            forall|j: int| 0 <= j < i - 1 ==> is_digit_byte(#[trigger] rest[j]),
            !overflow ==> group as int == spec_digits_value(rest.subrange(0, i - 1)),
            overflow ==> spec_digits_value(rest.subrange(0, i - 1)) > usize::MAX,
        decreases b.len() - i,
    {
        let c = b[i];
        if !(48 <= c && c <= 57) {
            assert(!is_digit_byte(rest[i - 1]));
            return None;
        }
        let ghost prefix = rest.subrange(0, i as int);
        assert(prefix.drop_last() =~= rest.subrange(0, i - 1));
        assert(prefix.last() == c);
        proof { crate::text::lemma_digits_value_step(prefix); }
        if !overflow {
            if group > (usize::MAX - (c - 48) as usize) / 10 {
                overflow = true;
            } else {
                group = group * 10 + (c - 48) as usize;
            }
        }
        i += 1;
    }
    assert(rest.subrange(0, rest.len() as int) =~= rest);
    assert(all_digit_bytes(rest));
    if overflow {
        return None;
    }
    if group == 0 {
        return None;
    }
    Some(group * 26 + letter)
}

/// Law: every byte index is recovered from its own variable name.
pub proof fn lemma_byte_var_name_round_trip(index: nat)
    ensures
        spec_byte_var_index(vstd::utf8::encode_utf8(spec_byte_var_name(index)))
            == Some(index as int),
{
    crate::text::lemma_name_round_trip(index);
}


/// Law: byte-variable names ignore the case of their letter.
pub proof fn lemma_byte_var_index_ignores_case(name: Seq<u8>)
    requires
        name.len() > 0,
        97 <= name[0] <= 122,
    ensures
        spec_byte_var_index(name) == spec_byte_var_index(name.update(0, (name[0] - 32) as u8)),
{
    let up = name.update(0, (name[0] - 32) as u8);
    assert(up.subrange(1, up.len() as int) =~= name.subrange(1, name.len() as int));
}

} // verus!
