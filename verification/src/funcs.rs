//! Names of the function library.
use vstd::prelude::*;
use vstd::string::*;
use crate::lexer::copy_range;
use crate::parse::{ascii_upper, ascii_upper_exec, call_name, eq_lit, is_canon_exec, is_canon_name};

verus! {

/// Functions defined once, under exactly this spelling.
pub open spec fn is_exact_name(w: Seq<u8>) -> bool {
    ||| w == "MIN".spec_bytes()
    ||| w == "MAX".spec_bytes()
    ||| w == "ABS".spec_bytes()
    ||| w == "SQRT".spec_bytes()
    ||| w == "POW".spec_bytes()
    ||| w == "SIN".spec_bytes()
    ||| w == "COS".spec_bytes()
    ||| w == "TAN".spec_bytes()
    ||| w == "LOG".spec_bytes()
    ||| w == "LOG10".spec_bytes()
    ||| w == "EXP".spec_bytes()
    ||| w == "CEIL".spec_bytes()
    ||| w == "FLOOR".spec_bytes()
    ||| w == "ROUND".spec_bytes()
    ||| w == "INT".spec_bytes()
    ||| w == "IF".spec_bytes()
    ||| w == "ZEROREF".spec_bytes()
    ||| w == "ascii".spec_bytes()
}

/// Some byte of `w` is an ASCII upper-case letter.
pub open spec fn has_ascii_upper(w: Seq<u8>) -> bool {
    exists|i: int| 0 <= i < w.len() && 65 <= #[trigger] w[i] <= 90
}

/// A name the function library defines: an exact-case name, a
/// case-insensitive name in upper case, or one of those in all lower case.
pub open spec fn spec_is_known_function(w: Seq<u8>) -> bool {
    ||| is_exact_name(w)
    ||| is_canon_name(w)
    ||| (!has_ascii_upper(w) && is_canon_name(ascii_upper(w)))
}

fn is_exact_exec(w: &[u8]) -> (r: bool)
    ensures
        r == is_exact_name(w@),
{
    eq_lit(w, "MIN") || eq_lit(w, "MAX") || eq_lit(w, "ABS") || eq_lit(w, "SQRT") || eq_lit(w, "POW")
        || eq_lit(w, "SIN") || eq_lit(w, "COS") || eq_lit(w, "TAN") || eq_lit(w, "LOG") || eq_lit(
        w,
        "LOG10",
    ) || eq_lit(w, "EXP") || eq_lit(w, "CEIL") || eq_lit(w, "FLOOR") || eq_lit(w, "ROUND")
        || eq_lit(w, "INT") || eq_lit(w, "IF") || eq_lit(w, "ZEROREF") || eq_lit(w, "ascii")
}

fn has_ascii_upper_exec(w: &[u8]) -> (r: bool)
    ensures
        r == has_ascii_upper(w@),
{
    let mut i: usize = 0;
    while i < w.len()
        invariant
            0 <= i <= w@.len(),
            forall|k: int| 0 <= k < i ==> !(65 <= #[trigger] w@[k] <= 90),
        decreases w@.len() - i,
    {
        if 65 <= w[i] && w[i] <= 90 {
            return true;
        }
        i += 1;
    }
    false
}

/// Whether `name` is a function the library defines (for a bare name
/// used without a call).
pub fn is_known_function(name: &str) -> (r: bool)
    ensures
        r == spec_is_known_function(name.spec_bytes()),
{
    let b = name.as_bytes();
    if is_exact_exec(b) {
        return true;
    }
    let w = copy_range(b, 0, b.len());
    assert(w@ =~= b@);
    if is_canon_exec(&w) {
        return true;
    }
    if has_ascii_upper_exec(b) {
        return false;
    }
    let u = ascii_upper_exec(&w);
    is_canon_exec(&u)
}


/// Law: a call to a case-insensitive function is recorded under its upper
/// case name however it is spelled.
pub proof fn lemma_call_names_ignore_case(w: Seq<u8>)
    requires
        is_canon_name(ascii_upper(w)),
    ensures
        call_name(w) == ascii_upper(w),
{
}

/// Law: a case-insensitive function is known as a bare name both in upper
/// case and in lower case.
pub proof fn lemma_known_in_both_cases(w: Seq<u8>)
    requires
        is_canon_name(ascii_upper(w)),
        w == ascii_upper(w) || !has_ascii_upper(w),
    ensures
        spec_is_known_function(w),
{
}

} // verus!
