//! Text of LOOKUP/CLOSEST arms and of quoted values.
use vstd::prelude::*;
use vstd::string::*;
use crate::lookup::{chars_of, lemma_next_char, next_char, next_char_exec, trim, trim_bounds};

verus! {

/// The key and value of an arm `key=value`: the text before the first `=`
/// and the text up to the next `=` (or the end), both trimmed; `None` when
/// there is no `=`.
pub open spec fn spec_split_arm(c: Seq<char>) -> Option<(Seq<char>, Seq<char>)> {
    let p1 = next_char(c, 0, '=');
    if p1 >= c.len() {
        None
    } else {
        let p2 = next_char(c, p1 + 1, '=');
        Some((trim(c.subrange(0, p1)), trim(c.subrange(p1 + 1, p2))))
    }
}

/// Splits an arm `key=value` into its trimmed key and value (text after a
/// second `=` is dropped); `None` when `s` holds no `=`.
pub fn split_arm(s: &str) -> (r: Option<(String, String)>)
    ensures
        match r {
            Some((k, v)) => spec_split_arm(s@) == Some((k@, v@)),
            None => spec_split_arm(s@) is None,
        },
{
    let c = chars_of(s);
    let n = c.len();
    let p1 = next_char_exec(c.as_slice(), 0, '=');
    proof {
        lemma_next_char(c@, 0, '=');
    }
    if p1 >= n {
        return None;
    }
    let p2 = next_char_exec(c.as_slice(), p1 + 1, '=');
    proof {
        lemma_next_char(c@, p1 + 1, '=');
    }
    let (a1, b1) = trim_bounds(c.as_slice(), 0, p1);
    let (a2, b2) = trim_bounds(c.as_slice(), p1 + 1, p2);
    let key = s.substring_char(a1, b1);
    let val = s.substring_char(a2, b2);
    Some((String::from_str(key), String::from_str(val)))
}

/// The text inside single quotes, when `c` is quoted: at least two
/// characters, the first and the last a `'`.
pub open spec fn spec_unquote(c: Seq<char>) -> Option<Seq<char>> {
    if c.len() >= 2 && c[0] == '\'' && c.last() == '\'' {
        Some(c.subrange(1, c.len() - 1))
    } else {
        None
    }
}

/// The text inside single quotes, or `None` when `s` is not quoted.
pub fn unquote(s: &str) -> (r: Option<String>)
    ensures
        match r {
            Some(t) => spec_unquote(s@) == Some(t@),
            None => spec_unquote(s@) is None,
        },
{
    let c = chars_of(s);
    let n = c.len();
    if n >= 2 && c[0] == '\'' && c[n - 1] == '\'' {
        let inner = s.substring_char(1, n - 1);
        Some(String::from_str(inner))
    } else {
        None
    }
}

/// The key/value pairs that LOOKUP/CLOSEST arguments spell from index `i`
/// on: an arm `key=value` gives its pair; any other argument is a key whose
/// value is the argument after it, and a last such argument alone is
/// dropped. `Err(j)`: argument `j` has no text (`None`) and was read first.
pub open spec fn spec_pairs(texts: Seq<Option<String>>, i: int) -> Result<
    Seq<(Seq<char>, Seq<char>)>,
    int,
>
    decreases texts.len() - i,
{
    if i < 0 || i >= texts.len() {
        Ok(Seq::empty())
    } else {
        match texts[i] {
            None => Err(i),
            Some(s) => match spec_split_arm(s@) {
                Some(kv) => match spec_pairs(texts, i + 1) {
                    Ok(rest) => Ok(seq![kv] + rest),
                    Err(j) => Err(j),
                },
                None => if i + 1 < texts.len() {
                    match texts[i + 1] {
                        None => Err(i + 1),
                        Some(v) => match spec_pairs(texts, i + 2) {
                            Ok(rest) => Ok(seq![(s@, v@)] + rest),
                            Err(j) => Err(j),
                        },
                    }
                } else {
                    Ok(Seq::empty())
                },
            },
        }
    }
}

/// The pairs as text.
pub open spec fn pairs_view(v: Seq<(String, String)>) -> Seq<(Seq<char>, Seq<char>)> {
    v.map_values(|p: (String, String)| (p.0@, p.1@))
}

/// `acc` followed by the pairs of `r`, or the error of `r`.
pub open spec fn after(acc: Seq<(Seq<char>, Seq<char>)>, r: Result<Seq<(Seq<char>, Seq<char>)>, int>) -> Result<
    Seq<(Seq<char>, Seq<char>)>,
    int,
> {
    match r {
        Ok(rest) => Ok(acc + rest),
        Err(j) => Err(j),
    }
}

/// Pairs up the texts of the LOOKUP/CLOSEST arguments after the value and
/// the default (`None` for an argument without text); `Err(j)` names the
/// first argument without text that the pairing had to read.
pub fn pair_args(texts: &[Option<String>]) -> (r: Result<Vec<(String, String)>, usize>)
    ensures
        match r {
            Ok(v) => spec_pairs(texts@, 0) == Ok::<Seq<(Seq<char>, Seq<char>)>, int>(pairs_view(v@)),
            Err(j) => spec_pairs(texts@, 0) == Err::<Seq<(Seq<char>, Seq<char>)>, int>(j as int)
                && j < texts@.len() && texts@[j as int] is None,
        },
{
    let mut out: Vec<(String, String)> = Vec::new();
    let mut i: usize = 0;
    while i < texts.len()
        invariant
            i <= texts@.len(),
            spec_pairs(texts@, 0) == after(pairs_view(out@), spec_pairs(texts@, i as int)),
        decreases texts@.len() - i,
    {
        let ghost before = pairs_view(out@);
        match &texts[i] {
            None => {
                return Err(i);
            },
            Some(s) => match split_arm(s.as_str()) {
                Some(kv) => {
                    out.push(kv);
                    proof {
                        assert(pairs_view(out@) =~= before.push((kv.0@, kv.1@)));
                        match spec_pairs(texts@, i as int + 1) {
                            Ok(rest) => {
                                assert(before + (seq![(kv.0@, kv.1@)] + rest) =~= before.push(
                                    (kv.0@, kv.1@),
                                ) + rest);
                            },
                            Err(j) => {},
                        }
                    }
                    i = i + 1;
                },
                None => {
                    if i + 1 < texts.len() {
                        match &texts[i + 1] {
                            None => {
                                return Err(i + 1);
                            },
                            Some(v) => {
                                out.push((s.clone(), v.clone()));
                                proof {
                                    assert(pairs_view(out@) =~= before.push((s@, v@)));
                                    match spec_pairs(texts@, i as int + 2) {
                                        Ok(rest) => {
                                            assert(before + (seq![(s@, v@)] + rest) =~= before.push(
                                                (s@, v@),
                                            ) + rest);
                                        },
                                        Err(j) => {},
                                    }
                                }
                                i = i + 2;
                            },
                        }
                    } else {
                        proof {
                            assert(before + Seq::<(Seq<char>, Seq<char>)>::empty() =~= before);
                        }
                        i = i + 1;
                    }
                },
            },
        }
    }
    proof {
        assert(pairs_view(out@) + Seq::<(Seq<char>, Seq<char>)>::empty() =~= pairs_view(out@));
    }
    Ok(out)
}

} // verus!
