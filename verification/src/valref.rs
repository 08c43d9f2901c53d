//! `val{NAME}` references inside string content. Such a reference is
//! replaced by the value of the PID it names; this module finds them and
//! splits the content into literal text and references.
use vstd::prelude::*;
use crate::parse::{is_val_marker_at, spec_contains_val_marker};

verus! {

/// A piece of string content: literal bytes, or the name of a referenced
/// PID.
pub enum SpecPiece {
    Text(Seq<u8>),
    Ref(Seq<u8>),
}

/// A piece of string content: literal bytes, or the name of a referenced
/// PID.
pub enum Piece {
    Text(Vec<u8>),
    Ref(Vec<u8>),
}

impl View for Piece {
    type V = SpecPiece;

    open spec fn view(&self) -> SpecPiece {
        match self {
            Piece::Text(t) => SpecPiece::Text(t@),
            Piece::Ref(n) => SpecPiece::Ref(n@),
        }
    }
}

/// Models of a list of pieces.
pub open spec fn view_pieces(p: Seq<Piece>) -> Seq<SpecPiece> {
    Seq::new(p.len(), |i: int| p[i]@)
}

/// First position at or after `i` holding `}`, or the length.
pub open spec fn next_close(b: Seq<u8>, i: int) -> int
    decreases b.len() - i,
{
    if i < 0 || i >= b.len() {
        b.len() as int
    } else if b[i] == 125 {
        i
    } else {
        next_close(b, i + 1)
    }
}

proof fn lemma_next_close(b: Seq<u8>, i: int)
    requires
        0 <= i <= b.len(),
    ensures
        i <= next_close(b, i) <= b.len(),
    decreases b.len() - i,
{
    if i < b.len() && b[i] != 125 {
        lemma_next_close(b, i + 1);
    }
}

/// A reference starts at `i`: `val{` (any case of `val`) with at least one
/// byte after the brace, and a non-empty name before the next `}`.
pub open spec fn ref_at(b: Seq<u8>, i: int) -> bool {
    &&& 0 <= i
    &&& i + 4 < b.len()
    &&& is_val_marker_at(b, i)
    &&& next_close(b, i + 4) < b.len()
    &&& next_close(b, i + 4) > i + 4
}

/// The pieces of `b` from `i`, with the literal bytes `run` read so far:
/// each reference becomes a `Ref` of its name, and the literal bytes
/// between references one `Text` each.
pub open spec fn pieces_from(b: Seq<u8>, i: int, run: Seq<u8>) -> Seq<SpecPiece>
    decreases b.len() - i,
{
    if i < 0 || i >= b.len() {
        if run.len() > 0 {
            seq![SpecPiece::Text(run)]
        } else {
            Seq::empty()
        }
    } else if ref_at(b, i) {
        let k = next_close(b, i + 4);
        let before = if run.len() > 0 { seq![SpecPiece::Text(run)] } else { Seq::empty() };
        before + seq![SpecPiece::Ref(b.subrange(i + 4, k))] + pieces_from(b, k + 1, Seq::empty())
    } else {
        pieces_from(b, i + 1, run.push(b[i]))
    }
}

/// The pieces of string content `b`.
pub open spec fn spec_val_pieces(b: Seq<u8>) -> Seq<SpecPiece> {
    pieces_from(b, 0, Seq::empty())
}

fn next_close_exec(b: &[u8], i: usize) -> (k: usize)
    requires
        i <= b@.len(),
    ensures
        k == next_close(b@, i as int),
{
    let mut k = i;
    while k < b.len() && b[k] != 125
        invariant
            i <= k <= b@.len(),
            next_close(b@, i as int) == next_close(b@, k as int),
        decreases b@.len() - k,
    {
        k += 1;
    }
    k
}

/// Splits string content into literal text and `val{NAME}` references.
pub fn val_pieces(b: &[u8]) -> (r: Vec<Piece>)
    ensures
        view_pieces(r@) == spec_val_pieces(b@),
{
    let n = b.len();
    let mut out: Vec<Piece> = Vec::new();
    let mut run: Vec<u8> = Vec::new();
    let mut i: usize = 0;
    while i < n
        invariant
            n == b@.len(),
            i <= n,
            spec_val_pieces(b@) == view_pieces(out@) + pieces_from(b@, i as int, run@),
        decreases n - i,
    {
        let marker = n - i > 4 && (b[i] == 118 || b[i] == 86) && (b[i + 1] == 97 || b[i + 1] == 65)
            && (b[i + 2] == 108 || b[i + 2] == 76) && b[i + 3] == 123;
        let mut k = n;
        if marker {
            proof {
                lemma_next_close(b@, i + 4);
            }
            k = next_close_exec(b, i + 4);
        }
        if marker && k < n && k > i + 4 {
            assert(ref_at(b@, i as int));
            let ghost before = view_pieces(out@);
            let ghost old_run = run@;
            if run.len() > 0 {
                let text = run;
                out.push(Piece::Text(text));
            }
            let mut name: Vec<u8> = Vec::new();
            let mut j = i + 4;
            while j < k
                invariant
                    i + 4 <= j <= k < n,
                    n == b@.len(),
                    name@ == b@.subrange(i + 4, j as int),
                decreases k - j,
            {
                name.push(b[j]);
                j += 1;
                assert(name@ =~= b@.subrange(i + 4, j as int));
            }
            out.push(Piece::Ref(name));
            run = Vec::new();
            assert(view_pieces(out@) =~= before + (if old_run.len() > 0 {
                seq![SpecPiece::Text(old_run)]
            } else {
                Seq::empty()
            }) + seq![SpecPiece::Ref(b@.subrange(i + 4, k as int))]);
            assert(run@ =~= Seq::<u8>::empty());
            i = k + 1;
        } else {
            assert(!ref_at(b@, i as int));
            run.push(b[i]);
            i += 1;
        }
    }
    if run.len() > 0 {
        let ghost before = view_pieces(out@);
        let ghost last = run@;
        out.push(Piece::Text(run));
        assert(view_pieces(out@) =~= before + seq![SpecPiece::Text(last)]);
    } else {
        assert(view_pieces(out@) + Seq::<SpecPiece>::empty() =~= view_pieces(out@));
    }
    out
}


/// With no reference from `i` on, the rest is literal text.
proof fn lemma_pieces_plain(b: Seq<u8>, i: int, run: Seq<u8>)
    requires
        0 <= i <= b.len(),
        forall|j: int| i <= j < b.len() ==> !ref_at(b, j),
    ensures
        pieces_from(b, i, run) == (if run.len() + b.len() - i > 0 {
            seq![SpecPiece::Text(run + b.subrange(i, b.len() as int))]
        } else {
            Seq::empty()
        }),
    decreases b.len() - i,
{
    if i < b.len() {
        lemma_pieces_plain(b, i + 1, run.push(b[i]));
        assert(run.push(b[i]) + b.subrange(i + 1, b.len() as int) =~= run + b.subrange(i, b.len() as int));
    } else {
        assert(run + b.subrange(i, b.len() as int) =~= run);
    }
}

/// Law: content without a `val{` marker has no reference: it is one piece
/// of literal text (none when empty), so substituting references leaves
/// it as it is.
pub proof fn lemma_no_marker_no_refs(b: Seq<u8>)
    requires
        !spec_contains_val_marker(b),
    ensures
        spec_val_pieces(b) == (if b.len() > 0 {
            seq![SpecPiece::Text(b)]
        } else {
            Seq::empty()
        }),
{
    assert forall|j: int| 0 <= j < b.len() implies !ref_at(b, j) by {
        if ref_at(b, j) {
            assert(is_val_marker_at(b, j));
        }
    }
    lemma_pieces_plain(b, 0, Seq::empty());
    assert(Seq::<u8>::empty() + b.subrange(0, b.len() as int) =~= b);
}

} // verus!
