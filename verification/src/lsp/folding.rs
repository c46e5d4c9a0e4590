//! Folding ranges: the structures that span lines, and runs of comment lines.
use vstd::prelude::*;

use crate::lsp::convert::{offset_to_position, on_boundary, Span};
use crate::lsp::tokens::position_at;

verus! {

/// A range of whole lines the editor can fold.
#[derive(Clone, Copy, Debug, PartialEq, Eq, Structural)]
pub struct Fold {
    pub start_line: u32,
    pub end_line: u32,
    /// A run of comment lines, rather than a structure.
    pub comment: bool,
}

/// The structures among the first `k` that span more than one line.
pub open spec fn structure_folds(cs: Seq<char>, spans: Seq<Span>, k: nat) -> Seq<Fold>
    decreases k,
{
    if k == 0 || k > spans.len() {
        Seq::empty()
    } else {
        let before = structure_folds(cs, spans, (k - 1) as nat);
        let s = position_at(cs, spans[k - 1].start as int);
        let e = position_at(cs, spans[k - 1].end as int);
        if e.line <= s.line {
            before
        } else {
            before.push(Fold { start_line: s.line, end_line: e.line, comment: false })
        }
    }
}

/// A run of comment lines from `start` to `last`, folded when it is more
/// than one line.
pub open spec fn run_fold(start: Option<u32>, last: Option<u32>) -> Seq<Fold> {
    match (start, last) {
        (Some(s), Some(l)) => if l > s {
            seq![Fold { start_line: s, end_line: l, comment: true }]
        } else {
            Seq::empty()
        },
        _ => Seq::empty(),
    }
}

/// The comment runs from the `i`th comment line on, with the run so far
/// starting at `start` and last reaching `last`: a comment on the line after
/// the last one carries the run on; any other starts a new one.
pub open spec fn comment_folds(lines: Seq<u32>, i: int, start: Option<u32>, last: Option<u32>) -> Seq<Fold>
    decreases lines.len() - i,
{
    if i < 0 || i >= lines.len() {
        run_fold(start, last)
    } else {
        let line = lines[i];
        match (start, last) {
            (Some(s), Some(l)) if line == l + 1 => comment_folds(lines, i + 1, start, Some(line)),
            _ => run_fold(start, last) + comment_folds(lines, i + 1, Some(line), Some(line)),
        }
    }
}

/// Where the editor can fold a text: each structure that spans lines, in
/// order, then each run of two or more comment lines, given the line each
/// comment is on in order.
pub fn folding_ranges(text: &str, structures: &Vec<Span>, comment_lines: &Vec<u32>) -> (folds: Vec<Fold>)
    requires
        forall|k: int| 0 <= k < structures@.len() ==> on_boundary(text@, #[trigger] structures@[k].start as int)
            && on_boundary(text@, structures@[k].end as int),
        forall|k: int| 0 <= k < comment_lines@.len() ==> #[trigger] comment_lines@[k] < u32::MAX,
    ensures
        folds@ == structure_folds(text@, structures@, structures@.len()) + comment_folds(comment_lines@, 0, None, None),
{
    let mut folds: Vec<Fold> = Vec::new();
    let mut k: usize = 0;
    while k < structures.len()
        invariant
            k <= structures@.len(),
            forall|j: int| 0 <= j < structures@.len() ==> on_boundary(text@, #[trigger] structures@[j].start as int)
                && on_boundary(text@, structures@[j].end as int),
            folds@ == structure_folds(text@, structures@, k as nat),
        decreases structures@.len() - k,
    {
        let span = structures[k];
        let s = offset_to_position(text, span.start);
        let e = offset_to_position(text, span.end);
        if e.line > s.line {
            folds.push(Fold { start_line: s.line, end_line: e.line, comment: false });
        }
        k = k + 1;
    }
    let ghost head = folds@;
    let mut start: Option<u32> = None;
    let mut last: Option<u32> = None;
    let mut i: usize = 0;
    while i < comment_lines.len()
        invariant
            i <= comment_lines@.len(),
            forall|j: int| 0 <= j < comment_lines@.len() ==> #[trigger] comment_lines@[j] < u32::MAX,
            match last {
                Some(l) => l < u32::MAX,
                None => true,
            },
            head + comment_folds(comment_lines@, 0, None, None) == folds@ + comment_folds(comment_lines@, i as int, start, last),
        decreases comment_lines@.len() - i,
    {
        let line = comment_lines[i];
        let continues = match (start, last) {
            (Some(_), Some(l)) => line == l + 1,
            _ => false,
        };
        if continues {
            last = Some(line);
        } else {
            let ghost before = folds@;
            let ghost run = run_fold(start, last);
            match (start, last) {
                (Some(s), Some(l)) => {
                    if l > s {
                        folds.push(Fold { start_line: s, end_line: l, comment: true });
                    }
                },
                _ => {},
            }
            assert(folds@ =~= before + run);
            start = Some(line);
            last = Some(line);
            assert(before + (run + comment_folds(comment_lines@, i + 1, start, last)) =~= folds@ + comment_folds(comment_lines@, i + 1, start, last));
        }
        i = i + 1;
    }
    let ghost before = folds@;
    match (start, last) {
        (Some(s), Some(l)) => {
            if l > s {
                folds.push(Fold { start_line: s, end_line: l, comment: true });
            }
        },
        _ => {},
    }
    assert(folds@ =~= before + run_fold(start, last));
    folds
}

} // verus!
