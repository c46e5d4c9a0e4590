//! The smallest set of whole-line edits that turns one text into another.
//!
//! Replacing a whole document to apply a formatting change moves the cursor,
//! drops selections, and unfolds everything, even when one line changed. An
//! editor keeps all of those for the lines an edit does not touch, so the edits
//! touch only the lines that differ.
use vstd::prelude::*;

use crate::lsp::convert::{Position, Range};
use crate::path::shared_prefix;
use crate::text::{chars_eq, chars_of, concat, push_chars, split_inclusive, split_inclusive_lines, utf16_len};

verus! {

/// A run of changed lines: old lines `removed_start..removed_end` give way to
/// new lines `inserted_start..inserted_end`.
#[derive(Clone, Copy, Debug, PartialEq, Eq, Structural)]
pub struct Hunk {
    pub removed_start: usize,
    pub removed_end: usize,
    pub inserted_start: usize,
    pub inserted_end: usize,
}

/// The length of a longest common subsequence of `old[i..]` and `new[j..]`.
pub open spec fn lcs(old: Seq<Seq<char>>, new: Seq<Seq<char>>, i: int, j: int) -> nat
    decreases old.len() - i + new.len() - j,
{
    if i < 0 || j < 0 || i >= old.len() || j >= new.len() {
        0
    } else if old[i] == new[j] {
        1 + lcs(old, new, i + 1, j + 1)
    } else {
        let a = lcs(old, new, i + 1, j);
        let b = lcs(old, new, i, j + 1);
        if a >= b { a } else { b }
    }
}

/// The lines `old[i..i + n]` and `new[j..j + n]` are the same.
pub open spec fn same_run(old: Seq<Seq<char>>, new: Seq<Seq<char>>, i: int, j: int, n: int) -> bool {
    &&& 0 <= i && i + n <= old.len()
    &&& 0 <= j && j + n <= new.len()
    &&& forall|t: int| 0 <= t < n ==> #[trigger] old[i + t] == new[j + t]
}

/// Hunks that, from lines `i` of `old` and `j` of `new`, account for every line
/// up to `end_i` and `end_j`: in order, each changing at least one line,
/// separated (once one has been taken) by at least one unchanged line, with
/// the lines between them the same in both texts.
pub open spec fn aligned_to(
    old: Seq<Seq<char>>,
    new: Seq<Seq<char>>,
    i: int,
    j: int,
    hs: Seq<Hunk>,
    end_i: int,
    end_j: int,
    separated: bool,
) -> bool
    decreases hs.len(),
{
    if hs.len() == 0 {
        i <= end_i && end_i - i == end_j - j && same_run(old, new, i, j, end_i - i)
    } else {
        let h = hs[0];
        &&& i <= h.removed_start
        &&& h.removed_start - i == h.inserted_start - j
        &&& same_run(old, new, i, j, h.removed_start - i)
        &&& (separated ==> h.removed_start > i)
        &&& h.removed_start <= h.removed_end <= end_i
        &&& h.inserted_start <= h.inserted_end <= end_j
        &&& (h.removed_start < h.removed_end || h.inserted_start < h.inserted_end)
        &&& aligned_to(old, new, h.removed_end as int, h.inserted_end as int, hs.drop_first(), end_i, end_j, true)
    }
}

/// How many old lines the hunks remove.
pub open spec fn removed(hs: Seq<Hunk>) -> nat
    decreases hs.len(),
{
    if hs.len() == 0 {
        0
    } else {
        removed(hs.drop_last()) + (hs.last().removed_end - hs.last().removed_start) as nat
    }
}

/// `old` from line `i`, with each hunk's old lines replaced by its new ones.
pub open spec fn replaced(old: Seq<Seq<char>>, new: Seq<Seq<char>>, i: int, hs: Seq<Hunk>) -> Seq<Seq<char>>
    decreases hs.len(),
{
    if hs.len() == 0 {
        old.subrange(i, old.len() as int)
    } else {
        let h = hs[0];
        old.subrange(i, h.removed_start as int) + new.subrange(h.inserted_start as int, h.inserted_end as int)
            + replaced(old, new, h.removed_end as int, hs.drop_first())
    }
}

/// The hunks a diff of `old` and `new` is made of: they account for every
/// line, and the lines they leave alone form a longest common subsequence.
pub open spec fn is_diff(old: Seq<Seq<char>>, new: Seq<Seq<char>>, hs: Seq<Hunk>) -> bool {
    &&& aligned_to(old, new, 0, 0, hs, old.len() as int, new.len() as int, false)
    &&& old.len() - removed(hs) == lcs(old, new, 0, 0)
}

// ---- lemmas -----------------------------------------------------------------------

proof fn lemma_lcs_bound(old: Seq<Seq<char>>, new: Seq<Seq<char>>, i: int, j: int)
    requires
        0 <= i <= old.len(),
        0 <= j <= new.len(),
    ensures
        lcs(old, new, i, j) <= old.len() - i,
        lcs(old, new, i, j) <= new.len() - j,
    decreases old.len() - i + new.len() - j,
{
    if i < old.len() && j < new.len() {
        if old[i] == new[j] {
            lemma_lcs_bound(old, new, i + 1, j + 1);
        } else {
            lemma_lcs_bound(old, new, i + 1, j);
            lemma_lcs_bound(old, new, i, j + 1);
        }
    }
}

/// Replacing every hunk's old lines with its new ones turns `old` into `new`.
pub proof fn lemma_aligned_replaces(
    old: Seq<Seq<char>>,
    new: Seq<Seq<char>>,
    i: int,
    j: int,
    hs: Seq<Hunk>,
    separated: bool,
)
    requires
        aligned_to(old, new, i, j, hs, old.len() as int, new.len() as int, separated),
    ensures
        replaced(old, new, i, hs) == new.subrange(j, new.len() as int),
    decreases hs.len(),
{
    if hs.len() == 0 {
        assert forall|k: int| 0 <= k < old.len() - i implies old.subrange(i, old.len() as int)[k]
            == new.subrange(j, new.len() as int)[k] by {
            assert(old[i + k] == new[j + k]);
        }
        assert(old.subrange(i, old.len() as int) =~= new.subrange(j, new.len() as int));
    } else {
        let h = hs[0];
        lemma_aligned_replaces(old, new, h.removed_end as int, h.inserted_end as int, hs.drop_first(), true);
        assert forall|k: int| 0 <= k < h.removed_start - i implies old.subrange(i, h.removed_start as int)[k]
            == new.subrange(j, h.inserted_start as int)[k] by {
            assert(old[i + k] == new[j + k]);
        }
        assert(old.subrange(i, h.removed_start as int) =~= new.subrange(j, h.inserted_start as int));
        assert(new.subrange(j, new.len() as int) =~= new.subrange(j, h.inserted_start as int) + new.subrange(
            h.inserted_start as int,
            h.inserted_end as int,
        ) + new.subrange(h.inserted_end as int, new.len() as int));
    }
}

/// The law of a diff: its hunks, applied to the old lines, give the new ones.
pub proof fn lemma_diff_applies(old: Seq<Seq<char>>, new: Seq<Seq<char>>, hs: Seq<Hunk>)
    requires
        is_diff(old, new, hs),
    ensures
        replaced(old, new, 0, hs) == new,
{
    lemma_aligned_replaces(old, new, 0, 0, hs, false);
    assert(new.subrange(0, new.len() as int) =~= new);
}

proof fn lemma_extend_gap(
    old: Seq<Seq<char>>,
    new: Seq<Seq<char>>,
    i: int,
    j: int,
    hs: Seq<Hunk>,
    ei: int,
    ej: int,
    separated: bool,
)
    requires
        aligned_to(old, new, i, j, hs, ei, ej, separated),
        0 <= ei < old.len(),
        0 <= ej < new.len(),
        old[ei] == new[ej],
    ensures
        aligned_to(old, new, i, j, hs, ei + 1, ej + 1, separated),
    decreases hs.len(),
{
    if hs.len() == 0 {
        assert forall|t: int| 0 <= t < ei + 1 - i implies #[trigger] old[i + t] == new[j + t] by {
            if t < ei - i {
                assert(old[i + t] == new[j + t]);
            }
        }
    } else {
        let h = hs[0];
        lemma_extend_gap(old, new, h.removed_end as int, h.inserted_end as int, hs.drop_first(), ei, ej, true);
    }
}

proof fn lemma_push_hunk(
    old: Seq<Seq<char>>,
    new: Seq<Seq<char>>,
    i: int,
    j: int,
    hs: Seq<Hunk>,
    ei: int,
    ej: int,
    separated: bool,
    h: Hunk,
)
    requires
        aligned_to(old, new, i, j, hs, ei, ej, separated),
        h.removed_start == ei,
        h.inserted_start == ej,
        h.removed_start <= h.removed_end <= old.len(),
        h.inserted_start <= h.inserted_end <= new.len(),
        h.removed_start < h.removed_end || h.inserted_start < h.inserted_end,
        hs.len() == 0 ==> (separated ==> ei > i),
        hs.len() > 0 ==> ei > hs.last().removed_end,
    ensures
        aligned_to(old, new, i, j, hs.push(h), h.removed_end as int, h.inserted_end as int, separated),
    decreases hs.len(),
{
    if hs.len() == 0 {
        let ps = hs.push(h);
        assert(ps[0] == h);
        assert(ps.drop_first() =~= Seq::<Hunk>::empty());
        assert(same_run(old, new, h.removed_end as int, h.inserted_end as int, 0));
        assert(aligned_to(old, new, h.removed_end as int, h.inserted_end as int, ps.drop_first(), h.removed_end as int, h.inserted_end as int, true));
        assert(same_run(old, new, i, j, h.removed_start - i));
    } else {
        let f = hs[0];
        assert(hs.push(h)[0] == f);
        assert(hs.push(h).drop_first() =~= hs.drop_first().push(h));
        if hs.drop_first().len() > 0 {
            assert(hs.drop_first().last() == hs.last());
        } else {
            assert(hs.last() == f);
        }
        lemma_push_hunk(old, new, f.removed_end as int, f.inserted_end as int, hs.drop_first(), ei, ej, true, h);
        lemma_aligned_bounds(old, new, i, j, hs, ei, ej, separated);
    }
}

proof fn lemma_aligned_bounds(
    old: Seq<Seq<char>>,
    new: Seq<Seq<char>>,
    i: int,
    j: int,
    hs: Seq<Hunk>,
    ei: int,
    ej: int,
    separated: bool,
)
    requires
        aligned_to(old, new, i, j, hs, ei, ej, separated),
    ensures
        i <= ei,
        j <= ej,
    decreases hs.len(),
{
    if hs.len() > 0 {
        let h = hs[0];
        lemma_aligned_bounds(old, new, h.removed_end as int, h.inserted_end as int, hs.drop_first(), ei, ej, true);
    }
}


/// The texts of a list of lines.
pub open spec fn views(v: Seq<Vec<char>>) -> Seq<Seq<char>> {
    v.map_values(|x: Vec<char>| x@)
}

/// One row of the table: `row[j]` is the longest common subsequence of
/// `O[i..]` and `N[j..]`.
fn table_row(
    olds: &Vec<Vec<char>>,
    ob: usize,
    news: &Vec<Vec<char>>,
    nb: usize,
    ne: usize,
    i: usize,
    below: &Vec<usize>,
    Ghost(o): Ghost<Seq<Seq<char>>>,
    Ghost(n): Ghost<Seq<Seq<char>>>,
) -> (row: Vec<usize>)
    requires
        nb <= ne <= news@.len(),
        ne - nb < usize::MAX,
        ob + i < olds@.len(),
        o.len() > i,
        o[i as int] == olds@[ob + i]@,
        n == views(news@).subrange(nb as int, ne as int),
        below@.len() == n.len() + 1,
        forall|j: int| 0 <= j <= n.len() ==> #[trigger] below@[j] == lcs(o, n, i + 1, j),
    ensures
        row@.len() == n.len() + 1,
        forall|j: int| 0 <= j <= n.len() ==> #[trigger] row@[j] == lcs(o, n, i as int, j),
{
    let cols = ne - nb;
    let mut row: Vec<usize> = Vec::new();
    let mut k: usize = 0;
    while k <= cols
        invariant
            k <= cols + 1,
            cols == n.len(),
            cols < usize::MAX,
            row@.len() == k,
            forall|t: int| 0 <= t < k ==> #[trigger] row@[t] == 0,
        decreases cols + 1 - k,
    {
        row.push(0);
        k = k + 1;
    }
    let mut j = cols;
    let total = olds.len();
    proof {
        assert(lcs(o, n, i as int, cols as int) == 0);
    }
    while j > 0
        invariant
            total == olds@.len(),
            j <= cols,
            cols == n.len(),
            row@.len() == cols + 1,
            n == views(news@).subrange(nb as int, ne as int),
            o[i as int] == olds@[ob + i]@,
            o.len() > i,
            below@.len() == n.len() + 1,
            forall|t: int| 0 <= t <= n.len() ==> #[trigger] below@[t] == lcs(o, n, i + 1, t),
            forall|t: int| j <= t <= cols ==> #[trigger] row@[t] == lcs(o, n, i as int, t),
            nb <= ne <= news@.len(),
            ob + i < olds@.len(),
        decreases j,
    {
        j = j - 1;
        proof {
            assert(n[j as int] == news@[nb + j]@);
            lemma_lcs_bound(o, n, i + 1, j + 1);
        }
        let value = if chars_eq(&olds[ob + i], &news[nb + j]) {
            below[j + 1] + 1
        } else if below[j] >= row[j + 1] {
            below[j]
        } else {
            row[j + 1]
        };
        row.set(j, value);
    }
    row
}

/// The runs of lines that differ between `olds[ob..oe]` and `news[nb..ne]`,
/// numbered from the start of each run, from a longest common subsequence.
pub fn hunks(
    olds: &Vec<Vec<char>>,
    ob: usize,
    oe: usize,
    news: &Vec<Vec<char>>,
    nb: usize,
    ne: usize,
) -> (out: Vec<Hunk>)
    requires
        ob <= oe <= olds@.len(),
        nb <= ne <= news@.len(),
        oe - ob < usize::MAX,
        ne - nb < usize::MAX,
    ensures
        is_diff(views(olds@).subrange(ob as int, oe as int), views(news@).subrange(nb as int, ne as int), out@),
{
    let ghost o = views(olds@).subrange(ob as int, oe as int);
    let ghost n = views(news@).subrange(nb as int, ne as int);
    let rows = oe - ob;
    let cols = ne - nb;
    // `table[k]` is row `rows - k`: built from the bottom up.
    let mut table: Vec<Vec<usize>> = Vec::new();
    let mut last: Vec<usize> = Vec::new();
    let mut k: usize = 0;
    while k <= cols
        invariant
            k <= cols + 1,
            cols == n.len(),
            cols < usize::MAX,
            last@.len() == k,
            rows == o.len(),
            forall|t: int| 0 <= t < k ==> #[trigger] last@[t] == lcs(o, n, rows as int, t),
        decreases cols + 1 - k,
    {
        last.push(0);
        k = k + 1;
    }
    table.push(last);
    let mut i = rows;
    while i > 0
        invariant
            i <= rows,
            rows == o.len(),
            cols == n.len(),
            rows == oe - ob,
            ob <= oe <= olds@.len(),
            nb <= ne <= news@.len(),
            cols < usize::MAX,
            o == views(olds@).subrange(ob as int, oe as int),
            n == views(news@).subrange(nb as int, ne as int),
            table@.len() == rows - i + 1,
            forall|r: int| 0 <= r < table@.len() ==> (#[trigger] table@[r])@.len() == cols + 1,
            forall|r: int, t: int|
                0 <= r < table@.len() && 0 <= t <= cols ==> #[trigger] table@[r]@[t] == lcs(o, n, rows - r, t),
        decreases i,
    {
        i = i - 1;
        proof {
            assert(o[i as int] == olds@[ob + i]@);
        }
        let row = {
            let below = &table[rows - i - 1];
            table_row(olds, ob, news, nb, ne, i, below, Ghost(o), Ghost(n))
        };
        table.push(row);
    }
    // Walk the table, keeping a matched pair wherever taking it is optimal.
    let mut out: Vec<Hunk> = Vec::new();
    let mut i: usize = 0;
    let mut j: usize = 0;
    let mut removed_from: usize = 0;
    let mut inserted_from: usize = 0;
    let ghost mut matched: nat = 0;
    while i < rows && j < cols
        invariant
            rows == o.len(),
            cols == n.len(),
            rows == oe - ob,
            ob <= oe <= olds@.len(),
            nb <= ne <= news@.len(),
            o == views(olds@).subrange(ob as int, oe as int),
            n == views(news@).subrange(nb as int, ne as int),
            table@.len() == rows + 1,
            forall|r: int| 0 <= r < table@.len() ==> (#[trigger] table@[r])@.len() == cols + 1,
            forall|r: int, t: int|
                0 <= r < table@.len() && 0 <= t <= cols ==> #[trigger] table@[r]@[t] == lcs(o, n, rows - r, t),
            removed_from <= i <= rows,
            inserted_from <= j <= cols,
            aligned_to(o, n, 0, 0, out@, removed_from as int, inserted_from as int, false),
            out@.len() > 0 ==> removed_from > out@.last().removed_end,
            removed(out@) + (i - removed_from) + matched == i,
            matched + lcs(o, n, i as int, j as int) == lcs(o, n, 0, 0),
        decreases rows - i + cols - j,
    {
        proof {
            assert(o[i as int] == olds@[ob + i]@);
            assert(n[j as int] == news@[nb + j]@);
        }
        if chars_eq(&olds[ob + i], &news[nb + j]) {
            if removed_from < i || inserted_from < j {
                let h = Hunk {
                    removed_start: removed_from,
                    removed_end: i,
                    inserted_start: inserted_from,
                    inserted_end: j,
                };
                proof {
                    lemma_push_hunk(o, n, 0, 0, out@, removed_from as int, inserted_from as int, false, h);
                    assert(out@.push(h).drop_last() =~= out@);
                }
                out.push(h);
            }
            proof {
                lemma_extend_gap(o, n, 0, 0, out@, i as int, j as int, false);
                matched = matched + 1;
            }
            i = i + 1;
            j = j + 1;
            removed_from = i;
            inserted_from = j;
        } else if table[rows - i - 1][j] >= table[rows - i][j + 1] {
            i = i + 1;
        } else {
            j = j + 1;
        }
    }
    if removed_from < rows || inserted_from < cols {
        let h = Hunk {
            removed_start: removed_from,
            removed_end: rows,
            inserted_start: inserted_from,
            inserted_end: cols,
        };
        proof {
            lemma_push_hunk(o, n, 0, 0, out@, removed_from as int, inserted_from as int, false, h);
            assert(out@.push(h).drop_last() =~= out@);
        }
        out.push(h);
    } else {
        proof {
            lemma_aligned_bounds(o, n, 0, 0, out@, removed_from as int, inserted_from as int, false);
        }
    }
    out
}


/// Above this many line pairs the middle of a change is replaced in one edit
/// rather than compared line by line, to keep a huge rewrite from costing more
/// than it saves.
pub const MAX_CELLS: usize = 4_000_000;

/// An edit the editor applies: the text of `range` becomes `new_text`.
#[derive(Clone, Debug, PartialEq, Eq)]
pub struct TextEdit {
    pub range: Range,
    pub new_text: String,
}

/// How many lines two texts share at their ends, counting no more than `room`.
pub open spec fn shared_suffix(a: Seq<Seq<char>>, b: Seq<Seq<char>>, room: int) -> nat
    decreases a.len(),
{
    if room <= 0 || a.len() == 0 || b.len() == 0 || a.last() != b.last() {
        0
    } else {
        1 + shared_suffix(a.drop_last(), b.drop_last(), room - 1)
    }
}

/// The start of line `line` of a text split into `lines`, or the end of the
/// text when the line is past its last and there is no line break to start it.
pub open spec fn line_position(text: Seq<char>, lines: Seq<Seq<char>>, line: int) -> Position {
    if line < lines.len() || text.len() == 0 || text.last() == '\n' {
        Position { line: line as u32, character: 0 }
    } else {
        Position {
            line: (lines.len() - 1) as u32,
            character: utf16_len(lines.last()) as u32,
        }
    }
}

/// What an edit is, as values.
pub open spec fn edit_view(e: TextEdit) -> (Position, Position, Seq<char>) {
    (e.range.start, e.range.end, e.new_text@)
}

/// The edit for one hunk of the middle of a change that starts at line
/// `prefix`: the old lines it removes, and the new lines that replace them.
pub open spec fn hunk_edit(
    old_text: Seq<char>,
    before: Seq<Seq<char>>,
    after: Seq<Seq<char>>,
    prefix: int,
    h: Hunk,
) -> (Position, Position, Seq<char>) {
    (
        line_position(old_text, before, prefix + h.removed_start),
        line_position(old_text, before, prefix + h.removed_end),
        concat(after.subrange(prefix + h.inserted_start, prefix + h.inserted_end)),
    )
}

/// The edits that turn `old_text` into `new_text`, given the hunks chosen for
/// the part of them that differs.
pub open spec fn edits_for(old_text: Seq<char>, new_text: Seq<char>, hs: Seq<Hunk>) -> Seq<(Position, Position, Seq<char>)> {
    let before = split_inclusive(old_text);
    let after = split_inclusive(new_text);
    let prefix = shared_prefix(before, after);
    hs.map_values(|h: Hunk| hunk_edit(old_text, before, after, prefix as int, h))
}

/// The lines both texts keep at each end, and what lies between them.
pub open spec fn middles(old_text: Seq<char>, new_text: Seq<char>) -> (Seq<Seq<char>>, Seq<Seq<char>>) {
    let before = split_inclusive(old_text);
    let after = split_inclusive(new_text);
    let prefix = shared_prefix(before, after);
    let room = (if before.len() <= after.len() { before.len() } else { after.len() }) - prefix;
    let suffix = shared_suffix(before, after, room);
    (
        before.subrange(prefix as int, before.len() - suffix),
        after.subrange(prefix as int, after.len() - suffix),
    )
}

/// What `line_edits` returns: nothing when the texts are the same line for
/// line; else an edit for each hunk of a diff of their middles, or, when the
/// middles are too large to compare line by line, one edit replacing the
/// whole middle.
pub open spec fn line_edits_of(old_text: Seq<char>, new_text: Seq<char>, edits: Seq<(Position, Position, Seq<char>)>) -> bool {
    let (om, nm) = middles(old_text, new_text);
    if om.len() == 0 && nm.len() == 0 {
        edits.len() == 0
    } else if om.len() * nm.len() <= MAX_CELLS {
        exists|hs: Seq<Hunk>| is_diff(om, nm, hs) && edits == edits_for(old_text, new_text, hs)
    } else {
        edits == edits_for(
            old_text,
            new_text,
            seq![Hunk { removed_start: 0, removed_end: om.len() as usize, inserted_start: 0, inserted_end: nm.len() as usize }],
        )
    }
}

proof fn lemma_pieces_bounded(cs: Seq<char>)
    ensures
        split_inclusive(cs).len() <= cs.len(),
    decreases cs.len(),
{
    if cs.len() > 0 {
        lemma_pieces_bounded(cs.drop_last());
    }
}

proof fn lemma_piece_within(pieces: Seq<Seq<char>>, k: int)
    requires
        0 <= k < pieces.len(),
    ensures
        pieces[k].len() <= concat(pieces).len(),
    decreases pieces.len(),
{
    if k < pieces.len() - 1 {
        lemma_piece_within(pieces.drop_last(), k);
    }
}

/// The position of the start of line `line`, given the text's lines.
fn position(text_chars: &Vec<char>, lines: &Vec<Vec<char>>, line: usize) -> (p: Position)
    requires
        views(lines@) == split_inclusive(text_chars@),
        text_chars@.len() <= isize::MAX,
    ensures
        p == line_position(text_chars@, views(lines@), line as int),
{
    let n = text_chars.len();
    if line < lines.len() || n == 0 || text_chars[n - 1] == '\n' {
        return Position { line: #[verifier::truncate] (line as u32), character: 0 };
    }
    proof {
        crate::text::lemma_split_inclusive(text_chars@);
        lemma_piece_within(views(lines@), lines@.len() - 1);
    }
    let last = lines.len() - 1;
    let last_line = &lines[last];
    let mut units: usize = 0;
    let mut k: usize = 0;
    while k < last_line.len()
        invariant
            k <= last_line.len(),
            units == utf16_len(last_line@.take(k as int)),
            units <= 2 * k,
            last_line@.len() <= isize::MAX,
        decreases last_line.len() - k,
    {
        proof {
            assert(last_line@.take(k + 1).drop_last() =~= last_line@.take(k as int));
        }
        units = units + crate::text::len_utf16(last_line[k]);
        k = k + 1;
    }
    assert(last_line@.take(k as int) =~= last_line@);
    Position {
        line: #[verifier::truncate] (last as u32),
        character: #[verifier::truncate] (units as u32),
    }
}


/// The new lines `after[from..to]`, as one text.
fn joined_lines(after: &Vec<Vec<char>>, from: usize, to: usize) -> (text: String)
    requires
        from <= to <= after@.len(),
    ensures
        text@ == concat(views(after@).subrange(from as int, to as int)),
{
    let mut out = String::new();
    let mut k = from;
    while k < to
        invariant
            from <= k <= to <= after@.len(),
            out@ == concat(views(after@).subrange(from as int, k as int)),
        decreases to - k,
    {
        push_chars(&mut out, &after[k]);
        proof {
            let t = views(after@).subrange(from as int, k + 1);
            assert(t.drop_last() =~= views(after@).subrange(from as int, k as int));
        }
        k = k + 1;
    }
    out
}

proof fn lemma_hunk_bounds(o: Seq<Seq<char>>, n: Seq<Seq<char>>, i: int, j: int, hs: Seq<Hunk>, ei: int, ej: int, sep: bool, k: int)
    requires
        aligned_to(o, n, i, j, hs, ei, ej, sep),
        0 <= k < hs.len(),
        0 <= i,
        0 <= j,
    ensures
        hs[k].removed_start <= hs[k].removed_end <= ei,
        hs[k].inserted_start <= hs[k].inserted_end <= ej,
    decreases hs.len(),
{
    if k > 0 {
        let h = hs[0];
        lemma_hunk_bounds(o, n, h.removed_end as int, h.inserted_end as int, hs.drop_first(), ei, ej, true, k - 1);
    }
}

/// Edits that turn `old_text` into `new_text`, each covering a run of whole
/// lines. Lines both texts share at either end are left out of the
/// comparison, and what lies between them is compared line by line unless
/// that would take more than [`MAX_CELLS`] pairs.
pub fn line_edits(old_text: &str, new_text: &str) -> (edits: Vec<TextEdit>)
    ensures
        line_edits_of(old_text@, new_text@, edits@.map_values(|e: TextEdit| edit_view(e))),
{
    let oc = chars_of(old_text);
    let nc = chars_of(new_text);
    let _ = crate::text::str_len(old_text);
    let _ = crate::text::str_len(new_text);
    proof {
        crate::lsp::convert::lemma_utf16_le_bytes(old_text@);
        crate::lsp::convert::lemma_utf16_le_bytes(new_text@);
        lemma_pieces_bounded(old_text@);
        lemma_pieces_bounded(new_text@);
    }
    let before = split_inclusive_lines(&oc);
    let after = split_inclusive_lines(&nc);
    let ghost b = split_inclusive(old_text@);
    let ghost a = split_inclusive(new_text@);
    assert(views(before@) =~= b);
    assert(views(after@) =~= a);
    let shortest = if before.len() <= after.len() { before.len() } else { after.len() };
    let mut prefix: usize = 0;
    while prefix < shortest && chars_eq(&before[prefix], &after[prefix])
        invariant
            prefix <= shortest,
            shortest <= before@.len(),
            shortest <= after@.len(),
            views(before@) == b,
            views(after@) == a,
            forall|t: int| 0 <= t < prefix ==> b[t] == a[t],
        decreases shortest - prefix,
    {
        proof {
            assert(b[prefix as int] == before@[prefix as int]@);
            assert(a[prefix as int] == after@[prefix as int]@);
        }
        prefix = prefix + 1;
    }
    proof {
        if prefix < shortest {
            assert(b[prefix as int] == before@[prefix as int]@);
            assert(a[prefix as int] == after@[prefix as int]@);
        }
        crate::path::lemma_shared_prefix_public(b, a, prefix as int);
    }
    let room = shortest - prefix;
    let mut suffix: usize = 0;
    assert(b.take(b.len() as int) =~= b);
    assert(a.take(a.len() as int) =~= a);
    while suffix < room && chars_eq(&before[before.len() - 1 - suffix], &after[after.len() - 1 - suffix])
        invariant
            suffix <= room,
            room == shortest - prefix,
            shortest <= before@.len(),
            shortest <= after@.len(),
            views(before@) == b,
            views(after@) == a,
            shared_suffix(b, a, room as int) == suffix + shared_suffix(
                b.take(b.len() - suffix),
                a.take(a.len() - suffix),
                room - suffix,
            ),
        decreases room - suffix,
    {
        proof {
            let bt = b.take(b.len() - suffix);
            let at = a.take(a.len() - suffix);
            assert(bt.last() == before@[before@.len() - 1 - suffix]@);
            assert(at.last() == after@[after@.len() - 1 - suffix]@);
            assert(bt.drop_last() =~= b.take(b.len() - suffix - 1));
            assert(at.drop_last() =~= a.take(a.len() - suffix - 1));
        }
        suffix = suffix + 1;
    }
    proof {
        let bt = b.take(b.len() - suffix);
        let at = a.take(a.len() - suffix);
        if suffix < room {
            assert(bt.last() == before@[before@.len() - 1 - suffix]@);
            assert(at.last() == after@[after@.len() - 1 - suffix]@);
        }
        assert(b.take(b.len() as int) =~= b);
        assert(a.take(a.len() as int) =~= a);
    }
    let oe = before.len() - suffix;
    let ne = after.len() - suffix;
    let rows = oe - prefix;
    let cols = ne - prefix;
    let mut edits: Vec<TextEdit> = Vec::new();
    if rows == 0 && cols == 0 {
        return edits;
    }
    let small = match rows.checked_mul(cols) {
        Some(cells) => cells <= MAX_CELLS,
        None => false,
    };
    let hs = if small {
        hunks(&before, prefix, oe, &after, prefix, ne)
    } else {
        let mut one: Vec<Hunk> = Vec::new();
        one.push(Hunk { removed_start: 0, removed_end: rows, inserted_start: 0, inserted_end: cols });
        one
    };
    let ghost om = b.subrange(prefix as int, oe as int);
    let ghost nm = a.subrange(prefix as int, ne as int);
    let mut k: usize = 0;
    while k < hs.len()
        invariant
            k <= hs.len(),
            views(before@) == b,
            views(after@) == a,
            b == split_inclusive(oc@),
            oc@ == old_text@,
            oc@.len() <= isize::MAX,
            om == views(before@).subrange(prefix as int, oe as int),
            nm == views(after@).subrange(prefix as int, ne as int),
            prefix <= oe <= before@.len(),
            prefix <= ne <= after@.len(),
            rows == oe - prefix,
            cols == ne - prefix,
            small ==> is_diff(om, nm, hs@),
            !small ==> hs@ == seq![Hunk { removed_start: 0, removed_end: rows, inserted_start: 0, inserted_end: cols }],
            edits@.map_values(|e: TextEdit| edit_view(e)) == hs@.take(k as int).map_values(
                |h: Hunk| hunk_edit(old_text@, b, a, prefix as int, h),
            ),
        decreases hs.len() - k,
    {
        let h = hs[k];
        proof {
            if small {
                lemma_hunk_bounds(om, nm, 0, 0, hs@, om.len() as int, nm.len() as int, false, k as int);
            }
        }
        let start = position(&oc, &before, prefix + h.removed_start);
        let end = position(&oc, &before, prefix + h.removed_end);
        let text = joined_lines(&after, prefix + h.inserted_start, prefix + h.inserted_end);
        let ghost prev = edits@;
        let edit = TextEdit { range: Range { start, end }, new_text: text };
        proof {
            assert(views(after@).subrange(prefix + h.inserted_start, prefix + h.inserted_end) =~= a.subrange(
                prefix + h.inserted_start,
                prefix + h.inserted_end,
            ));
            assert(edit_view(edit) == hunk_edit(old_text@, b, a, prefix as int, h));
        }
        edits.push(edit);
        proof {
            assert(edits@ =~= prev.push(edit));
            assert(edits@.map_values(|e: TextEdit| edit_view(e)) =~= prev.map_values(|e: TextEdit| edit_view(e)).push(edit_view(edit)));
            assert(hs@.take(k + 1) =~= hs@.take(k as int).push(h));
            assert(views(after@).subrange(prefix + h.inserted_start, prefix + h.inserted_end) =~= a.subrange(
                prefix + h.inserted_start,
                prefix + h.inserted_end,
            ));
            assert(edits@.map_values(|e: TextEdit| edit_view(e)) =~= hs@.take(k + 1).map_values(
                |h: Hunk| hunk_edit(old_text@, b, a, prefix as int, h),
            ));
        }
        k = k + 1;
    }
    proof {
        assert(hs@.take(k as int) =~= hs@);
        let (m1, m2) = middles(old_text@, new_text@);
        assert(m1 == om);
        assert(m2 == nm);
    }
    edits
}

/// The `i`-th line from the end.
pub open spec fn from_end(a: Seq<Seq<char>>, i: int) -> Seq<char> {
    a[a.len() - 1 - i]
}

proof fn lemma_shared_suffix(a: Seq<Seq<char>>, b: Seq<Seq<char>>, room: int)
    ensures
        shared_suffix(a, b, room) <= a.len(),
        shared_suffix(a, b, room) <= b.len(),
        room >= 0 ==> shared_suffix(a, b, room) <= room,
        forall|i: int| 0 <= i < shared_suffix(a, b, room) ==> #[trigger] from_end(a, i) == from_end(b, i),
    decreases a.len(),
{
    if !(room <= 0 || a.len() == 0 || b.len() == 0 || a.last() != b.last()) {
        lemma_shared_suffix(a.drop_last(), b.drop_last(), room - 1);
        let k = shared_suffix(a, b, room);
        assert forall|i: int| 0 <= i < k implies #[trigger] from_end(a, i) == from_end(b, i) by {
            if i > 0 {
                assert(from_end(a.drop_last(), i - 1) == from_end(a, i));
                assert(from_end(b.drop_last(), i - 1) == from_end(b, i));
            }
        }
    }
}

/// What `line_edits` does, put back together: the lines both texts share at
/// the start, then the middle of the old text with each hunk's old lines
/// replaced by its new ones, then the lines both share at the end, joined,
/// are the new text.
pub proof fn lemma_line_edits_rebuild(old_text: Seq<char>, new_text: Seq<char>, hs: Seq<Hunk>)
    requires
        is_diff(middles(old_text, new_text).0, middles(old_text, new_text).1, hs),
    ensures
        ({
            let before = split_inclusive(old_text);
            let after = split_inclusive(new_text);
            let prefix = shared_prefix(before, after);
            let room = (if before.len() <= after.len() { before.len() } else { after.len() }) - prefix;
            let suffix = shared_suffix(before, after, room);
            let (om, nm) = middles(old_text, new_text);
            concat(before.take(prefix as int) + replaced(om, nm, 0, hs) + before.skip(before.len() - suffix)) == new_text
        }),
{
    let before = split_inclusive(old_text);
    let after = split_inclusive(new_text);
    let prefix = shared_prefix(before, after);
    let room = (if before.len() <= after.len() { before.len() } else { after.len() }) - prefix;
    let suffix = shared_suffix(before, after, room);
    let (om, nm) = middles(old_text, new_text);
    crate::path::lemma_shared_prefix_facts(before, after);
    lemma_shared_suffix(before, after, room);
    lemma_diff_applies(om, nm, hs);
    assert(before.take(prefix as int) =~= after.take(prefix as int)) by {
        assert forall|i: int| 0 <= i < prefix implies before[i] == after[i] by {
            crate::path::lemma_shared_prefix_at(before, after, i);
        }
    }
    assert(before.skip(before.len() - suffix) =~= after.skip(after.len() - suffix)) by {
        let bs = before.skip(before.len() - suffix);
        let as_ = after.skip(after.len() - suffix);
        assert forall|i: int| 0 <= i < suffix implies #[trigger] bs[i] == as_[i] by {
            let j = suffix - 1 - i;
            assert(from_end(before, j) == from_end(after, j));
        }
    }
    assert(after.take(prefix as int) + nm + after.skip(after.len() - suffix) =~= after);
    crate::text::lemma_split_inclusive(new_text);
}

// ---- where a line edit's positions fall ------------------------------------------------

proof fn lemma_split_no_inner_break(cs: Seq<char>)
    ensures
        forall|i: int, j: int| 0 <= i < split_inclusive(cs).len() && 0 <= j < split_inclusive(cs)[i].len() - 1 ==> #[trigger] split_inclusive(cs)[i][j] != '\n',
    decreases cs.len(),
{
    if cs.len() > 0 {
        lemma_split_no_inner_break(cs.drop_last());
        let rest = split_inclusive(cs.drop_last());
        let out = split_inclusive(cs);
        if !(rest.len() == 0 || rest.last().last() == '\n') {
            assert forall|i: int, j: int| 0 <= i < out.len() && 0 <= j < out[i].len() - 1 implies #[trigger] out[i][j] != '\n' by {
                if i < rest.len() - 1 {
                    assert(out[i] == rest[i]);
                } else {
                    assert(out[i] == rest.last().push(cs.last()));
                    assert(out[i][j] == rest.last()[j]);
                    if j < rest.last().len() - 1 {
                        assert(rest[rest.len() - 1][j] != '\n');
                    }
                }
            }
        } else {
            assert forall|i: int, j: int| 0 <= i < out.len() && 0 <= j < out[i].len() - 1 implies #[trigger] out[i][j] != '\n' by {
                if i < rest.len() {
                    assert(out[i] == rest[i]);
                }
            }
        }
    }
}

proof fn lemma_newlines_concat(a: Seq<char>, b: Seq<char>)
    ensures
        crate::lsp::convert::newlines(a + b) == crate::lsp::convert::newlines(a) + crate::lsp::convert::newlines(b),
    decreases b.len(),
{
    if b.len() == 0 {
        assert(a + b =~= a);
    } else {
        lemma_newlines_concat(a, b.drop_last());
        assert((a + b).drop_last() =~= a + b.drop_last());
    }
}

proof fn lemma_newlines_none(a: Seq<char>)
    requires
        forall|j: int| 0 <= j < a.len() ==> a[j] != '\n',
    ensures
        crate::lsp::convert::newlines(a) == 0,
    decreases a.len(),
{
    if a.len() > 0 {
        lemma_newlines_none(a.drop_last());
    }
}

/// The first `k` lines of a text hold `k` line breaks, one ending each, and
/// are what the text starts with.
proof fn lemma_lines_prefix(cs: Seq<char>, k: int)
    requires
        0 <= k < split_inclusive(cs).len() || (k == split_inclusive(cs).len() && (cs.len() == 0 || cs.last() == '\n')),
    ensures
        crate::lsp::convert::newlines(concat(split_inclusive(cs).take(k))) == k,
        cs.take(concat(split_inclusive(cs).take(k)).len() as int) == concat(split_inclusive(cs).take(k)),
        concat(split_inclusive(cs).take(k)).len() <= cs.len(),
        k == 0 || concat(split_inclusive(cs).take(k)).last() == '\n',
    decreases k,
{
    let ps = split_inclusive(cs);
    crate::text::lemma_split_inclusive(cs);
    lemma_split_no_inner_break(cs);
    lemma_concat_split(ps, k);
    if k == 0 {
        assert(ps.take(0) =~= Seq::<Seq<char>>::empty());
    } else {
        lemma_lines_prefix(cs, k - 1);
        let p = ps[k - 1];
        assert(ps.take(k).drop_last() =~= ps.take(k - 1));
        assert(ps.take(k).last() == p);
        assert(p.last() == '\n') by {
            if k - 1 == ps.len() - 1 {
                lemma_concat_split(ps, ps.len() - 1);
                assert(ps.take(ps.len() as int) =~= ps);
                assert(ps.skip(ps.len() - 1) =~= seq![p]);
                assert(concat(seq![p]) =~= p) by {
                    assert(seq![p].drop_last() =~= Seq::<Seq<char>>::empty());
                }
                assert(cs =~= concat(ps.take(ps.len() - 1)) + p);
            }
        }
        assert forall|j: int| 0 <= j < p.drop_last().len() implies p.drop_last()[j] != '\n' by {
            assert(ps[k - 1][j] != '\n');
        }
        lemma_newlines_none(p.drop_last());
        assert(p =~= p.drop_last().push('\n'));
        assert(crate::lsp::convert::newlines(p) == 1);
        lemma_newlines_concat(concat(ps.take(k - 1)), p);
    }
}

/// The pieces before `k` and from `k` on, joined, are the whole.
proof fn lemma_concat_split(ps: Seq<Seq<char>>, k: int)
    requires
        0 <= k <= ps.len(),
    ensures
        concat(ps) == concat(ps.take(k)) + concat(ps.skip(k)),
    decreases ps.len() - k,
{
    if k == ps.len() {
        assert(ps.take(k) =~= ps);
        assert(ps.skip(k) =~= Seq::<Seq<char>>::empty());
        assert(concat(ps) + Seq::<char>::empty() =~= concat(ps));
    } else {
        lemma_concat_split(ps, k + 1);
        assert(ps.take(k + 1).drop_last() =~= ps.take(k));
        assert(ps.take(k + 1).last() == ps[k]);
        lemma_concat_front(ps.skip(k));
        assert(ps.skip(k).drop_first() =~= ps.skip(k + 1));
    }
}

proof fn lemma_concat_front(ps: Seq<Seq<char>>)
    requires
        ps.len() > 0,
    ensures
        concat(ps) == ps[0] + concat(ps.drop_first()),
    decreases ps.len(),
{
    if ps.len() == 1 {
        assert(ps.drop_last() =~= Seq::<Seq<char>>::empty());
        assert(ps.drop_first() =~= Seq::<Seq<char>>::empty());
        assert(concat(ps) =~= ps[0] + concat(ps.drop_first()));
    } else {
        lemma_concat_front(ps.drop_last());
        assert(ps.drop_last().drop_first() =~= ps.drop_first().drop_last());
        assert(ps.drop_first().last() == ps.last());
        assert(concat(ps) =~= ps[0] + concat(ps.drop_first()));
    }
}

/// Where a line edit's position falls, as the protocol reads positions: the
/// position `line_edits` gives for the start of line `k` of the old text is
/// the byte offset where the text's first `k` lines end, for every `k` up to
/// the number of lines (the last one being the end of the text). So each
/// edit's range is exactly the run of whole old lines its hunk removes.
pub proof fn lemma_line_position_offset(text: Seq<char>, k: int)
    requires
        0 <= k <= split_inclusive(text).len(),
        crate::text::byte_len(text) <= u32::MAX,
    ensures
        crate::lsp::convert::offset_of(text, line_position(text, split_inclusive(text), k)) == crate::text::byte_len(
            concat(split_inclusive(text).take(k)),
        ),
{
    let ps = split_inclusive(text);
    lemma_pieces_bounded(text);
    crate::lsp::convert::lemma_utf16_le_bytes(text);
    crate::text::lemma_split_inclusive(text);
    if k < ps.len() || text.len() == 0 || text.last() == '\n' {
        lemma_lines_prefix(text, k);
        let t = concat(ps.take(k)).len() as int;
        assert(t == 0 || text[t - 1] == '\n') by {
            if t > 0 {
                assert(text.take(t)[t - 1] == text[t - 1]);
            }
        }
        crate::lsp::convert::lemma_line_start_reaches(text, 0, t);
        assert(text.take(0) =~= Seq::<char>::empty());
    } else {
        let n = ps.len() as int;
        lemma_lines_prefix(text, n - 1);
        let t = concat(ps.take(n - 1)).len() as int;
        assert(t == 0 || text[t - 1] == '\n') by {
            if t > 0 {
                assert(text.take(t)[t - 1] == text[t - 1]);
            }
        }
        crate::lsp::convert::lemma_line_start_reaches(text, 0, t);
        assert(text.take(0) =~= Seq::<char>::empty());
        lemma_concat_split(ps, n - 1);
        assert(ps.skip(n - 1) =~= seq![ps.last()]);
        assert(concat(seq![ps.last()]) =~= ps.last()) by {
            assert(seq![ps.last()].drop_last() =~= Seq::<Seq<char>>::empty());
        }
        assert(text =~= concat(ps.take(n - 1)) + ps.last());
        assert(text.subrange(t, text.len() as int) =~= ps.last());
        lemma_split_no_inner_break(text);
        assert forall|m: int| t <= m < text.len() implies text[m] != '\n' by {
            assert(text[m] == ps.last()[m - t]);
            if m - t < ps.last().len() - 1 {
                assert(ps[n - 1][m - t] != '\n');
            } else {
                assert(text.last() == text[m]);
            }
        }
        crate::lsp::convert::lemma_column_reaches(text, t, text.len() as int);
        crate::lsp::convert::lemma_utf16_le_bytes(ps.last());
        crate::text::lemma_byte_len_concat(concat(ps.take(n - 1)), ps.last());
        assert(ps.take(n) =~= ps);
        assert(text.take(text.len() as int) =~= text);
    }
}

} // verus!
