//! Conversions between byte offsets and editor positions.
//!
//! Editors count columns in UTF-16 code units, and prose is full of typographic
//! quotes and dashes, so a column cannot be a byte count.
use vstd::prelude::*;

use crate::text::{byte_len, chars_of, len_utf16, len_utf8, str_len, utf16_len, utf16_width, utf8_width};

verus! {

/// A place in a document: a zero-based line and a UTF-16 column on it.
#[derive(Clone, Copy, Debug, PartialEq, Eq, Structural)]
pub struct Position {
    pub line: u32,
    pub character: u32,
}

/// A stretch of a document between two positions.
#[derive(Clone, Copy, Debug, PartialEq, Eq, Structural)]
pub struct Range {
    pub start: Position,
    pub end: Position,
}

/// A stretch of source text in bytes, `start` to `end`.
#[derive(Clone, Copy, Debug, PartialEq, Eq)]
pub struct Span {
    pub start: usize,
    pub end: usize,
}

/// How many line breaks a run of characters holds.
pub open spec fn newlines(cs: Seq<char>) -> nat
    decreases cs.len(),
{
    if cs.len() == 0 {
        0
    } else {
        newlines(cs.drop_last()) + if cs.last() == '\n' { 1nat } else { 0nat }
    }
}

/// Where the line holding character index `k` begins: just past the last line
/// break before `k`, or the start of the text.
pub open spec fn line_begin(cs: Seq<char>, k: int) -> int
    decreases k,
{
    if k <= 0 {
        0
    } else if cs[k - 1] == '\n' {
        k
    } else {
        line_begin(cs, k - 1)
    }
}

/// How many characters end at or before byte `o`.
pub open spec fn boundary_index(cs: Seq<char>, o: int) -> nat
    decreases cs.len(),
{
    if cs.len() == 0 || byte_len(cs) <= o {
        cs.len()
    } else {
        boundary_index(cs.drop_last(), o)
    }
}

/// Whether byte `o` falls between two characters (or at the end).
pub open spec fn on_boundary(cs: Seq<char>, o: int) -> bool {
    byte_len(cs.take(boundary_index(cs, o) as int)) == o || o >= byte_len(cs)
}

/// The position of character index `k`: the line breaks before it, and the
/// UTF-16 length of its line up to it. Both are truncated to 32 bits, as the
/// protocol carries them.
pub open spec fn position_of(cs: Seq<char>, k: int) -> Position {
    Position {
        line: newlines(cs.take(k)) as u32,
        character: utf16_len(cs.subrange(line_begin(cs, k), k)) as u32,
    }
}

/// Where line `n` starts, searching from index `i` with `n` breaks still to
/// pass; `None` when the text runs out first.
pub open spec fn line_start_from(cs: Seq<char>, i: int, n: nat) -> Option<int>
    decreases cs.len() - i,
{
    if n == 0 {
        Some(i)
    } else if i < 0 || i >= cs.len() {
        None
    } else if cs[i] == '\n' {
        line_start_from(cs, i + 1, (n - 1) as nat)
    } else {
        line_start_from(cs, i + 1, n)
    }
}

/// From index `j`, the index reached by taking characters of the line until
/// `u` more UTF-16 units have been passed, stopping at the line's end.
pub open spec fn column_from(cs: Seq<char>, j: int, u: int, stop_at_break: bool) -> int
    decreases cs.len() - j,
{
    if j < 0 || j >= cs.len() || u <= 0 || (stop_at_break && cs[j] == '\n') {
        j
    } else {
        column_from(cs, j + 1, u - utf16_width(cs[j]), stop_at_break)
    }
}

/// The byte offset `position_to_offset` gives for a position.
pub open spec fn offset_of(cs: Seq<char>, p: Position) -> int {
    match line_start_from(cs, 0, p.line as nat) {
        None => byte_len(cs) as int,
        Some(s) => byte_len(cs.take(column_from(cs, s, p.character as int, true))) as int,
    }
}

// ---- lemmas ---------------------------------------------------------------------

pub proof fn lemma_take_step(cs: Seq<char>, i: int)
    requires
        0 <= i < cs.len(),
    ensures
        cs.take(i + 1).drop_last() == cs.take(i),
        cs.take(i + 1).last() == cs[i],
        byte_len(cs.take(i + 1)) == byte_len(cs.take(i)) + utf8_width(cs[i]),
        newlines(cs.take(i + 1)) == newlines(cs.take(i)) + if cs[i] == '\n' { 1nat } else { 0nat },
{
    assert(cs.take(i + 1).drop_last() =~= cs.take(i));
}

pub proof fn lemma_utf16_len_front(cs: Seq<char>)
    requires
        cs.len() > 0,
    ensures
        utf16_len(cs) == utf16_width(cs[0]) + utf16_len(cs.drop_first()),
    decreases cs.len(),
{
    if cs.len() == 1 {
        assert(cs.drop_first() =~= Seq::<char>::empty());
        assert(cs.drop_last() =~= Seq::<char>::empty());
    } else {
        lemma_utf16_len_front(cs.drop_last());
        assert(cs.drop_last().drop_first() =~= cs.drop_first().drop_last());
    }
}

pub proof fn lemma_utf16_le_bytes(cs: Seq<char>)
    ensures
        utf16_len(cs) <= byte_len(cs),
        cs.len() <= byte_len(cs),
        newlines(cs) <= cs.len(),
    decreases cs.len(),
{
    if cs.len() > 0 {
        lemma_utf16_le_bytes(cs.drop_last());
    }
}

pub proof fn lemma_byte_len_prefix_mono(cs: Seq<char>, i: int, j: int)
    requires
        0 <= i <= j <= cs.len(),
    ensures
        byte_len(cs.take(i)) + (j - i) <= byte_len(cs.take(j)),
    decreases j - i,
{
    if i < j {
        lemma_byte_len_prefix_mono(cs, i, j - 1);
        lemma_take_step(cs, j - 1);
    }
}

pub proof fn lemma_boundary_index(cs: Seq<char>, o: int, i: int)
    requires
        0 <= i <= cs.len(),
        byte_len(cs.take(i)) <= o,
        i == cs.len() || byte_len(cs.take(i + 1)) > o,
    ensures
        boundary_index(cs, o) == i,
    decreases cs.len(),
{
    if cs.len() == 0 {
    } else if i == cs.len() {
        assert(cs.take(i) =~= cs);
    } else {
        assert(cs.take(cs.len() as int) =~= cs);
        lemma_byte_len_prefix_mono(cs, i + 1, cs.len() as int);
        let d = cs.drop_last();
        assert(d.take(i) =~= cs.take(i));
        if i + 1 <= d.len() {
            assert(d.take(i + 1) =~= cs.take(i + 1));
        }
        lemma_boundary_index(d, o, i);
    }
}

/// The byte length of a prefix falls between two characters.
pub proof fn lemma_prefix_on_boundary(cs: Seq<char>, j: int)
    requires
        0 <= j <= cs.len(),
    ensures
        on_boundary(cs, byte_len(cs.take(j)) as int),
        boundary_index(cs, byte_len(cs.take(j)) as int) == j,
{
    if j < cs.len() {
        lemma_take_step(cs, j);
    }
    lemma_boundary_index(cs, byte_len(cs.take(j)) as int, j);
}

/// A later byte offset never falls before an earlier one's character.
pub proof fn lemma_boundary_index_mono(cs: Seq<char>, s: int, t: int)
    requires
        s <= t,
    ensures
        boundary_index(cs, s) <= boundary_index(cs, t),
    decreases cs.len(),
{
    if cs.len() > 0 && byte_len(cs) > s {
        lemma_boundary_index_bound(cs.drop_last(), s);
        if byte_len(cs) > t {
            lemma_boundary_index_mono(cs.drop_last(), s, t);
        }
    }
}

pub proof fn lemma_boundary_index_bound(cs: Seq<char>, o: int)
    ensures
        boundary_index(cs, o) <= cs.len(),
        byte_len(cs.take(boundary_index(cs, o) as int)) <= o || boundary_index(cs, o) == 0,
    decreases cs.len(),
{
    if cs.len() == 0 {
    } else if byte_len(cs) <= o {
        assert(cs.take(cs.len() as int) =~= cs);
    } else {
        lemma_boundary_index_bound(cs.drop_last(), o);
        let k = boundary_index(cs.drop_last(), o);
        assert(cs.drop_last().take(k as int) =~= cs.take(k as int));
    }
}


proof fn lemma_line_begin_bound(cs: Seq<char>, k: int)
    requires
        0 <= k <= cs.len(),
    ensures
        0 <= line_begin(cs, k) <= k,
    decreases k,
{
    if k > 0 && cs[k - 1] != '\n' {
        lemma_line_begin_bound(cs, k - 1);
    }
}

pub proof fn lemma_utf16_len_back(cs: Seq<char>, a: int, b: int)
    requires
        0 <= a < b <= cs.len(),
    ensures
        utf16_len(cs.subrange(a, b)) == utf16_len(cs.subrange(a, b - 1)) + utf16_width(cs[b - 1]),
{
    assert(cs.subrange(a, b).drop_last() =~= cs.subrange(a, b - 1));
}

pub proof fn lemma_newlines_mono(cs: Seq<char>, i: int, j: int)
    requires
        0 <= i <= j <= cs.len(),
    ensures
        newlines(cs.take(i)) <= newlines(cs.take(j)),
        (exists|m: int| i <= m < j && cs[m] == '\n') ==> newlines(cs.take(i)) < newlines(cs.take(j)),
        (forall|m: int| i <= m < j ==> cs[m] != '\n') ==> newlines(cs.take(i)) == newlines(cs.take(j)),
    decreases j - i,
{
    if i < j {
        lemma_newlines_mono(cs, i, j - 1);
        lemma_take_step(cs, j - 1);
        if exists|m: int| i <= m < j && cs[m] == '\n' {
            let m = choose|m: int| i <= m < j && cs[m] == '\n';
            if m < j - 1 {
                assert(exists|m: int| i <= m < j - 1 && cs[m] == '\n');
            }
        }
    }
}

pub proof fn lemma_line_begin_facts(cs: Seq<char>, k: int)
    requires
        0 <= k <= cs.len(),
    ensures
        0 <= line_begin(cs, k) <= k,
        line_begin(cs, k) == 0 || cs[line_begin(cs, k) - 1] == '\n',
        forall|m: int| line_begin(cs, k) <= m < k ==> cs[m] != '\n',
    decreases k,
{
    if k > 0 && cs[k - 1] != '\n' {
        lemma_line_begin_facts(cs, k - 1);
    }
}

pub proof fn lemma_line_start_reaches(cs: Seq<char>, i: int, ls: int)
    requires
        0 <= i <= ls <= cs.len(),
        ls == 0 || cs[ls - 1] == '\n',
    ensures
        line_start_from(cs, i, (newlines(cs.take(ls)) - newlines(cs.take(i))) as nat) == Some(ls),
    decreases ls - i,
{
    lemma_newlines_mono(cs, i, ls);
    if i < ls {
        lemma_newlines_mono(cs, i, ls - 1);
        lemma_newlines_mono(cs, ls - 1, ls);
        assert(exists|m: int| ls - 1 <= m < ls && cs[m] == '\n');
        lemma_take_step(cs, i);
        lemma_newlines_mono(cs, i + 1, ls);
        lemma_line_start_reaches(cs, i + 1, ls);
    }
}

pub proof fn lemma_column_reaches(cs: Seq<char>, j: int, k: int)
    requires
        0 <= j <= k <= cs.len(),
        forall|m: int| j <= m < k ==> cs[m] != '\n',
    ensures
        column_from(cs, j, utf16_len(cs.subrange(j, k)) as int, true) == k,
    decreases k - j,
{
    if j < k {
        lemma_utf16_len_front(cs.subrange(j, k));
        assert(cs.subrange(j, k).drop_first() =~= cs.subrange(j + 1, k));
        lemma_column_reaches(cs, j + 1, k);
    } else {
        assert(cs.subrange(j, k) =~= Seq::<char>::empty());
    }
}

/// Converting a byte offset to a position and back gives the offset again,
/// for every offset between characters of a text whose positions fit the
/// protocol's 32-bit numbers.
pub proof fn lemma_offsets_round_trip(cs: Seq<char>, o: int)
    requires
        0 <= o <= byte_len(cs),
        on_boundary(cs, o),
        byte_len(cs) <= u32::MAX,
    ensures
        offset_of(cs, position_of(cs, boundary_index(cs, o) as int)) == o,
{
    lemma_boundary_index_bound(cs, o);
    let k = boundary_index(cs, o) as int;
    if o == byte_len(cs) {
        lemma_boundary_index(cs, o, cs.len() as int);
        assert(cs.take(cs.len() as int) =~= cs);
    }
    assert(byte_len(cs.take(k)) == o);
    lemma_line_begin_facts(cs, k);
    let ls = line_begin(cs, k);
    lemma_newlines_mono(cs, ls, k);
    lemma_newlines_mono(cs, 0, k);
    assert(cs.take(0) =~= Seq::<char>::empty());
    lemma_line_start_reaches(cs, 0, ls);
    lemma_column_reaches(cs, ls, k);
    lemma_utf16_le_bytes(cs.take(k));
    lemma_utf16_le_bytes(cs.subrange(ls, k));
    assert(cs.take(k) =~= cs.take(ls) + cs.subrange(ls, k));
    crate::text::lemma_byte_len_concat(cs.take(ls), cs.subrange(ls, k));
    assert(cs.take(cs.len() as int) =~= cs);
    lemma_byte_len_prefix_mono(cs, k, cs.len() as int);
    let p = position_of(cs, k);
    assert(p.line as nat == newlines(cs.take(ls)));
    assert(p.character as int == utf16_len(cs.subrange(ls, k)));
}

/// Where line `n` starts, if the search from `i` finds it: past `n` more line
/// breaks, each counted, and just after the last of them.
pub proof fn lemma_line_start_from(cs: Seq<char>, i: int, n: nat)
    requires
        0 <= i <= cs.len(),
    ensures
        match line_start_from(cs, i, n) {
            Some(s) => i <= s <= cs.len() && newlines(cs.take(s)) == newlines(cs.take(i)) + n && (n > 0
                ==> cs[s - 1] == '\n'),
            None => newlines(cs) < newlines(cs.take(i)) + n,
        },
    decreases cs.len() - i,
{
    if n == 0 {
    } else if i >= cs.len() {
        assert(cs.take(i) =~= cs);
    } else {
        lemma_take_step(cs, i);
        if cs[i] == '\n' {
            lemma_line_start_from(cs, i + 1, (n - 1) as nat);
        } else {
            lemma_line_start_from(cs, i + 1, n);
        }
    }
}

// ---- conversions ------------------------------------------------------------------

/// How many characters end at or before byte `offset`.
pub fn char_index(cs: &[char], offset: usize) -> (k: usize)
    ensures
        k == boundary_index(cs@, offset as int),
{
    let ghost s = cs@;
    let mut i: usize = 0;
    let mut bytes: usize = 0;
    proof {
        assert(s.take(0) =~= Seq::<char>::empty());
    }
    while i < cs.len()
        invariant
            s == cs@,
            i <= cs.len(),
            bytes == byte_len(s.take(i as int)),
            bytes <= offset,
        ensures
            i == cs.len() || bytes + utf8_width(s[i as int]) > offset,
        decreases cs.len() - i,
    {
        let w = len_utf8(cs[i]);
        if w > offset - bytes {
            break;
        }
        proof {
            lemma_take_step(s, i as int);
        }
        bytes = bytes + w;
        i = i + 1;
    }
    proof {
        if i < cs.len() {
            lemma_take_step(s, i as int);
        }
        lemma_boundary_index(s, offset as int, i as int);
    }
    i
}

/// Converts a byte offset into a position, clamping it to the end of the text.
///
/// The offset must fall between two characters, as slicing there would
/// require.
pub fn offset_to_position(text: &str, offset: usize) -> (p: Position)
    requires
        on_boundary(text@, offset as int),
    ensures
        p == position_of(text@, boundary_index(text@, offset as int) as int),
{
    let cs = chars_of(text);
    let ghost s = text@;
    let mut i: usize = 0;
    let mut bytes: usize = 0;
    let mut line: usize = 0;
    let mut begin: usize = 0;
    let mut column: usize = 0;
    while i < cs.len()
        invariant
            s == cs@,
            i <= cs.len(),
            bytes == byte_len(s.take(i as int)),
            bytes <= offset,
            line == newlines(s.take(i as int)),
            begin == line_begin(s, i as int),
            begin <= i,
            column == utf16_len(s.subrange(begin as int, i as int)),
        ensures
            i == cs.len() || bytes + utf8_width(s[i as int]) > offset,
        decreases cs.len() - i,
    {
        let c = cs[i];
        let w = len_utf8(c);
        if w > offset - bytes {
            break;
        }
        proof {
            lemma_take_step(s, i as int);
            lemma_utf16_le_bytes(s.take(i as int));
            lemma_utf16_le_bytes(s.subrange(begin as int, i as int));
            assert(s.take(i as int) =~= s.subrange(0, begin as int) + s.subrange(begin as int, i as int));
            crate::text::lemma_byte_len_concat(s.subrange(0, begin as int), s.subrange(begin as int, i as int));
        }
        bytes = bytes + w;
        if c == '\n' {
            line = line + 1;
            begin = i + 1;
            column = 0;
            proof {
                assert(s.subrange(begin as int, begin as int) =~= Seq::<char>::empty());
            }
        } else {
            proof { lemma_utf16_len_back(s, begin as int, i + 1); }
            column = column + len_utf16(c);
        }
        i = i + 1;
    }
    proof {
        if i < cs.len() {
            lemma_take_step(s, i as int);
        }
        lemma_boundary_index(s, offset as int, i as int);
    }
    Position { line: #[verifier::truncate] (line as u32), character: #[verifier::truncate] (column as u32) }
}


/// Converts a position into a byte offset, clamping input that is out of range:
/// a line past the last is the end of the text, and a column past the end of
/// its line is the end of that line.
pub fn position_to_offset(text: &str, position: Position) -> (offset: usize)
    ensures
        offset == offset_of(text@, position),
{
    let cs = chars_of(text);
    let ghost s = text@;
    let mut i: usize = 0;
    let mut bytes: usize = 0;
    let mut line: u32 = 0;
    let total = str_len(text);
    while line < position.line
        invariant
            s == cs@,
            s == text@,
            i <= cs.len(),
            line <= position.line,
            bytes == byte_len(s.take(i as int)),
            total == byte_len(s),
            line_start_from(s, i as int, (position.line - line) as nat)
                == line_start_from(s, 0, position.line as nat),
        decreases cs.len() - i, position.line - line,
    {
        if i == cs.len() {
            proof {
                assert(line_start_from(s, i as int, (position.line - line) as nat) == None::<int>);
                assert(line_start_from(s, 0, position.line as nat) == None::<int>);
                assert(offset_of(s, position) == byte_len(s) as int);
            }
            return total;
        }
        let c = cs[i];
        proof {
            lemma_take_step(s, i as int);
            assert(s.take(cs.len() as int) =~= s);
            lemma_byte_len_prefix_mono(s, i + 1, cs.len() as int);
        }
        bytes = bytes + len_utf8(c);
        i = i + 1;
        if c == '\n' {
            line = line + 1;
        }
    }
    let ghost start = i as int;
    let mut units: usize = 0;
    while i < cs.len() && cs[i] != '\n' && units < position.character as usize
        invariant
            s == cs@,
            start <= i <= cs.len(),
            bytes == byte_len(s.take(i as int)),
            units <= position.character,
            total == byte_len(s),
            column_from(s, i as int, position.character - units, true)
                == column_from(s, start, position.character as int, true),
        decreases cs.len() - i,
    {
        let c = cs[i];
        proof {
            lemma_take_step(s, i as int);
            assert(s.take(cs.len() as int) =~= s);
            lemma_byte_len_prefix_mono(s, i + 1, cs.len() as int);
            assert(total == byte_len(s));
        }
        bytes = bytes + len_utf8(c);
        let w = len_utf16(c);
        let ghost before = units;
        units = if w > position.character as usize - units { position.character as usize } else { units + w };
        i = i + 1;
        proof {
            assert(column_from(s, i - 1, position.character - before, true)
                == column_from(s, i as int, position.character - before - utf16_width(c), true));
            if position.character - before - utf16_width(c) <= 0 {
                assert(column_from(s, i as int, position.character - before - utf16_width(c), true) == i);
                assert(column_from(s, i as int, position.character - units, true) == i);
            }
        }
    }
    bytes
}


/// Converts a source span into a range. A span whose end comes before its
/// start is read as empty.
pub fn span_to_range(text: &str, span: Span) -> (r: Range)
    requires
        on_boundary(text@, span.start as int),
        on_boundary(text@, if span.end >= span.start { span.end as int } else { span.start as int }),
    ensures
        r.start == position_of(text@, boundary_index(text@, span.start as int) as int),
        r.end == position_of(
            text@,
            boundary_index(text@, if span.end >= span.start { span.end as int } else { span.start as int }) as int,
        ),
{
    let end = if span.end >= span.start { span.end } else { span.start };
    Range { start: offset_to_position(text, span.start), end: offset_to_position(text, end) }
}

/// A position past the text's last line reads as the text's end.
pub proof fn lemma_positions_clamp(cs: Seq<char>, p: Position)
    requires
        p.line > newlines(cs),
    ensures
        offset_of(cs, p) == byte_len(cs),
{
    lemma_line_start_from(cs, 0, p.line as nat);
    assert(cs.take(0) =~= Seq::<char>::empty());
    match line_start_from(cs, 0, p.line as nat) {
        Some(s) => {
            lemma_newlines_mono(cs, s, cs.len() as int);
            assert(cs.take(cs.len() as int) =~= cs);
        },
        None => {},
    }
}

} // verus!
