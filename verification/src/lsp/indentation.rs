//! The indentation a new line gets as it is typed.
//!
//! Indentation is outside the grammar, so no syntax tree can say how deep the
//! next line belongs; the lines above decide. A key or declaration ending in
//! its colon opens a block, a blank indented line backs out of one, and an
//! emptied line is measured from the last line above that holds anything.
//! Each rule reads a line's code, that is the line without its comment,
//! which the caller cuts off.
use vstd::prelude::*;

use crate::lsp::convert::{
    boundary_index, char_index, column_from, lemma_boundary_index, lemma_line_start_from,
    lemma_take_step, line_begin, line_start_from, offset_of, offset_to_position, on_boundary,
    position_of, position_to_offset, Position, Range,
};
use crate::lsp::diff::TextEdit;
use crate::lsp::features::{
    bytes_before, escape_open, indent_from, indent_of, key_tail, key_tail_of, line_start_of,
    split_key, split_key_of, trim_chars, verbatim_at,
};
use crate::text::{
    byte_len, chars_of, end_of_text, lines_of, skip_spaces, slice_chars, spaces, string_of, trim,
    trim_end, trim_start, utf8_width,
};

verus! {

/// A line without the carriage returns at its end.
pub open spec fn strip_cr(cs: Seq<char>) -> Seq<char>
    decreases cs.len(),
{
    if cs.len() > 0 && cs.last() == '\r' {
        strip_cr(cs.drop_last())
    } else {
        cs
    }
}

/// Whether a line opens a block for the lines beneath it, read from its code:
/// a declaration or a key that ends in its colon opens one. A colon inside a
/// value opens nothing, a list item or a combined value is never a key, and
/// indented text without a key is prose.
pub open spec fn opens_block_of(code: Seq<char>) -> bool {
    let c = trim_end(code);
    if c.len() == 0 || c.last() != ':' {
        false
    } else {
        let t = trim_start(c);
        if t == seq!['-'] || (t.len() >= 2 && t[0] == '-' && t[1] == ' ') || (t.len() >= 1 && t[0]
            == '+') {
            false
        } else {
            match split_key_of(t) {
                Some((_, after)) => match key_tail_of(after) {
                    Some(v) => trim(after.skip(v)).len() == 0,
                    None => false,
                },
                None => !(c[0] == ' ' || c[0] == '\t'),
            }
        }
    }
}

/// How many spaces the line after `previous` should carry: one level in
/// after a line that opens a block, one level out after a blank indented
/// line, else the same depth. Levels are four spaces.
pub open spec fn wanted_width(previous: Seq<char>, code: Seq<char>) -> nat {
    let width = indent_of(previous);
    if trim(previous).len() == 0 && width > 0 {
        if width >= 4 {
            (width - 4) as nat
        } else {
            0
        }
    } else if opens_block_of(code) {
        width + 4
    } else {
        width
    }
}

/// The line above the one starting at index `k`, without its line break.
pub open spec fn previous_line_of(cs: Seq<char>, k: int) -> Seq<char> {
    strip_cr(cs.subrange(line_begin(cs, k - 1), k - 1))
}

/// Searching up from the line ending at index `end`: the first line that
/// holds anything, and how many empty lines came before reaching it.
pub open spec fn content_above(cs: Seq<char>, end: int, blank: nat) -> Option<(Seq<char>, nat)>
    decreases end,
{
    if end < 0 || end > cs.len() {
        None
    } else {
        let start = line_begin(cs, end);
        let line = strip_cr(cs.subrange(start, end));
        if trim(line).len() > 0 {
            Some((line, blank))
        } else if start <= 0 || start > end {
            None
        } else {
            content_above(cs, start - 1, blank + 1)
        }
    }
}

/// The indentation after an emptied line: the depth the last line with
/// content above leads into, less a level for each empty line since.
pub open spec fn emptied_width(cs: Seq<char>, k: int, above_code: Seq<char>) -> nat {
    match content_above(cs, k - 1, 0) {
        Some((line, blank)) => {
            let base = wanted_width(line, above_code);
            if base >= 4 * blank {
                (base - 4 * blank) as nat
            } else {
                0
            }
        },
        None => 0,
    }
}

/// The width a new line starting at index `k` should carry. `previous_code`
/// is the line above without its comment; `above_code` is the same for the
/// last line above with content, used when the line above is empty.
pub open spec fn new_width(cs: Seq<char>, k: int, previous_code: Seq<char>, above_code: Seq<char>) -> nat {
    let previous = previous_line_of(cs, k);
    if previous.len() == 0 {
        emptied_width(cs, k, above_code)
    } else {
        wanted_width(previous, previous_code)
    }
}

/// The edit a typed line break asks for: the whole leading run of spaces and
/// tabs on the cursor's line replaced by the wanted indentation. Nothing when
/// something other than a line break was typed, on the first line, inside an
/// escape block, or when the line already carries exactly that indentation.
pub open spec fn on_type_of(
    cs: Seq<char>,
    p: Position,
    typed: Seq<char>,
    previous_code: Seq<char>,
    above_code: Seq<char>,
) -> Option<(Position, Position, Seq<char>)> {
    if typed != seq!['\n'] && typed != seq!['\r', '\n'] {
        None
    } else {
        let k = line_begin(cs, boundary_index(cs, offset_of(cs, p)) as int);
        if k <= 0 || escape_open(lines_of(cs.take(k))) is Some {
            None
        } else {
            let want = new_width(cs, k, previous_code, above_code);
            let written = indent_of(cs.skip(k));
            if cs.subrange(k, k + written) == spaces(want) {
                None
            } else {
                Some((position_of(cs, k), position_of(cs, k + written), spaces(want)))
            }
        }
    }
}

// ---- lemmas ---------------------------------------------------------------------

/// The byte offset just past `j` characters is between characters, and is read
/// back as `j` characters.
pub proof fn lemma_offset_of_index(cs: Seq<char>, j: int)
    requires
        0 <= j <= cs.len(),
    ensures
        on_boundary(cs, byte_len(cs.take(j)) as int),
        boundary_index(cs, byte_len(cs.take(j)) as int) == j,
        byte_len(cs.take(j)) <= byte_len(cs),
{
    if j < cs.len() {
        lemma_take_step(cs, j);
    }
    lemma_boundary_index(cs, byte_len(cs.take(j)) as int, j);
    assert(cs.take(cs.len() as int) =~= cs);
    crate::lsp::convert::lemma_byte_len_prefix_mono(cs, j, cs.len() as int);
}

proof fn lemma_column_from_le(cs: Seq<char>, j: int, u: int, stop_at_break: bool)
    requires
        0 <= j <= cs.len(),
    ensures
        j <= column_from(cs, j, u, stop_at_break) <= cs.len(),
    decreases cs.len() - j,
{
    if !(j >= cs.len() || u <= 0 || (stop_at_break && cs[j] == '\n')) {
        lemma_column_from_le(cs, j + 1, u - crate::text::utf16_width(cs[j]), stop_at_break);
    }
}

/// Every offset a position converts to is between characters.
pub proof fn lemma_offset_of_position(cs: Seq<char>, p: Position)
    ensures
        0 <= offset_of(cs, p) <= byte_len(cs),
        on_boundary(cs, offset_of(cs, p)),
{
    assert(cs.take(0) =~= Seq::<char>::empty());
    lemma_line_start_from(cs, 0, p.line as nat);
    match line_start_from(cs, 0, p.line as nat) {
        None => {
            lemma_offset_of_index(cs, cs.len() as int);
            assert(cs.take(cs.len() as int) =~= cs);
        },
        Some(s) => {
            lemma_column_from_le(cs, s, p.character as int, true);
            lemma_offset_of_index(cs, column_from(cs, s, p.character as int, true));
        },
    }
}

// ---- the rules ----------------------------------------------------------------------

/// Whether a line's code opens a block for the lines beneath it.
pub fn opens_a_block(code: &[char]) -> (r: bool)
    ensures
        r == opens_block_of(code@),
{
    let end = end_of_text(code, 0);
    proof {
        assert(code@.subrange(0, code@.len() as int) =~= code@);
    }
    let c = slice_chars(code, 0, end);
    if c.len() == 0 || c[c.len() - 1] != ':' {
        return false;
    }
    let from = skip_spaces(&c, 0);
    let t = slice_chars(&c, from, c.len());
    proof {
        assert(c@.subrange(0, c@.len() as int) =~= c@);
    }
    let lone_dash = t.len() == 1 && t[0] == '-';
    proof {
        if lone_dash {
            assert(t@ =~= seq!['-']);
        }
        if t@ == seq!['-'] {
            assert(t@[0] == '-');
        }
    }
    if lone_dash || (t.len() >= 2 && t[0] == '-' && t[1] == ' ') || (t.len() >= 1 && t[0] == '+') {
        return false;
    }
    match split_key(&t) {
        Some((_, rest)) => {
            let after = slice_chars(&t, rest, t.len());
            proof {
                assert(after@ =~= t@.skip(rest as int));
            }
            match key_tail(&after) {
                Some(v) => {
                    proof {
                        crate::lsp::features::lemma_tail_bound(after@, 0, false);
                    }
                    let value = slice_chars(&after, v, after.len());
                    proof {
                        assert(value@ =~= after@.skip(v as int));
                    }
                    let trimmed = trim_chars(&value);
                    trimmed.len() == 0
                },
                None => false,
            }
        },
        None => !(c[0] == ' ' || c[0] == '\t'),
    }
}

/// The width the line after `previous` should carry, given the line's code.
pub fn wanted_indent(previous: &[char], code: &[char]) -> (width: usize)
    requires
        previous@.len() <= isize::MAX,
    ensures
        width == wanted_width(previous@, code@),
{
    let width = indent_from(previous, 0);
    proof {
        assert(previous@.subrange(0, previous@.len() as int) =~= previous@);
        lemma_indent_bound(previous@);
    }
    let trimmed = trim_chars(previous);
    if trimmed.len() == 0 && width > 0 {
        return if width >= 4 {
            width - 4
        } else {
            0
        };
    }
    if opens_a_block(code) {
        width + 4
    } else {
        width
    }
}

proof fn lemma_indent_bound(cs: Seq<char>)
    ensures
        indent_of(cs) <= cs.len(),
    decreases cs.len(),
{
    if cs.len() > 0 && (cs[0] == ' ' || cs[0] == '\t') {
        lemma_indent_bound(cs.drop_first());
    }
}

/// A copy of `cs[from..to]` without the carriage returns at its end.
fn without_cr(cs: &[char], from: usize, to: usize) -> (out: Vec<char>)
    requires
        from <= to <= cs.len(),
    ensures
        out@ == strip_cr(cs@.subrange(from as int, to as int)),
        out@.len() <= to - from,
{
    let mut end = to;
    while end > from && cs[end - 1] == '\r'
        invariant
            from <= end <= to <= cs.len(),
            strip_cr(cs@.subrange(from as int, to as int)) == strip_cr(cs@.subrange(from as int, end as int)),
        decreases end,
    {
        proof {
            assert(cs@.subrange(from as int, end as int).drop_last() =~= cs@.subrange(from as int, end - 1));
        }
        end = end - 1;
    }
    proof {
        if end > from {
            assert(cs@.subrange(from as int, end as int).last() == cs@[end - 1]);
        }
    }
    slice_chars(cs, from, end)
}

/// The width after an emptied line starting at index `k`.
fn emptied_indent(cs: &[char], k: usize, above_code: &[char]) -> (width: usize)
    requires
        1 <= k <= cs.len(),
        cs@.len() <= isize::MAX,
    ensures
        width == emptied_width(cs@, k as int, above_code@),
{
    let mut end = k - 1;
    let mut blank: usize = 0;
    loop
        invariant
            end < k <= cs.len(),
            blank < k - end,
            cs@.len() <= isize::MAX,
            content_above(cs@, end as int, blank as nat) == content_above(cs@, k - 1, 0),
        decreases end,
    {
        let start = line_start_of(cs, end);
        proof {
            crate::lsp::convert::lemma_line_begin_facts(cs@, end as int);
        }
        let line = without_cr(cs, start, end);
        let trimmed = trim_chars(&line);
        if trimmed.len() > 0 {
            let base = wanted_indent(&line, above_code);
            return if blank <= base / 4 {
                base - 4 * blank
            } else {
                0
            };
        }
        if start == 0 {
            return 0;
        }
        blank = blank + 1;
        end = start - 1;
    }
}

/// The edit that gives a new line its indentation as a line break is typed.
/// `previous_code` is the line above the cursor without its comment, and
/// `above_code` the last line above with content, without its comment.
pub fn on_type_formatting(
    text: &str,
    position: Position,
    typed: &str,
    previous_code: &str,
    above_code: &str,
) -> (r: Option<Vec<TextEdit>>)
    ensures
        match (r, on_type_of(text@, position, typed@, previous_code@, above_code@)) {
            (Some(edits), Some((start, end, indent))) => edits@.len() == 1 && edits@[0].range.start == start
                && edits@[0].range.end == end && edits@[0].new_text@ == indent,
            (None, None) => true,
            _ => false,
        },
{
    let tc = chars_of(typed);
    let newline = (tc.len() == 1 && tc[0] == '\n') || (tc.len() == 2 && tc[0] == '\r' && tc[1] == '\n');
    proof {
        if tc.len() == 1 && tc[0] == '\n' {
            assert(tc@ =~= seq!['\n']);
        }
        if tc.len() == 2 && tc[0] == '\r' && tc[1] == '\n' {
            assert(tc@ =~= seq!['\r', '\n']);
        }
        if tc@ == seq!['\n'] {
            assert(tc@[0] == '\n');
        }
        if tc@ == seq!['\r', '\n'] {
            assert(tc@[0] == '\r' && tc@[1] == '\n');
        }
    }
    if !newline {
        return None;
    }
    let cs = chars_of(text);
    let total = crate::text::str_len(text);
    proof {
        crate::lsp::convert::lemma_utf16_le_bytes(cs@);
    }
    let offset = position_to_offset(text, position);
    proof {
        lemma_offset_of_position(cs@, position);
        crate::lsp::convert::lemma_boundary_index_bound(cs@, offset as int);
    }
    let k0 = char_index(&cs, offset);
    let k = line_start_of(&cs, k0);
    proof {
        crate::lsp::convert::lemma_line_begin_facts(cs@, k0 as int);
    }
    if k == 0 {
        return None;
    }
    let line_start = bytes_before(&cs, k);
    proof {
        lemma_offset_of_index(cs@, k as int);
    }
    if verbatim_at(text, line_start) {
        return None;
    }
    let ps = line_start_of(&cs, k - 1);
    proof {
        crate::lsp::convert::lemma_line_begin_facts(cs@, k - 1);
    }
    let previous = without_cr(&cs, ps, k - 1);
    let want = if previous.len() == 0 {
        let ac = chars_of(above_code);
        emptied_indent(&cs, k, &ac)
    } else {
        let pc = chars_of(previous_code);
        wanted_indent(&previous, &pc)
    };
    let written = indent_from(&cs, k);
    proof {
        assert(cs@.subrange(k as int, cs@.len() as int) =~= cs@.skip(k as int));
        lemma_indent_bound(cs@.skip(k as int));
    }
    let existing = slice_chars(&cs, k, k + written);
    let mut same = existing.len() == want;
    let mut i: usize = 0;
    while same && i < existing.len()
        invariant
            i <= existing.len(),
            same ==> existing.len() == want,
            same ==> forall|m: int| 0 <= m < i ==> existing@[m] == ' ',
            !same ==> existing@ != spaces(want as nat),
        decreases existing.len() - i,
    {
        if existing[i] != ' ' {
            same = false;
            proof {
                assert(spaces(want as nat)[i as int] == ' ');
            }
        }
        i = i + 1;
    }
    proof {
        if same {
            assert(existing@ =~= spaces(want as nat));
        }
    }
    if same {
        return None;
    }
    let mut indent = String::new();
    let mut n: usize = 0;
    while n < want
        invariant
            n <= want,
            indent@ == spaces(n as nat),
        decreases want - n,
    {
        crate::text::push_char(&mut indent, ' ');
        proof {
            assert(spaces(n as nat).push(' ') =~= spaces((n + 1) as nat));
        }
        n = n + 1;
    }
    let end_byte = bytes_before(&cs, k + written);
    proof {
        lemma_offset_of_index(cs@, (k + written) as int);
    }
    let start = offset_to_position(text, line_start);
    let end = offset_to_position(text, end_byte);
    let mut edits: Vec<TextEdit> = Vec::new();
    edits.push(TextEdit { range: Range { start, end }, new_text: indent });
    Some(edits)
}

} // verus!
