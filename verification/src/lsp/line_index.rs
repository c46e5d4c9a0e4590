//! An index of where each line of a text starts, for converting between byte
//! offsets and editor positions without rescanning the text from its start.
use vstd::prelude::*;

use crate::lsp::convert::{
    boundary_index, column_from, lemma_boundary_index, lemma_byte_len_prefix_mono,
    lemma_line_start_from, lemma_line_start_reaches, lemma_newlines_mono, lemma_take_step,
    lemma_utf16_le_bytes, lemma_utf16_len_back, line_begin, newlines, on_boundary, position_of,
    line_start_from, Position, Range,
};
use crate::text::{byte_len, chars_of, len_utf16, len_utf8, str_len, utf16_len, utf16_width};

verus! {

/// A stretch of a file's text in byte offsets, `start` to `end`.
#[derive(Clone, Copy, Debug, PartialEq, Eq)]
pub struct TextRange {
    pub start: u32,
    pub end: u32,
}

/// The byte offset `LineIndex::offset` gives for a position: the column is
/// walked from the start of its line, through the line break if need be, but
/// never past the start of the next line; a line past the last is the end of
/// the text.
pub open spec fn index_offset(cs: Seq<char>, p: Position) -> int {
    match line_start_from(cs, 0, p.line as nat) {
        None => byte_len(cs) as int,
        Some(s) => {
            let e = match line_start_from(cs, 0, p.line as nat + 1) {
                Some(e) => e,
                None => cs.len() as int,
            };
            let j = column_from(cs, s, p.character as int, false);
            byte_len(cs.take(if j < e { j } else { e })) as int
        },
    }
}

/// Line starts for one file's text.
pub struct LineIndex {
    text: String,
    chars: Vec<char>,
    starts: Vec<u32>,
    char_starts: Vec<usize>,
}

impl View for LineIndex {
    type V = Seq<char>;

    closed spec fn view(&self) -> Seq<char> {
        self.text@
    }
}

// ---- lemmas ---------------------------------------------------------------------

/// A walk along a line never moves backwards.
pub proof fn lemma_column_from_ge(cs: Seq<char>, j: int, u: int, stop_at_break: bool)
    requires
        0 <= j,
    ensures
        column_from(cs, j, u, stop_at_break) >= j,
    decreases cs.len() - j,
{
    if !(j >= cs.len() || u <= 0 || (stop_at_break && cs[j] == '\n')) {
        lemma_column_from_ge(cs, j + 1, u - utf16_width(cs[j]), stop_at_break);
    }
}

/// Walking a line for exactly the UTF-16 length of a stretch without line
/// breaks ends at the end of that stretch, whether or not the walk would stop
/// at a break.
pub proof fn lemma_column_walk(cs: Seq<char>, j: int, k: int, stop_at_break: bool)
    requires
        0 <= j <= k <= cs.len(),
        forall|m: int| j <= m < k ==> cs[m] != '\n',
    ensures
        column_from(cs, j, utf16_len(cs.subrange(j, k)) as int, stop_at_break) == k,
    decreases k - j,
{
    if j < k {
        let sub = cs.subrange(j, k);
        assert(sub.drop_first() =~= cs.subrange(j + 1, k));
        crate::lsp::convert::lemma_utf16_len_front(sub);
        lemma_column_walk(cs, j + 1, k, stop_at_break);
    } else {
        assert(cs.subrange(j, k) =~= Seq::<char>::empty());
    }
}

/// A line that starts at `ls` and holds no break before `k` is the line of
/// `k`.
pub proof fn lemma_line_begin_at(cs: Seq<char>, ls: int, k: int)
    requires
        0 <= ls <= k <= cs.len(),
        ls == 0 || cs[ls - 1] == '\n',
        forall|m: int| ls <= m < k ==> cs[m] != '\n',
    ensures
        line_begin(cs, k) == ls,
    decreases k,
{
    if k > ls {
        lemma_line_begin_at(cs, ls, k - 1);
    }
}

impl LineIndex {
    #[verifier::type_invariant]
    spec fn well_formed(self) -> bool {
        let cs = self.text@;
        &&& self.chars@ == cs
        &&& byte_len(cs) < u32::MAX
        &&& self.starts.len() == self.char_starts.len()
        &&& self.starts.len() == newlines(cs) + 1
        &&& forall|m: int|
            0 <= m < self.starts.len() ==> line_start_from(cs, 0, m as nat) == Some(
                self.char_starts@[m] as int,
            )
        &&& forall|m: int|
            0 <= m < self.starts.len() ==> self.starts@[m] == byte_len(
                cs.take(self.char_starts@[m] as int),
            )
    }

    /// Indexes a text. Offsets are 32-bit, so the text must be shorter than
    /// `u32::MAX` bytes.
    pub fn new(text: &str) -> (index: LineIndex)
        requires
            byte_len(text@) < u32::MAX,
        ensures
            index@ == text@,
    {
        let cs = chars_of(text);
        let ghost s = text@;
        let mut starts: Vec<u32> = Vec::new();
        let mut char_starts: Vec<usize> = Vec::new();
        starts.push(0);
        char_starts.push(0);
        let mut i: usize = 0;
        let mut bytes: usize = 0;
        proof {
            assert(s.take(0) =~= Seq::<char>::empty());
            assert(s.take(cs.len() as int) =~= s);
        }
        while i < cs.len()
            invariant
                s == cs@,
                i <= cs.len(),
                bytes == byte_len(s.take(i as int)),
                byte_len(s) < u32::MAX,
                s.take(cs.len() as int) == s,
                starts.len() == char_starts.len(),
                starts.len() == newlines(s.take(i as int)) + 1,
                forall|m: int|
                    0 <= m < starts.len() ==> line_start_from(s, 0, m as nat) == Some(
                        char_starts@[m] as int,
                    ),
                forall|m: int|
                    0 <= m < starts.len() ==> starts@[m] == byte_len(s.take(char_starts@[m] as int)),
            decreases cs.len() - i,
        {
            let c = cs[i];
            proof {
                lemma_take_step(s, i as int);
                lemma_byte_len_prefix_mono(s, i + 1, cs.len() as int);
            }
            bytes = bytes + len_utf8(c);
            if c == '\n' {
                proof {
                    assert(s.take(0) =~= Seq::<char>::empty());
                    lemma_line_start_reaches(s, 0, i + 1);
                }
                starts.push(bytes as u32);
                char_starts.push(i + 1);
            }
            i = i + 1;
        }
        LineIndex { text: text.to_owned(), chars: cs, starts, char_starts }
    }

    /// The position of a byte offset, clamped to the end of the text: the
    /// same position `offset_to_position` gives. The offset must fall between
    /// two characters.
    pub fn position(&self, offset: u32) -> (p: Position)
        requires
            on_boundary(self@, offset as int),
        ensures
            p == position_of(self@, boundary_index(self@, offset as int) as int),
    {
        proof {
            use_type_invariant(self);
        }
        let ghost s = self.text@;
        let total = str_len(self.text.as_str());
        let o: usize = if offset as usize > total {
            total
        } else {
            offset as usize
        };
        let n = self.starts.len();
        let mut lo: usize = 0;
        let mut hi: usize = n;
        proof {
            assert(s.take(0) =~= Seq::<char>::empty());
            assert(s.take(s.len() as int) =~= s);
            lemma_line_start_from(s, 0, 0);
        }
        while hi - lo > 1
            invariant
                n == self.starts.len(),
                lo < hi <= n,
                self.starts@[lo as int] <= o,
                hi == n || self.starts@[hi as int] > o,
            decreases hi - lo,
        {
            let mid = lo + (hi - lo) / 2;
            if self.starts[mid] as usize <= o {
                lo = mid;
            } else {
                hi = mid;
            }
        }
        let ls = self.char_starts[lo];
        proof {
            lemma_line_start_from(s, 0, lo as nat);
        }
        let mut j: usize = ls;
        let mut bytes: usize = self.starts[lo] as usize;
        let mut column: usize = 0;
        proof {
            assert(s.subrange(ls as int, ls as int) =~= Seq::<char>::empty());
        }
        while j < self.chars.len()
            invariant
                s == self.chars@,
                s == self.text@,
                ls <= j <= s.len(),
                bytes == byte_len(s.take(j as int)),
                bytes <= o,
                column == utf16_len(s.subrange(ls as int, j as int)),
            ensures
                j == s.len() || bytes + crate::text::utf8_width(s[j as int]) > o,
            decreases s.len() - j,
        {
            let c = self.chars[j];
            let w = len_utf8(c);
            if w > o - bytes {
                break;
            }
            proof {
                lemma_take_step(s, j as int);
                lemma_utf16_le_bytes(s.subrange(ls as int, j as int));
                assert(s.take(j as int) =~= s.take(ls as int) + s.subrange(ls as int, j as int));
                crate::text::lemma_byte_len_concat(s.take(ls as int), s.subrange(ls as int, j as int));
                lemma_utf16_len_back(s, ls as int, j + 1);
            }
            bytes = bytes + w;
            column = column + len_utf16(c);
            j = j + 1;
        }
        proof {
            let k = j as int;
            if j < s.len() {
                lemma_take_step(s, k);
                lemma_byte_len_prefix_mono(s, k + 1, s.len() as int);
            }
            lemma_boundary_index(s, offset as int, k);
            lemma_byte_len_prefix_mono(s, ls as int, k);
            if lo + 1 < n {
                let ls2 = self.char_starts@[lo + 1] as int;
                lemma_line_start_from(s, 0, (lo + 1) as nat);
                if k >= ls2 {
                    lemma_byte_len_prefix_mono(s, ls2, k);
                }
                lemma_take_step(s, ls2 - 1);
                lemma_newlines_mono(s, k, ls2 - 1);
            } else {
                lemma_newlines_mono(s, k, s.len() as int);
            }
            lemma_newlines_mono(s, ls as int, k);
            lemma_line_begin_at(s, ls as int, k);
        }
        Position { line: #[verifier::truncate] (lo as u32), character: #[verifier::truncate] (column as u32) }
    }

    /// The positions of both ends of a range.
    pub fn range(&self, range: TextRange) -> (r: Range)
        requires
            on_boundary(self@, range.start as int),
            on_boundary(self@, range.end as int),
        ensures
            r.start == position_of(self@, boundary_index(self@, range.start as int) as int),
            r.end == position_of(self@, boundary_index(self@, range.end as int) as int),
    {
        Range { start: self.position(range.start), end: self.position(range.end) }
    }

    /// The byte offset of a position. A line past the last is the end of the
    /// text; a column past the end of its line is the start of the next.
    pub fn offset(&self, position: Position) -> (o: u32)
        ensures
            o == index_offset(self@, position),
    {
        proof {
            use_type_invariant(self);
        }
        let ghost s = self.text@;
        let total = str_len(self.text.as_str());
        let n = self.starts.len();
        let line = position.line as usize;
        proof {
            assert(s.take(0) =~= Seq::<char>::empty());
            assert(s.take(s.len() as int) =~= s);
        }
        if line >= n {
            proof {
                lemma_line_start_from(s, 0, line as nat);
                if let Some(x) = line_start_from(s, 0, line as nat) {
                    lemma_newlines_mono(s, x, s.len() as int);
                }
            }
            return total as u32;
        }
        let ls = self.char_starts[line];
        let le = if line + 1 < n {
            self.char_starts[line + 1]
        } else {
            self.chars.len()
        };
        proof {
            lemma_line_start_from(s, 0, line as nat);
            lemma_line_start_from(s, 0, (line + 1) as nat);
            if line + 1 >= n {
                if let Some(x) = line_start_from(s, 0, (line + 1) as nat) {
                    lemma_newlines_mono(s, x, s.len() as int);
                }
            } else if le <= ls {
                lemma_newlines_mono(s, le as int, ls as int);
            }
        }
        let ghost e = le as int;
        let ghost ch = position.character as int;
        let mut j: usize = ls;
        let mut bytes: usize = self.starts[line] as usize;
        let mut units: u64 = 0;
        while j < le
            invariant
                s == self.chars@,
                s == self.text@,
                e == le,
                ch == position.character,
                ls <= j <= le <= s.len(),
                line_start_from(s, 0, position.line as nat) == Some(ls as int),
                e == match line_start_from(s, 0, position.line as nat + 1) {
                    Some(x) => x,
                    None => s.len() as int,
                },
                bytes == byte_len(s.take(j as int)),
                byte_len(s) < u32::MAX,
                s.take(s.len() as int) == s,
                units <= u32::MAX + 2,
                column_from(s, j as int, ch - units, false) == column_from(s, ls as int, ch, false),
            decreases le - j,
        {
            if units >= position.character as u64 {
                proof {
                    assert(column_from(s, j as int, ch - units, false) == j);
                    lemma_byte_len_prefix_mono(s, j as int, s.len() as int);
                }
                return bytes as u32;
            }
            let c = self.chars[j];
            proof {
                lemma_take_step(s, j as int);
                lemma_byte_len_prefix_mono(s, j + 1, s.len() as int);
            }
            bytes = bytes + len_utf8(c);
            units = units + len_utf16(c) as u64;
            j = j + 1;
        }
        proof {
            if units < ch {
                lemma_column_from_ge(s, j as int, ch - units, false);
            } else {
                assert(column_from(s, j as int, ch - units, false) == j);
            }
            lemma_byte_len_prefix_mono(s, j as int, s.len() as int);
        }
        bytes as u32
    }

    /// The whole text as a range: from its start to the position past its
    /// last character.
    pub fn full_range(&self) -> (r: Range)
        ensures
            r.start == (Position { line: 0, character: 0 }),
            r.end == position_of(self@, self@.len() as int),
    {
        proof {
            use_type_invariant(self);
        }
        let total = str_len(self.text.as_str());
        proof {
            assert(self@.take(self@.len() as int) =~= self@);
            lemma_boundary_index(self@, total as int, self@.len() as int);
        }
        Range { start: Position { line: 0, character: 0 }, end: self.position(total as u32) }
    }
}

/// Asking an index for the offset of the position it gave for an offset gives
/// that offset back, for every offset between two characters.
pub proof fn lemma_index_round_trip(cs: Seq<char>, o: int)
    requires
        0 <= o <= byte_len(cs),
        on_boundary(cs, o),
        byte_len(cs) < u32::MAX,
    ensures
        index_offset(cs, position_of(cs, boundary_index(cs, o) as int)) == o,
{
    let k = boundary_index(cs, o) as int;
    assert(0 <= k <= cs.len() && byte_len(cs.take(k)) == o) by {
        crate::lsp::convert::lemma_boundary_index_bound(cs, o);
        if o == byte_len(cs) {
            lemma_boundary_index(cs, o, cs.len() as int);
            assert(cs.take(cs.len() as int) =~= cs);
        }
    }
    let ls = line_begin(cs, k);
    let n = newlines(cs.take(k));
    assert(0 <= ls <= k && newlines(cs.take(ls)) == n && forall|m: int| ls <= m < k ==> cs[m] != '\n')
        by {
        crate::lsp::convert::lemma_line_begin_facts(cs, k);
        lemma_newlines_mono(cs, ls, k);
    }
    assert(line_start_from(cs, 0, n) == Some(ls)) by {
        crate::lsp::convert::lemma_line_begin_facts(cs, k);
        assert(cs.take(0) =~= Seq::<char>::empty());
        lemma_line_start_reaches(cs, 0, ls);
    }
    let u = utf16_len(cs.subrange(ls, k));
    assert(u < u32::MAX && n < u32::MAX) by {
        lemma_utf16_le_bytes(cs.take(k));
        lemma_utf16_le_bytes(cs.subrange(ls, k));
        assert(cs.take(k) =~= cs.take(ls) + cs.subrange(ls, k));
        crate::text::lemma_byte_len_concat(cs.take(ls), cs.subrange(ls, k));
        assert(cs.take(cs.len() as int) =~= cs);
        lemma_byte_len_prefix_mono(cs, k, cs.len() as int);
    }
    let p = position_of(cs, k);
    assert(p.line as nat == n && p.character as int == u);
    assert(column_from(cs, ls, u as int, false) == k) by {
        lemma_column_walk(cs, ls, k, false);
    }
    let e = match line_start_from(cs, 0, n + 1) {
        Some(x) => x,
        None => cs.len() as int,
    };
    assert(k <= e) by {
        assert(cs.take(0) =~= Seq::<char>::empty());
        lemma_line_start_from(cs, 0, n + 1);
        if let Some(x) = line_start_from(cs, 0, n + 1) {
            if x < k {
                lemma_newlines_mono(cs, x, k);
            }
        }
    }
}

} // verus!
