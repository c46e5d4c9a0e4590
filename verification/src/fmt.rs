//! The formatter's printing: the canonical style is four spaces per level,
//! at most one blank line between entries, and prose filled to the line.
//! Lines inside a paragraph join with a space when compiled, so where they
//! break carries no meaning.
use vstd::prelude::*;

use crate::lsp::convert::{boundary_index, char_index, line_begin, on_boundary};
use crate::order::{lemma_lex_transitive, lemma_lex_trichotomy, lex_less, lex_lt};
use crate::text::{
    byte_len, chars_eq, chars_of, flat_map, is_whitespace, lines_of, lowercase_str, lowercased, push_char, push_chars, push_str, skip_spaces,
    slice_chars, spaces, string_of, trim, end_of_text, lemma_byte_len_concat, str_len,
};

verus! {

/// One indentation level.
pub const INDENT: &'static str = "    ";

/// Imports wrap, and prose fills, up to this column.
pub const MAX_WIDTH: usize = 80;

/// Imports wrap once they list more than this many names.
pub const MAX_INLINE_IMPORTS: usize = 2;

/// A line as the printer writes it: indented by four spaces a level, unless
/// there is nothing on it.
pub open spec fn indented(depth: nat, text: Seq<char>) -> Seq<char> {
    if text.len() == 0 {
        text
    } else {
        spaces(4 * depth) + text
    }
}

/// What separates a line from the text before it: one empty line when a blank
/// was asked for and something has been written already, else nothing.
pub open spec fn separator(pending: bool, before: Seq<char>) -> Seq<char> {
    if pending && before.len() > 0 {
        seq!['\n']
    } else {
        Seq::empty()
    }
}

/// Text that never begins with an empty line, never holds two empty lines in
/// a row, and does not end in an empty line.
pub open spec fn tidy(s: Seq<char>) -> bool {
    &&& (s.len() == 0 || s[0] != '\n')
    &&& forall|i: int| 0 <= i && i + 2 < s.len() ==> !(#[trigger] s[i] == '\n' && s[i + 1] == '\n' && s[i + 2] == '\n')
    &&& (s.len() < 2 || !(s[s.len() - 2] == '\n' && s[s.len() - 1] == '\n'))
}

/// Writes the formatted text line by line, collapsing repeated blank lines
/// and dropping blank lines at the start.
pub struct Printer {
    buffer: String,
    blank_pending: bool,
    wrote_anything: bool,
}

impl Printer {
    /// Every line written is whole, and something has been written exactly
    /// when the text is not empty.
    pub closed spec fn well_formed(self) -> bool {
        &&& self.wrote_anything == (self.buffer@.len() > 0)
        &&& (self.buffer@.len() == 0 || self.buffer@.last() == '\n')
    }

    /// What has been written so far.
    pub closed spec fn text(self) -> Seq<char> {
        self.buffer@
    }

    /// Whether a blank line was asked for since the last line.
    pub closed spec fn pending(self) -> bool {
        self.blank_pending
    }

    /// What has been written is empty or ends with a line break.
    pub proof fn lemma_whole_lines(&self)
        requires
            self.well_formed(),
        ensures
            self.text().len() == 0 || self.text().last() == '\n',
    {
    }

    /// A printer that has written nothing.
    pub fn new() -> (p: Printer)
        ensures
            p.well_formed(),
            p.text() == Seq::<char>::empty(),
            !p.pending(),
    {
        Printer { buffer: String::new(), blank_pending: false, wrote_anything: false }
    }

    /// Writes a line of text at an indentation depth, after one empty line if a
    /// blank was asked for and something came before.
    pub fn line(&mut self, depth: usize, text: &str)
        requires
            old(self).well_formed(),
        ensures
            final(self).well_formed(),
            final(self).text() == old(self).text() + separator(old(self).pending(), old(self).text())
                + indented(depth as nat, text@) + seq!['\n'],
            !final(self).pending(),
            tidy(old(self).text()) && text@.len() > 0 && !text@.contains('\n') ==> tidy(final(self).text()),
    {
        let ghost before = self.buffer@;
        let ghost pending = self.blank_pending;
        if self.blank_pending && self.wrote_anything {
            push_char(&mut self.buffer, '\n');
        }
        let ghost head = self.buffer@;
        if text.is_empty() {
            proof {
                assert(indented(depth as nat, text@) =~= Seq::<char>::empty());
            }
        } else {
            let mut level: usize = 0;
            while level < depth
                invariant
                    level <= depth,
                    self.buffer@ == head + spaces(4 * level as nat),
                decreases depth - level,
            {
                push_str(&mut self.buffer, INDENT);
                proof {
                    reveal_strlit("    ");
                    assert(spaces(4 * level as nat) + "    "@ =~= spaces(4 * (level + 1) as nat));
                }
                level = level + 1;
            }
            push_str(&mut self.buffer, text);
        }
        push_char(&mut self.buffer, '\n');
        self.blank_pending = false;
        self.wrote_anything = true;
        proof {
            assert(self.buffer@ =~= before + separator(pending, before) + indented(depth as nat, text@) + seq!['\n']);
            if tidy(before) && text@.len() > 0 && !text@.contains('\n') {
                let body = indented(depth as nat, text@);
                assert forall|i: int| 0 <= i < body.len() implies body[i] != '\n' by {
                    if i >= 4 * depth {
                        assert(body[i] == text@[i - 4 * depth]);
                    }
                }
                lemma_line_keeps_tidy(before, separator(pending, before), body);
            }
        }
    }

    /// Writes a line exactly as it was written, indentation and all.
    pub fn verbatim_line(&mut self, text: &str)
        requires
            old(self).well_formed(),
        ensures
            final(self).well_formed(),
            final(self).text() == old(self).text() + separator(old(self).pending(), old(self).text())
                + text@ + seq!['\n'],
            !final(self).pending(),
            tidy(old(self).text()) && text@.len() > 0 && !text@.contains('\n') ==> tidy(final(self).text()),
    {
        let ghost before = self.buffer@;
        let ghost pending = self.blank_pending;
        if self.blank_pending && self.wrote_anything {
            push_char(&mut self.buffer, '\n');
        }
        push_str(&mut self.buffer, text);
        push_char(&mut self.buffer, '\n');
        self.blank_pending = false;
        self.wrote_anything = true;
        proof {
            assert(self.buffer@ =~= before + separator(pending, before) + text@ + seq!['\n']);
            if tidy(before) && text@.len() > 0 && !text@.contains('\n') {
                assert forall|i: int| 0 <= i < text@.len() implies text@[i] != '\n' by {
                    if text@[i] == '\n' {
                        assert(text@.contains('\n'));
                    }
                }
                lemma_line_keeps_tidy(before, separator(pending, before), text@);
            }
        }
    }

    /// Asks for an empty line before the next line; asking again changes
    /// nothing.
    pub fn blank(&mut self)
        requires
            old(self).well_formed(),
        ensures
            final(self).well_formed(),
            final(self).text() == old(self).text(),
            final(self).pending(),
    {
        self.blank_pending = true;
    }

    /// The text written: every line of it whole.
    pub fn finish(self) -> (out: String)
        requires
            self.well_formed(),
        ensures
            out@ == self.text(),
            out@.len() == 0 || out@.last() == '\n',
    {
        self.buffer
    }
}

impl Default for Printer {
    fn default() -> (p: Printer)
        ensures
            p.well_formed(),
            p.text() == Seq::<char>::empty(),
            !p.pending(),
    {
        Printer::new()
    }
}

/// Appending a line of text, with no line break in it, after at most one
/// empty line, to tidy text keeps it tidy.
pub proof fn lemma_line_keeps_tidy(before: Seq<char>, sep: Seq<char>, body: Seq<char>)
    requires
        tidy(before),
        sep.len() == 0 || (sep == seq!['\n'] && before.len() > 0),
        body.len() > 0,
        forall|i: int| 0 <= i < body.len() ==> body[i] != '\n',
    ensures
        tidy(before + sep + body + seq!['\n']),
{
    let s = before + sep + body + seq!['\n'];
    let n = before.len() + sep.len();
    assert forall|i: int| 0 <= i && i + 2 < s.len() implies !(#[trigger] s[i] == '\n' && s[i + 1] == '\n'
        && s[i + 2] == '\n') by {
        if i + 2 < before.len() {
            assert(s[i] == before[i] && s[i + 1] == before[i + 1] && s[i + 2] == before[i + 2]);
        } else if i + 2 < n {
            assert(s[i] == before[i] && s[i + 1] == before[i + 1]);
        } else {
            let p = if i >= n { i } else { n as int };
            assert(s[p] == body[p - n]);
        }
    }
    if before.len() == 0 {
        assert(s[0] == body[0]);
    } else {
        assert(s[0] == before[0]);
    }
    assert(s[s.len() - 2] == body[body.len() - 1]);
}


// ---- filling prose -------------------------------------------------------------------

/// Words joined with a single space between each two.
pub open spec fn join_words(ws: Seq<Seq<char>>) -> Seq<char>
    decreases ws.len(),
{
    if ws.len() == 0 {
        Seq::empty()
    } else if ws.len() == 1 {
        ws[0]
    } else {
        join_words(ws.drop_last()) + seq![' '] + ws.last()
    }
}

/// The text of each of a run of strings.
pub open spec fn texts(ws: Seq<String>) -> Seq<Seq<char>> {
    ws.map_values(|w: String| w@)
}

/// The text of each filled line.
pub open spec fn line_texts(lines: Seq<(usize, String)>) -> Seq<Seq<char>> {
    lines.map_values(|l: (usize, String)| l.1@)
}

/// Greedy filling: each line takes words until the next would pass `width`
/// characters. Each line is paired with the index of the word it starts with.
pub open spec fn fill_of(ws: Seq<Seq<char>>, width: int) -> Seq<(int, Seq<char>)>
    decreases ws.len(),
{
    if ws.len() == 0 {
        Seq::empty()
    } else {
        let lines = fill_of(ws.drop_last(), width);
        let w = ws.last();
        if lines.len() > 0 && lines.last().1.len() + 1 + w.len() <= width {
            lines.update(lines.len() - 1, (lines.last().0, lines.last().1 + seq![' '] + w))
        } else {
            lines.push(((ws.len() - 1) as int, w))
        }
    }
}

pub open spec fn fill_view(lines: Seq<(usize, String)>) -> Seq<(int, Seq<char>)> {
    lines.map_values(|l: (usize, String)| (l.0 as int, l.1@))
}

/// Joining two runs of words is joining each and putting a space between.
pub proof fn lemma_join_concat(x: Seq<Seq<char>>, y: Seq<Seq<char>>)
    requires
        x.len() > 0,
        y.len() > 0,
    ensures
        join_words(x + y) == join_words(x) + seq![' '] + join_words(y),
    decreases y.len(),
{
    if y.len() == 1 {
        assert((x + y).drop_last() =~= x);
    } else {
        lemma_join_concat(x, y.drop_last());
        assert((x + y).drop_last() =~= x + y.drop_last());
        assert(join_words(x + y) == join_words(x + y.drop_last()) + seq![' '] + y.last());
    }
}

/// Filling, for what each line holds: there are lines exactly when there are
/// words, the first starts with the first word and each later one with a
/// later word, every line fits the width unless it is one word too wide to
/// share a line, and the lines joined by spaces say exactly what the words
/// joined by spaces say.
pub proof fn lemma_fill(ws: Seq<Seq<char>>, width: int)
    ensures
        fill_of(ws, width).len() == 0 <==> ws.len() == 0,
        fill_of(ws, width).len() <= ws.len(),
        ws.len() > 0 ==> fill_of(ws, width)[0].0 == 0,
        forall|a: int, b: int|
            0 <= a < b < fill_of(ws, width).len() ==> #[trigger] fill_of(ws, width)[a].0 < #[trigger] fill_of(ws, width)[b].0,
        forall|k: int| 0 <= k < fill_of(ws, width).len() ==> 0 <= #[trigger] fill_of(ws, width)[k].0 < ws.len(),
        forall|k: int|
            0 <= k < fill_of(ws, width).len() ==> (#[trigger] fill_of(ws, width)[k]).1.len() <= width
                || fill_of(ws, width)[k].1 == ws[fill_of(ws, width)[k].0],
        join_words(fill_of(ws, width).map_values(|l: (int, Seq<char>)| l.1)) == join_words(ws),
    decreases ws.len(),
{
    if ws.len() > 0 {
        let rest = ws.drop_last();
        lemma_fill(rest, width);
        let lines = fill_of(rest, width);
        let w = ws.last();
        let out = fill_of(ws, width);
        let texts_before = lines.map_values(|l: (int, Seq<char>)| l.1);
        let texts_after = out.map_values(|l: (int, Seq<char>)| l.1);
        if lines.len() > 0 && lines.last().1.len() + 1 + w.len() <= width {
            assert(texts_after =~= texts_before.drop_last().push(lines.last().1 + seq![' '] + w));
            assert(ws =~= rest.push(w));
            if texts_before.len() == 1 {
                assert(texts_after.drop_last() =~= Seq::<Seq<char>>::empty());
                assert(rest.len() >= 1);
                if rest.len() > 1 {
                    lemma_join_concat(rest.drop_last(), seq![rest.last()]);
                    assert(rest.drop_last() + seq![rest.last()] =~= rest);
                }
                assert(join_words(texts_before) == texts_before[0]);
            } else {
                assert(texts_after.drop_last() =~= texts_before.drop_last());
                assert(join_words(texts_before) == join_words(texts_before.drop_last()) + seq![' '] + texts_before.last());
            }
            if rest.len() == 1 {
                assert(join_words(ws) == join_words(rest) + seq![' '] + w);
            }
            assert(join_words(texts_after) =~= join_words(texts_before) + seq![' '] + w);
            assert forall|k: int| 0 <= k < out.len() implies (#[trigger] out[k]).1.len() <= width || out[k].1
                == ws[out[k].0] by {
                if k < out.len() - 1 {
                    assert(out[k] == lines[k]);
                    assert(ws[lines[k].0] == rest[lines[k].0]);
                }
            }
        } else {
            assert(texts_after =~= texts_before.push(w));
            if lines.len() > 0 {
                assert(texts_after.drop_last() =~= texts_before);
            } else {
                assert(rest.len() == 0);
                assert(texts_after =~= seq![w]);
            }
            assert forall|k: int| 0 <= k < out.len() implies (#[trigger] out[k]).1.len() <= width || out[k].1
                == ws[out[k].0] by {
                if k < out.len() - 1 {
                    assert(out[k] == lines[k]);
                    assert(ws[lines[k].0] == rest[lines[k].0]);
                }
            }
        }
    }
}

/// The number of characters in a string.
fn char_count(text: &str) -> (n: usize)
    ensures
        n == text@.len(),
{
    let cs = chars_of(text);
    cs.len()
}

/// Fills `words` into lines no wider than `width`, each paired with the index
/// of the word it starts with. A word wider than the line gets a line of its
/// own.
pub fn fill(words: &Vec<String>, width: usize) -> (lines: Vec<(usize, String)>)
    ensures
        fill_view(lines@) == fill_of(texts(words@), width as int),
        join_words(line_texts(lines@)) == join_words(texts(words@)),
        forall|k: int|
            0 <= k < lines@.len() ==> (#[trigger] lines@[k]).1@.len() <= width || lines@[k].1@
                == words@[lines@[k].0 as int]@,
{
    let ghost ws = texts(words@);
    let mut lines: Vec<(usize, String)> = Vec::new();
    let mut last_len: usize = 0;
    let mut index: usize = 0;
    while index < words.len()
        invariant
            index <= words.len(),
            ws == texts(words@),
            fill_view(lines@) == fill_of(ws.take(index as int), width as int),
            lines@.len() > 0 ==> last_len == lines@.last().1@.len(),
        decreases words.len() - index,
    {
        let word = &words[index];
        let n = char_count(word.as_str());
        let ghost before = fill_of(ws.take(index as int), width as int);
        proof {
            assert(ws.take(index + 1).drop_last() =~= ws.take(index as int));
            assert(ws.take(index + 1).last() == word@);
        }
        if lines.len() > 0 && last_len < width && n <= width - last_len - 1 {
            let ghost old_lines = lines@;
            let (start, text) = lines.pop().unwrap();
            proof {
                assert(start == old_lines.last().0 && text@ == old_lines.last().1@);
                assert(fill_view(lines@) =~= fill_view(old_lines).drop_last());
            }
            let mut text = text;
            push_char(&mut text, ' ');
            push_str(&mut text, word.as_str());
            proof {
                assert(text@ =~= old_lines.last().1@ + seq![' '] + word@);
            }
            lines.push((start, text));
            last_len = last_len + 1 + n;
            proof {
                assert(fill_view(old_lines).last() == before.last());
                assert(fill_view(lines@) =~= before.update(before.len() - 1, (before.last().0, before.last().1 + seq![' '] + word@)));
            }
        } else {
            lines.push((index, word.clone()));
            last_len = n;
            proof {
                assert(fill_view(lines@) =~= before.push((index as int, word@)));
            }
        }
        index = index + 1;
    }
    proof {
        assert(ws.take(index as int) =~= ws);
        lemma_fill(ws, width as int);
        let fv = fill_of(ws, width as int);
        assert(line_texts(lines@) =~= fv.map_values(|l: (int, Seq<char>)| l.1));
        assert forall|k: int| 0 <= k < lines@.len() implies (#[trigger] lines@[k]).1@.len() <= width
            || lines@[k].1@ == words@[lines@[k].0 as int]@ by {
            assert(fv[k] == (lines@[k].0 as int, lines@[k].1@));
        }
    }
    lines
}

/// Holds the word at `start` together with the word before it, so that no
/// line can break between them: the two become one word with a space inside.
pub fn hold_together(words: &mut Vec<String>, start: usize)
    requires
        1 <= start < old(words).len(),
    ensures
        texts(final(words)@) == texts(old(words)@).take(start - 1).push(
            old(words)@[start - 1]@ + seq![' '] + old(words)@[start as int]@,
        ) + texts(old(words)@).skip(start + 1),
        join_words(texts(final(words)@)) == join_words(texts(old(words)@)),
{
    let ghost ws = texts(words@);
    let ghost original = words@;
    let held = words.remove(start);
    let ghost removed = words@;
    let mut joined = words[start - 1].clone();
    push_char(&mut joined, ' ');
    push_str(&mut joined, held.as_str());
    words.set(start - 1, joined);
    proof {
        assert(removed =~= original.remove(start as int));
        assert(words@ =~= removed.update(start - 1, joined));
        assert(joined@ == original[start - 1]@ + seq![' '] + original[start as int]@);
        let merged = ws[start - 1] + seq![' '] + ws[start as int];
        assert(texts(words@) =~= ws.take(start - 1).push(merged) + ws.skip(start + 1));
        lemma_join_merge(ws, start as int);
    }
}

/// Merging a word into the one before it, with a space, keeps what the words
/// say when joined by spaces.
pub proof fn lemma_join_merge(ws: Seq<Seq<char>>, start: int)
    requires
        1 <= start < ws.len(),
    ensures
        join_words(ws.take(start - 1).push(ws[start - 1] + seq![' '] + ws[start]) + ws.skip(start + 1))
            == join_words(ws),
{
    let a = ws.take(start - 1);
    let merged = ws[start - 1] + seq![' '] + ws[start];
    let b = ws.skip(start + 1);
    let pair = seq![ws[start - 1], ws[start]];
    assert(join_words(pair) == ws[start - 1] + seq![' '] + ws[start]) by {
        assert(pair.drop_last() =~= seq![ws[start - 1]]);
        assert(join_words(seq![ws[start - 1]]) == ws[start - 1]);
    }
    assert(join_words(seq![merged]) == merged);
    let middle = if a.len() > 0 {
        lemma_join_concat(a, pair);
        lemma_join_concat(a, seq![merged]);
        assert(a.push(merged) =~= a + seq![merged]);
        a + pair
    } else {
        assert(a.push(merged) =~= seq![merged]);
        pair
    };
    assert(join_words(a.push(merged)) == join_words(middle));
    if b.len() > 0 {
        lemma_join_concat(a.push(merged), b);
        lemma_join_concat(middle, b);
        assert(middle + b =~= ws);
    } else {
        assert(a.push(merged) + b =~= a.push(merged));
        assert(middle =~= ws);
    }
}

/// What one round of rewrapping decides, once the filled lines have been read
/// back: they are the paragraph; or no filling reads the same, and the lines
/// stay as they were written; or the words either side of the first break
/// that was misread are held together, and the paragraph is filled again.
#[derive(Debug, PartialEq, Eq)]
pub enum Rewrap {
    Filled(Vec<String>),
    AsWritten,
    Again,
}

/// One round of rewrapping. `lines` are `words` filled to the width, and
/// `misread` is the first of them, if any, that does not read back as the
/// same line of prose.
pub fn rewrap_step(
    words: &mut Vec<String>,
    width: usize,
    lines: Vec<(usize, String)>,
    misread: Option<usize>,
) -> (r: Rewrap)
    requires
        fill_view(lines@) == fill_of(texts(old(words)@), width as int),
        match misread {
            Some(i) => i < lines@.len(),
            None => true,
        },
    ensures
        match misread {
            None => final(words)@ == old(words)@ && (r matches Rewrap::Filled(t) && texts(t@) == line_texts(lines@)),
            Some(0) => final(words)@ == old(words)@ && r == Rewrap::AsWritten,
            Some(i) => r == Rewrap::Again && texts(final(words)@) == texts(old(words)@).take(lines@[i as int].0 - 1).push(
                old(words)@[lines@[i as int].0 - 1]@ + seq![' '] + old(words)@[lines@[i as int].0 as int]@,
            ) + texts(old(words)@).skip(lines@[i as int].0 + 1)
                && join_words(texts(final(words)@)) == join_words(texts(old(words)@)),
        },
{
    proof {
        lemma_fill(texts(words@), width as int);
    }
    match misread {
        None => {
            let mut out: Vec<String> = Vec::new();
            let mut k: usize = 0;
            while k < lines.len()
                invariant
                    k <= lines@.len(),
                    texts(out@) == line_texts(lines@).take(k as int),
                decreases lines@.len() - k,
            {
                let ghost before = out@;
                let line = lines[k].1.clone();
                out.push(line);
                proof {
                    assert(out@ =~= before.push(line));
                    assert(line@ == lines@[k as int].1@);
                    assert(texts(out@) =~= texts(before).push(line@));
                    assert(line_texts(lines@).take(k + 1) =~= line_texts(lines@).take(k as int).push(lines@[k as int].1@));
                }
                k = k + 1;
            }
            proof {
                assert(line_texts(lines@).take(k as int) =~= line_texts(lines@));
            }
            Rewrap::Filled(out)
        },
        Some(0) => Rewrap::AsWritten,
        Some(i) => {
            let start = lines[i].0;
            proof {
                let fv = fill_of(texts(words@), width as int);
                assert(fv[i as int].0 == start as int);
                assert(fv[0].0 < fv[i as int].0);
            }
            hold_together(words, start);
            Rewrap::Again
        },
    }
}


// ---- words, comments, line endings -----------------------------------------------------

/// A character that may close a sentence's last word: a bracket, a quote, or
/// emphasis.
pub open spec fn closer(c: char) -> bool {
    c == ')' || c == ']' || c == '"' || c == '\'' || c == '*' || c == '_' || c == '`'
}

/// A word without the closing characters at its end.
pub open spec fn strip_closers(cs: Seq<char>) -> Seq<char>
    decreases cs.len(),
{
    if cs.len() > 0 && closer(cs.last()) {
        strip_closers(cs.drop_last())
    } else {
        cs
    }
}

/// Whether a word ends a sentence: once closing brackets, quotes and emphasis
/// are set aside, it ends with `.`, `!` or `?`.
pub open spec fn ends_sentence_of(cs: Seq<char>) -> bool {
    let t = strip_closers(cs);
    t.len() > 0 && (t.last() == '.' || t.last() == '!' || t.last() == '?')
}

fn ends_sentence_chars(cs: &[char]) -> (r: bool)
    ensures
        r == ends_sentence_of(cs@),
{
    let mut end = cs.len();
    proof {
        assert(cs@.take(end as int) =~= cs@);
    }
    while end > 0 && (cs[end - 1] == ')' || cs[end - 1] == ']' || cs[end - 1] == '"' || cs[end - 1] == '\''
        || cs[end - 1] == '*' || cs[end - 1] == '_' || cs[end - 1] == '`')
        invariant
            end <= cs.len(),
            strip_closers(cs@) == strip_closers(cs@.take(end as int)),
        decreases end,
    {
        proof {
            assert(cs@.take(end as int).drop_last() =~= cs@.take(end - 1));
        }
        end = end - 1;
    }
    proof {
        if end > 0 {
            assert(cs@.take(end as int).last() == cs@[end - 1]);
        }
    }
    end > 0 && (cs[end - 1] == '.' || cs[end - 1] == '!' || cs[end - 1] == '?')
}

/// Whether a word ends a sentence, closing brackets, quotes, and emphasis
/// aside.
pub fn ends_sentence(word: &str) -> (r: bool)
    ensures
        r == ends_sentence_of(word@),
{
    let cs = chars_of(word);
    ends_sentence_chars(&cs)
}

/// A comment's text without the slashes that open it.
pub open spec fn strip_slashes(cs: Seq<char>) -> Seq<char>
    decreases cs.len(),
{
    if cs.len() > 0 && cs[0] == '/' {
        strip_slashes(cs.drop_first())
    } else {
        cs
    }
}

/// A comment as the formatter writes it: `// ` and its text, or `//` alone
/// when it says nothing.
pub open spec fn comment_of(cs: Seq<char>) -> Seq<char> {
    let body = trim(strip_slashes(cs));
    if body.len() == 0 {
        seq!['/', '/']
    } else {
        seq!['/', '/', ' '] + body
    }
}

/// Normalises a comment: one space after the slashes, none around its text.
pub fn comment(token: &str) -> (out: String)
    ensures
        out@ == comment_of(token@),
{
    let cs = chars_of(token);
    let mut i: usize = 0;
    proof {
        assert(cs@.subrange(0, cs@.len() as int) =~= cs@);
    }
    while i < cs.len() && cs[i] == '/'
        invariant
            i <= cs.len(),
            strip_slashes(cs@) == strip_slashes(cs@.subrange(i as int, cs@.len() as int)),
        decreases cs.len() - i,
    {
        proof {
            assert(cs@.subrange(i as int, cs@.len() as int).drop_first() =~= cs@.subrange(i + 1, cs@.len() as int));
        }
        i = i + 1;
    }
    proof {
        assert(cs@.subrange(0, cs@.len() as int) =~= cs@);
    }
    let from = skip_spaces(&cs, i);
    let to = end_of_text(&cs, from);
    let body = slice_chars(&cs, from, to);
    let mut out = String::new();
    proof {
        reveal_strlit("//");
        reveal_strlit("// ");
    }
    if body.len() == 0 {
        push_str(&mut out, "//");
    } else {
        push_str(&mut out, "// ");
        push_chars(&mut out, &body);
    }
    out
}

/// What a line break becomes in a file written with carriage returns.
pub open spec fn crlf(c: char) -> Seq<char> {
    if c == '\n' {
        seq!['\r', '\n']
    } else {
        seq![c]
    }
}

/// A carriage return at `i`, followed by a line break.
pub open spec fn crlf_at(cs: Seq<char>, i: int) -> bool {
    0 <= i && i + 1 < cs.len() && cs[i] == '\r' && cs[i + 1] == '\n'
}

/// Whether a text holds a carriage return followed by a line break.
pub open spec fn has_crlf(cs: Seq<char>) -> bool {
    exists|i: int| crlf_at(cs, i)
}

fn holds_crlf(cs: &[char]) -> (r: bool)
    ensures
        r == has_crlf(cs@),
{
    let mut i: usize = 0;
    while i < cs.len() && cs.len() - i > 1
        invariant
            i <= cs.len(),
            forall|j: int| 0 <= j < i ==> !crlf_at(cs@, j),
        decreases cs.len() - i,
    {
        if cs[i] == '\r' && cs[i + 1] == '\n' {
            assert(crlf_at(cs@, i as int));
            return true;
        }
        i = i + 1;
    }
    assert forall|j: int| !crlf_at(cs@, j) by {
        if 0 <= j < i {
        }
    }
    false
}

/// The formatted text with the source's own line endings: a file written with
/// carriage returns keeps them, so that formatting it is no whole-file change.
pub fn with_line_endings(source: &str, formatted: String) -> (out: String)
    ensures
        out@ == if has_crlf(source@) {
            flat_map(formatted@, |c: char| crlf(c))
        } else {
            formatted@
        },
{
    let sc = chars_of(source);
    if !holds_crlf(&sc) {
        return formatted;
    }
    let fc = chars_of(formatted.as_str());
    let mut out = String::new();
    let mut i: usize = 0;
    proof {
        assert(fc@.take(0) =~= Seq::<char>::empty());
    }
    while i < fc.len()
        invariant
            i <= fc.len(),
            out@ == flat_map(fc@.take(i as int), |c: char| crlf(c)),
        decreases fc.len() - i,
    {
        proof {
            assert(fc@.take(i + 1).drop_last() =~= fc@.take(i as int));
        }
        if fc[i] == '\n' {
            push_char(&mut out, '\r');
            push_char(&mut out, '\n');
            proof {
                assert(out@ =~= flat_map(fc@.take(i as int), |c: char| crlf(c)) + seq!['\r', '\n']);
            }
        } else {
            push_char(&mut out, fc[i]);
            proof {
                assert(out@ =~= flat_map(fc@.take(i as int), |c: char| crlf(c)) + seq![fc@[i as int]]);
            }
        }
        i = i + 1;
    }
    proof {
        assert(fc@.take(i as int) =~= fc@);
    }
    out
}

/// The text of a stretch from the start of its first line: the indentation in
/// front of it is kept when only whitespace precedes it on its line.
pub open spec fn verbatim_of(cs: Seq<char>, start: int, end: int) -> Seq<char> {
    let ls = line_begin(cs, start);
    let from = if trim(cs.subrange(ls, start)).len() == 0 {
        ls
    } else {
        start
    };
    cs.subrange(from, end)
}

/// The text between two byte offsets, from the start of its first line when
/// nothing but whitespace comes before it there.
pub fn verbatim(text: &str, start: usize, end: usize) -> (out: String)
    requires
        start <= end <= byte_len(text@),
        on_boundary(text@, start as int),
        on_boundary(text@, end as int),
    ensures
        out@ == verbatim_of(
            text@,
            boundary_index(text@, start as int) as int,
            boundary_index(text@, end as int) as int,
        ),
{
    let cs = chars_of(text);
    let ks = char_index(&cs, start);
    let ke = char_index(&cs, end);
    proof {
        crate::lsp::convert::lemma_boundary_index_bound(cs@, start as int);
        crate::lsp::convert::lemma_boundary_index_bound(cs@, end as int);
        lemma_boundary_mono(cs@, start as int, end as int);
        crate::lsp::convert::lemma_line_begin_facts(cs@, ks as int);
    }
    let mut ls = ks;
    while ls > 0 && cs[ls - 1] != '\n'
        invariant
            ls <= ks <= cs.len(),
            line_begin(cs@, ls as int) == line_begin(cs@, ks as int),
        decreases ls,
    {
        ls = ls - 1;
    }
    let before = slice_chars(&cs, ls, ks);
    let i = skip_spaces(&before, 0);
    proof {
        assert(before@.subrange(0, before@.len() as int) =~= before@);
    }
    let j = end_of_text(&before, i);
    let from = if i == j {
        ls
    } else {
        ks
    };
    let part = slice_chars(&cs, from, ke);
    string_of(&part)
}

pub proof fn lemma_boundary_mono(cs: Seq<char>, a: int, b: int)
    requires
        a <= b,
    ensures
        boundary_index(cs, a) <= boundary_index(cs, b),
    decreases cs.len(),
{
    crate::lsp::convert::lemma_boundary_index_bound(cs, a);
    if cs.len() > 0 && !(byte_len(cs) <= b) {
        lemma_boundary_mono(cs.drop_last(), a, b);
    }
}

/// The text a printer holds after writing lines verbatim, each without the
/// spacing at its end: only the first can follow a blank.
pub open spec fn verbatim_block(before: Seq<char>, pending: bool, ls: Seq<Seq<char>>) -> Seq<char>
    decreases ls.len(),
{
    if ls.len() == 0 {
        before
    } else {
        let b = verbatim_block(before, pending, ls.drop_last());
        b + separator(ls.len() == 1 && pending, b) + crate::text::trim_end(ls.last()) + seq!['\n']
    }
}

impl Printer {
    /// Writes text the formatter could not read exactly as it was written, a
    /// line at a time, with only the spacing at the end of each line dropped.
    pub fn verbatim_lines(&mut self, text: &str)
        requires
            old(self).well_formed(),
        ensures
            final(self).well_formed(),
            final(self).text() == verbatim_block(old(self).text(), old(self).pending(), lines_of(text@)),
            final(self).pending() == (old(self).pending() && lines_of(text@).len() == 0),
    {
        let cs = chars_of(text);
        let ls = crate::text::lines(&cs);
        let ghost all = lines_of(text@);
        let ghost before = self.text();
        let ghost pending = self.pending();
        let mut k: usize = 0;
        proof {
            assert(all.take(0) =~= Seq::<Seq<char>>::empty());
        }
        while k < ls.len()
            invariant
                self.well_formed(),
                k <= ls.len(),
                ls@.len() == all.len(),
                forall|m: int| 0 <= m < ls@.len() ==> #[trigger] ls@[m]@ == all[m],
                self.text() == verbatim_block(before, pending, all.take(k as int)),
                self.pending() == (pending && k == 0),
            decreases ls.len() - k,
        {
            let end = end_of_text(&ls[k], 0);
            let kept = slice_chars(&ls[k], 0, end);
            let line = string_of(&kept);
            proof {
                assert(ls@[k as int]@.subrange(0, ls@[k as int]@.len() as int) =~= ls@[k as int]@);
                assert(all.take(k + 1).drop_last() =~= all.take(k as int));
                assert(line@ == crate::text::trim_end(all[k as int]));
            }
            self.verbatim_line(line.as_str());
            k = k + 1;
        }
        proof {
            assert(all.take(k as int) =~= all);
        }
    }
}

/// The width prose fills to at a depth: the line, less its indentation.
pub fn paragraph_width(depth: usize) -> (width: usize)
    requires
        4 * depth <= usize::MAX,
    ensures
        width == if 4 * depth >= MAX_WIDTH { 0 } else { MAX_WIDTH - 4 * depth },
{
    let indent = 4 * depth;
    if indent >= MAX_WIDTH {
        0
    } else {
        MAX_WIDTH - indent
    }
}

/// Words joined by single spaces.
pub fn join(words: &Vec<String>) -> (out: String)
    ensures
        out@ == join_words(texts(words@)),
{
    let ghost ws = texts(words@);
    let mut out = String::new();
    let mut k: usize = 0;
    proof {
        assert(ws.take(0) =~= Seq::<Seq<char>>::empty());
    }
    while k < words.len()
        invariant
            k <= words.len(),
            ws == texts(words@),
            out@ == join_words(ws.take(k as int)),
        decreases words.len() - k,
    {
        proof {
            assert(ws.take(k + 1).drop_last() =~= ws.take(k as int));
        }
        if k > 0 {
            push_char(&mut out, ' ');
        }
        push_str(&mut out, words[k].as_str());
        proof {
            if k == 0 {
                assert(ws.take(1) =~= seq![ws[0]]);
            }
        }
        k = k + 1;
    }
    proof {
        assert(ws.take(k as int) =~= ws);
    }
    out
}


// ---- imports ---------------------------------------------------------------------------

/// The order imported names are listed in: by their lower-case form, then by
/// the names themselves. Each entry is a name's lower-case form and the name.
pub open spec fn name_before(a: (Seq<char>, Seq<char>), b: (Seq<char>, Seq<char>)) -> bool {
    lex_lt(a.0, b.0) || (a.0 == b.0 && lex_lt(a.1, b.1))
}

pub open spec fn keyed_view(v: Seq<(String, String)>) -> Seq<(Seq<char>, Seq<char>)> {
    v.map_values(|p: (String, String)| (p.0@, p.1@))
}

/// No entry comes after one it should come before.
pub open spec fn in_name_order(s: Seq<(Seq<char>, Seq<char>)>) -> bool {
    forall|i: int, j: int| 0 <= i < j < s.len() ==> !name_before(#[trigger] s[j], #[trigger] s[i])
}

/// The order is transitive.
pub proof fn lemma_name_before_transitive(
    a: (Seq<char>, Seq<char>),
    b: (Seq<char>, Seq<char>),
    c: (Seq<char>, Seq<char>),
)
    requires
        name_before(a, b),
        name_before(b, c),
    ensures
        name_before(a, c),
{
    if lex_lt(a.0, b.0) && lex_lt(b.0, c.0) {
        lemma_lex_transitive(a.0, b.0, c.0);
    } else if lex_lt(a.1, b.1) && lex_lt(b.1, c.1) && a.0 == b.0 && b.0 == c.0 {
        lemma_lex_transitive(a.1, b.1, c.1);
    }
}

fn before_in_order(a: &(String, String), b: &(String, String)) -> (r: bool)
    ensures
        r == name_before((a.0@, a.1@), (b.0@, b.1@)),
{
    let ka = chars_of(a.0.as_str());
    let kb = chars_of(b.0.as_str());
    if lex_less(&ka, &kb) {
        return true;
    }
    if !chars_eq(&ka, &kb) {
        return false;
    }
    let na = chars_of(a.1.as_str());
    let nb = chars_of(b.1.as_str());
    lex_less(&na, &nb)
}

/// Sorts names, each given with its lower-case form, into listing order: the
/// same entries, none after one it should come before.
pub fn order_names(keyed: Vec<(String, String)>) -> (out: Vec<(String, String)>)
    ensures
        keyed_view(out@).to_multiset() == keyed_view(keyed@).to_multiset(),
        in_name_order(keyed_view(out@)),
{
    broadcast use vstd::seq_lib::group_to_multiset_ensures;
    let mut out: Vec<(String, String)> = Vec::new();
    let mut k: usize = 0;
    proof {
        assert(keyed_view(keyed@).take(0) =~= Seq::<(Seq<char>, Seq<char>)>::empty());
        assert(keyed_view(out@) =~= Seq::<(Seq<char>, Seq<char>)>::empty());
    }
    while k < keyed.len()
        invariant
            k <= keyed.len(),
            keyed_view(out@).to_multiset() == keyed_view(keyed@).take(k as int).to_multiset(),
            in_name_order(keyed_view(out@)),
        decreases keyed.len() - k,
    {
        let item = (keyed[k].0.clone(), keyed[k].1.clone());
        let ghost x = (item.0@, item.1@);
        proof {
            assert(x == keyed_view(keyed@)[k as int]);
        }
        let mut p: usize = 0;
        while p < out.len() && !before_in_order(&item, &out[p])
            invariant
                p <= out.len(),
                x == (item.0@, item.1@),
                forall|i: int| 0 <= i < p ==> !name_before(x, #[trigger] keyed_view(out@)[i]),
            decreases out.len() - p,
        {
            p = p + 1;
        }
        let ghost old_out = keyed_view(out@);
        out.insert(p, item);
        proof {
            let new_out = keyed_view(out@);
            assert(new_out =~= old_out.insert(p as int, x));
            assert(keyed_view(keyed@).take(k + 1) =~= keyed_view(keyed@).take(k as int).push(x));
            assert(keyed_view(keyed@).take(k as int).push(x) =~= keyed_view(keyed@).take(k as int).insert(k as int, x));
            vstd::seq_lib::to_multiset_insert(old_out, p as int, x);
            vstd::seq_lib::to_multiset_insert(keyed_view(keyed@).take(k as int), k as int, x);
            assert forall|i: int, j: int| 0 <= i < j < new_out.len() implies !name_before(#[trigger] new_out[j], #[trigger] new_out[i]) by {
                if j < p {
                    assert(new_out[i] == old_out[i] && new_out[j] == old_out[j]);
                } else if j == p {
                    assert(new_out[i] == old_out[i]);
                } else if i == p {
                    assert(new_out[j] == old_out[j - 1]);
                    if name_before(old_out[j - 1], x) {
                        lemma_name_before_transitive(old_out[j - 1], x, old_out[p as int]);
                        lemma_lex_trichotomy(old_out[p as int].0, old_out[p as int].0);
                        lemma_lex_trichotomy(old_out[p as int].1, old_out[p as int].1);
                    }
                } else if i < p {
                    assert(new_out[i] == old_out[i] && new_out[j] == old_out[j - 1]);
                } else {
                    assert(new_out[i] == old_out[i - 1] && new_out[j] == old_out[j - 1]);
                }
            }
        }
        k = k + 1;
    }
    proof {
        assert(keyed_view(keyed@).take(k as int) =~= keyed_view(keyed@));
    }
    out
}


/// Two runs holding the same entries still do once each entry is mapped.
pub proof fn lemma_permutation_map<A, B>(a: Seq<A>, b: Seq<A>, f: spec_fn(A) -> B)
    requires
        a.to_multiset() == b.to_multiset(),
    ensures
        a.map_values(f).to_multiset() == b.map_values(f).to_multiset(),
    decreases a.len(),
{
    broadcast use vstd::seq_lib::group_to_multiset_ensures;
    if a.len() == 0 {
        assert(b.to_multiset().len() == 0);
        assert(b.len() == 0);
        assert(a.map_values(f) =~= b.map_values(f));
    } else {
        let x = a.last();
        assert(a.to_multiset().count(x) > 0) by {
            assert(a.contains(x)) by {
                assert(a[a.len() - 1] == x);
            }
        }
        assert(b.contains(x));
        let i = choose|i: int| 0 <= i < b.len() && b[i] == x;
        vstd::seq_lib::to_multiset_remove(b, i);
        assert(a =~= a.drop_last().push(x));
        assert(a.drop_last().to_multiset() == b.remove(i).to_multiset());
        lemma_permutation_map(a.drop_last(), b.remove(i), f);
        assert(a.map_values(f) =~= a.drop_last().map_values(f).push(f(x)));
        assert(b.map_values(f) =~= b.remove(i).map_values(f).insert(i, f(x)));
        vstd::seq_lib::to_multiset_insert(b.remove(i).map_values(f), i, f(x));
        assert(a.drop_last().map_values(f).push(f(x)) =~= a.drop_last().map_values(f).insert(
            a.drop_last().len() as int,
            f(x),
        ));
        vstd::seq_lib::to_multiset_insert(a.drop_last().map_values(f), a.drop_last().len() as int, f(x));
    }
}

/// Each name with its lower-case form, the key it is listed by.
pub open spec fn keyed_names(ns: Seq<Seq<char>>) -> Seq<(Seq<char>, Seq<char>)> {
    ns.map_values(|n: Seq<char>| (lowercased(n), n))
}

/// Sorts imported names into listing order: by lower-case form, then by the
/// names themselves.
pub fn sort_names(names: &Vec<String>) -> (out: Vec<String>)
    ensures
        texts(out@).to_multiset() == texts(names@).to_multiset(),
        in_name_order(keyed_names(texts(out@))),
{
    let mut keyed: Vec<(String, String)> = Vec::new();
    let mut k: usize = 0;
    while k < names.len()
        invariant
            k <= names.len(),
            keyed_view(keyed@) == keyed_names(texts(names@).take(k as int)),
        decreases names.len() - k,
    {
        let key = lowercase_str(names[k].as_str());
        let ghost before = keyed@;
        keyed.push((key, names[k].clone()));
        proof {
            assert(keyed@ =~= before.push((key, names@[k as int])));
            assert(keyed_names(texts(names@).take(k + 1)) =~= keyed_names(texts(names@).take(k as int)).push(
                (lowercased(names@[k as int]@), names@[k as int]@),
            ));
            assert(keyed_view(keyed@) =~= keyed_view(before).push((key@, names@[k as int]@)));
        }
        k = k + 1;
    }
    proof {
        assert(texts(names@).take(k as int) =~= texts(names@));
    }
    let ghost input = keyed_view(keyed@);
    let ordered = order_names(keyed);
    let mut out: Vec<String> = Vec::new();
    let mut m: usize = 0;
    while m < ordered.len()
        invariant
            m <= ordered.len(),
            texts(out@) == keyed_view(ordered@).take(m as int).map_values(|p: (Seq<char>, Seq<char>)| p.1),
        decreases ordered.len() - m,
    {
        let ghost before = out@;
        out.push(ordered[m].1.clone());
        proof {
            assert(texts(out@) =~= texts(before).push(ordered@[m as int].1@));
            assert(keyed_view(ordered@).take(m + 1) =~= keyed_view(ordered@).take(m as int).push(keyed_view(ordered@)[m as int]));
            assert(keyed_view(ordered@).take(m + 1).map_values(|p: (Seq<char>, Seq<char>)| p.1) =~= keyed_view(ordered@).take(m as int).map_values(|p: (Seq<char>, Seq<char>)| p.1).push(ordered@[m as int].1@));
        }
        m = m + 1;
    }
    proof {
        let second = |p: (Seq<char>, Seq<char>)| p.1;
        let result = keyed_view(ordered@);
        assert(result.take(m as int) =~= result);
        lemma_permutation_map(result, input, second);
        assert(input.map_values(second) =~= texts(names@));
        assert(texts(out@) == result.map_values(second));
        assert forall|i: int| 0 <= i < result.len() implies #[trigger] result[i] == (lowercased(result[i].1), result[i].1) by {
            lemma_keys_follow_names(result, input, i);
        }
        assert(keyed_names(texts(out@)) =~= result);
    }
    out
}

/// In a run holding the same entries as a run of names keyed by their
/// lower-case forms, each entry is a name keyed by its lower-case form.
proof fn lemma_keys_follow_names(
    result: Seq<(Seq<char>, Seq<char>)>,
    input: Seq<(Seq<char>, Seq<char>)>,
    i: int,
)
    requires
        result.to_multiset() == input.to_multiset(),
        forall|j: int| 0 <= j < input.len() ==> #[trigger] input[j] == (lowercased(input[j].1), input[j].1),
        0 <= i < result.len(),
    ensures
        result[i] == (lowercased(result[i].1), result[i].1),
{
    broadcast use vstd::seq_lib::group_to_multiset_ensures;
    assert(result.contains(result[i]));
    assert(result.to_multiset().count(result[i]) > 0);
    assert(input.to_multiset().count(result[i]) > 0);
    assert(input.contains(result[i]));
    let j = choose|j: int| 0 <= j < input.len() && input[j] == result[i];
    assert(input[j] == (lowercased(input[j].1), input[j].1));
}


/// Texts joined with `sep` between each two.
pub open spec fn join_sep(ws: Seq<Seq<char>>, sep: Seq<char>) -> Seq<char>
    decreases ws.len(),
{
    if ws.len() == 0 {
        Seq::empty()
    } else if ws.len() == 1 {
        ws[0]
    } else {
        join_sep(ws.drop_last(), sep) + sep + ws.last()
    }
}

/// The text a printer holds after writing each of `ls`, a depth and a text, as
/// a line: only the first can follow a blank.
pub open spec fn lines_block(before: Seq<char>, pending: bool, ls: Seq<(nat, Seq<char>)>) -> Seq<char>
    decreases ls.len(),
{
    if ls.len() == 0 {
        before
    } else {
        let b = lines_block(before, pending, ls.drop_last());
        b + separator(ls.len() == 1 && pending, b) + indented(ls.last().0, ls.last().1) + seq!['\n']
    }
}

pub open spec fn depth_lines(ls: Seq<(usize, String)>) -> Seq<(nat, Seq<char>)> {
    ls.map_values(|l: (usize, String)| (l.0 as nat, l.1@))
}

/// `from PATH import a, b`: on one line while it lists at most
/// [`MAX_INLINE_IMPORTS`] names and fits the width, else one name a line
/// under the head, each but the last with a comma.
pub open spec fn import_layout(depth: nat, path: Seq<char>, verb: Seq<char>, names: Seq<Seq<char>>) -> Seq<(nat, Seq<char>)> {
    let head = seq!['f', 'r', 'o', 'm', ' '] + path + seq![' '] + verb + seq![' '];
    let inline = head + join_sep(names, seq![',', ' ']);
    if names.len() <= MAX_INLINE_IMPORTS && 4 * depth + byte_len(inline) <= MAX_WIDTH {
        seq![(depth, crate::text::trim_end(inline))]
    } else {
        seq![(depth, crate::text::trim_end(head))] + Seq::new(
            names.len(),
            |i: int| (depth + 1, names[i] + if i + 1 == names.len() { Seq::<char>::empty() } else { seq![','] }),
        )
    }
}

fn trim_end_string(text: &String) -> (out: String)
    ensures
        out@ == crate::text::trim_end(text@),
{
    let cs = chars_of(text.as_str());
    let end = end_of_text(&cs, 0);
    proof {
        assert(cs@.subrange(0, cs@.len() as int) =~= cs@);
    }
    let kept = slice_chars(&cs, 0, end);
    string_of(&kept)
}

/// The lines of an import of `names`, in the order given.
pub fn import_lines(depth: usize, path: &str, verb: &str, names: &Vec<String>) -> (ls: Vec<(usize, String)>)
    requires
        depth < usize::MAX / 4,
    ensures
        depth_lines(ls@) == import_layout(depth as nat, path@, verb@, texts(names@)),
{
    let ghost ns = texts(names@);
    let mut head = String::new();
    proof {
        reveal_strlit("from ");
    }
    push_str(&mut head, "from ");
    push_str(&mut head, path);
    push_char(&mut head, ' ');
    push_str(&mut head, verb);
    push_char(&mut head, ' ');
    proof {
        assert(head@ =~= seq!['f', 'r', 'o', 'm', ' '] + path@ + seq![' '] + verb@ + seq![' ']);
    }
    let mut inline = head.clone();
    let mut k: usize = 0;
    let ghost h = head@;
    proof {
        assert(ns.take(0) =~= Seq::<Seq<char>>::empty());
        assert(inline@ =~= h + join_sep(ns.take(0), seq![',', ' ']));
    }
    while k < names.len()
        invariant
            k <= names.len(),
            ns == texts(names@),
            inline@ == h + join_sep(ns.take(k as int), seq![',', ' ']),
        decreases names.len() - k,
    {
        proof {
            assert(ns.take(k + 1).drop_last() =~= ns.take(k as int));
        }
        if k > 0 {
            push_char(&mut inline, ',');
            push_char(&mut inline, ' ');
        }
        push_str(&mut inline, names[k].as_str());
        proof {
            if k == 0 {
                assert(ns.take(1) =~= seq![ns[0]]);
                assert(inline@ =~= h + join_sep(ns.take(1), seq![',', ' ']));
            } else {
                assert(inline@ =~= h + join_sep(ns.take(k + 1), seq![',', ' ']));
            }
        }
        k = k + 1;
    }
    proof {
        assert(ns.take(k as int) =~= ns);
    }
    let width = crate::text::str_len(inline.as_str());
    let mut ls: Vec<(usize, String)> = Vec::new();
    if names.len() <= MAX_INLINE_IMPORTS && 4 * depth <= MAX_WIDTH && width <= MAX_WIDTH - 4 * depth {
        ls.push((depth, trim_end_string(&inline)));
        proof {
            assert(depth_lines(ls@) =~= seq![(depth as nat, crate::text::trim_end(inline@))]);
        }
        return ls;
    }
    ls.push((depth, trim_end_string(&head)));
    let mut m: usize = 0;
    while m < names.len()
        invariant
            m <= names.len(),
            depth < usize::MAX / 4,
            ns == texts(names@),
            depth_lines(ls@) == seq![(depth as nat, crate::text::trim_end(h))] + Seq::new(
                m as nat,
                |i: int| (depth as nat + 1, ns[i] + if i + 1 == ns.len() { Seq::<char>::empty() } else { seq![','] }),
            ),
        decreases names.len() - m,
    {
        let mut entry = names[m].clone();
        if m + 1 < names.len() {
            push_char(&mut entry, ',');
        }
        let ghost before = ls@;
        ls.push((depth + 1, entry));
        proof {
            assert(depth_lines(ls@) =~= depth_lines(before).push(((depth + 1) as nat, entry@)));
            assert(entry@ =~= ns[m as int] + if m + 1 == ns.len() { Seq::<char>::empty() } else { seq![','] });
            assert(depth_lines(ls@) =~= seq![(depth as nat, crate::text::trim_end(h))] + Seq::new(
                (m + 1) as nat,
                |i: int| (depth as nat + 1, ns[i] + if i + 1 == ns.len() { Seq::<char>::empty() } else { seq![','] }),
            ));
        }
        m = m + 1;
    }
    ls
}

impl Printer {
    /// Writes lines, each at its depth.
    pub fn write_lines(&mut self, ls: &Vec<(usize, String)>)
        requires
            old(self).well_formed(),
        ensures
            final(self).well_formed(),
            final(self).text() == lines_block(old(self).text(), old(self).pending(), depth_lines(ls@)),
            final(self).pending() == (old(self).pending() && ls@.len() == 0),
    {
        let ghost before = self.text();
        let ghost pending = self.pending();
        let ghost all = depth_lines(ls@);
        let mut k: usize = 0;
        proof {
            assert(all.take(0) =~= Seq::<(nat, Seq<char>)>::empty());
        }
        while k < ls.len()
            invariant
                self.well_formed(),
                k <= ls.len(),
                all == depth_lines(ls@),
                self.text() == lines_block(before, pending, all.take(k as int)),
                self.pending() == (pending && k == 0),
            decreases ls.len() - k,
        {
            proof {
                assert(all.take(k + 1).drop_last() =~= all.take(k as int));
            }
            self.line(ls[k].0, ls[k].1.as_str());
            k = k + 1;
        }
        proof {
            assert(all.take(k as int) =~= all);
        }
    }

    /// Writes an import: `from PATH export *`, or the names sorted into
    /// listing order and laid out by [`import_layout`].
    pub fn import(&mut self, depth: usize, path: &str, is_import: bool, star: bool, names: &Vec<String>)
        requires
            old(self).well_formed(),
            depth < usize::MAX / 4,
        ensures
            final(self).well_formed(),
            star ==> final(self).text() == lines_block(
                old(self).text(),
                old(self).pending(),
                seq![(depth as nat, seq!['f', 'r', 'o', 'm', ' '] + path@ + seq![' ', 'e', 'x', 'p', 'o', 'r', 't', ' ', '*'])],
            ),
            !star ==> exists|sorted: Seq<Seq<char>>|
                sorted.to_multiset() == texts(names@).to_multiset() && in_name_order(keyed_names(sorted))
                    && final(self).text() == lines_block(
                    old(self).text(),
                    old(self).pending(),
                    import_layout(
                        depth as nat,
                        path@,
                        if is_import { seq!['i', 'm', 'p', 'o', 'r', 't'] } else { seq!['e', 'x', 'p', 'o', 'r', 't'] },
                        sorted,
                    ),
                ),
    {
        if star {
            let mut text = String::new();
            proof {
                reveal_strlit("from ");
                reveal_strlit(" export *");
            }
            push_str(&mut text, "from ");
            push_str(&mut text, path);
            push_str(&mut text, " export *");
            proof {
                assert(text@ =~= seq!['f', 'r', 'o', 'm', ' '] + path@ + seq![' ', 'e', 'x', 'p', 'o', 'r', 't', ' ', '*']);
            }
            let mut ls: Vec<(usize, String)> = Vec::new();
            ls.push((depth, text));
            proof {
                assert(depth_lines(ls@) =~= seq![(depth as nat, seq!['f', 'r', 'o', 'm', ' '] + path@ + seq![' ', 'e', 'x', 'p', 'o', 'r', 't', ' ', '*'])]);
            }
            self.write_lines(&ls);
            return;
        }
        let verb = if is_import {
            "import"
        } else {
            "export"
        };
        proof {
            reveal_strlit("import");
            reveal_strlit("export");
        }
        let sorted = sort_names(names);
        let ls = import_lines(depth, path, verb, &sorted);
        self.write_lines(&ls);
        proof {
            assert(verb@ == if is_import { seq!['i', 'm', 'p', 'o', 'r', 't'] } else { seq!['e', 'x', 'p', 'o', 'r', 't'] });
            let witness = texts(sorted@);
            assert(witness.to_multiset() == texts(names@).to_multiset());
        }
    }
}


// ---- prose words and declaration lines -----------------------------------------------

/// A piece of a line of prose as the parser splits it: a run of whitespace,
/// or anything else (a word, punctuation, an expression or a quoted string).
#[derive(Clone, Debug, PartialEq, Eq)]
pub struct Piece {
    pub space: bool,
    pub text: String,
}

/// Whether a text holds an odd number of backticks.
pub open spec fn ticks_odd(cs: Seq<char>) -> bool
    decreases cs.len(),
{
    if cs.len() == 0 {
        false
    } else {
        ticks_odd(cs.drop_last()) != (cs.last() == '`')
    }
}

/// Reading pieces of prose: the words finished so far, the word being read,
/// and whether a code span is open. A gap ends the word, except inside a code
/// span, whose spacing is content, and a gap wider than one space after a
/// sentence, which stays as two spaces inside the word.
pub open spec fn prose_state(ps: Seq<Piece>) -> (Seq<Seq<char>>, Seq<char>, bool)
    decreases ps.len(),
{
    if ps.len() == 0 {
        (Seq::empty(), Seq::empty(), false)
    } else {
        let (ws, w, odd) = prose_state(ps.drop_last());
        let p = ps.last();
        if p.space {
            if odd {
                (ws, w + p.text@, odd)
            } else if p.text@ != seq![' '] && ends_sentence_of(w) {
                (ws, w + seq![' ', ' '], odd)
            } else {
                (ws.push(w), Seq::empty(), odd)
            }
        } else {
            (ws, w + p.text@, odd != ticks_odd(p.text@))
        }
    }
}

/// The texts that are not empty, in order.
pub open spec fn nonempty(ws: Seq<Seq<char>>) -> Seq<Seq<char>>
    decreases ws.len(),
{
    if ws.len() == 0 {
        ws
    } else {
        let rest = nonempty(ws.drop_last());
        if ws.last().len() > 0 {
            rest.push(ws.last())
        } else {
            rest
        }
    }
}

/// The words of a line of prose: spacing at either end of the line is not
/// part of what it says, and no word is empty.
pub open spec fn prose_words_of(ps: Seq<Piece>) -> Seq<Seq<char>> {
    let (ws, w, _) = prose_state(ps);
    let all = ws.push(w);
    let a = all.update(0, crate::text::trim_start(all[0]));
    let b = a.update(a.len() - 1, crate::text::trim_end(a[a.len() - 1]));
    nonempty(b)
}

fn odd_ticks(text: &String) -> (r: bool)
    ensures
        r == ticks_odd(text@),
{
    let cs = chars_of(text.as_str());
    let mut odd = false;
    let mut i: usize = 0;
    while i < cs.len()
        invariant
            i <= cs.len(),
            cs@ == text@,
            odd == ticks_odd(cs@.take(i as int)),
        decreases cs.len() - i,
    {
        proof {
            assert(cs@.take(i + 1).drop_last() =~= cs@.take(i as int));
        }
        if cs[i] == '`' {
            odd = !odd;
        }
        i = i + 1;
    }
    proof {
        assert(cs@.take(i as int) =~= cs@);
    }
    odd
}

fn trim_start_string(text: &String) -> (out: String)
    ensures
        out@ == crate::text::trim_start(text@),
{
    let cs = chars_of(text.as_str());
    let from = skip_spaces(&cs, 0);
    proof {
        assert(cs@.subrange(0, cs@.len() as int) =~= cs@);
    }
    let kept = slice_chars(&cs, from, cs.len());
    string_of(&kept)
}

/// The words of a line of prose, read from its pieces.
pub fn prose_words(pieces: &Vec<Piece>) -> (words: Vec<String>)
    ensures
        texts(words@) == prose_words_of(pieces@),
{
    let mut words: Vec<String> = Vec::new();
    let mut word = String::new();
    let mut odd = false;
    let mut k: usize = 0;
    proof {
        assert(pieces@.take(0) =~= Seq::<Piece>::empty());
    }
    while k < pieces.len()
        invariant
            k <= pieces.len(),
            (texts(words@), word@, odd) == prose_state(pieces@.take(k as int)),
        decreases pieces.len() - k,
    {
        let piece = &pieces[k];
        proof {
            assert(pieces@.take(k + 1).drop_last() =~= pieces@.take(k as int));
            assert(pieces@.take(k + 1).last() == pieces@[k as int]);
        }
        let ghost before_words = texts(words@);
        let ghost before_word = word@;
        if piece.space {
            if odd {
                push_str(&mut word, piece.text.as_str());
            } else if !single_space(&piece.text) && ends_sentence(word.as_str()) {
                push_char(&mut word, ' ');
                push_char(&mut word, ' ');
                proof {
                    assert(word@ =~= before_word + seq![' ', ' ']);
                }
            } else {
                let finished = word;
                word = String::new();
                let ghost w = finished@;
                words.push(finished);
                proof {
                    assert(texts(words@) =~= before_words.push(w));
                }
            }
        } else {
            push_str(&mut word, piece.text.as_str());
            let t = odd_ticks(&piece.text);
            odd = odd != t;
        }
        k = k + 1;
    }
    proof {
        assert(pieces@.take(k as int) =~= pieces@);
    }
    let ghost ws = texts(words@);
    let ghost w = word@;
    words.push(word);
    let ghost all = texts(words@);
    proof {
        assert(all =~= ws.push(w));
    }
    let first = trim_start_string(&words[0]);
    words.set(0, first);
    let ghost a = texts(words@);
    proof {
        assert(a =~= all.update(0, crate::text::trim_start(all[0])));
    }
    let last_index = words.len() - 1;
    let last = trim_end_string(&words[last_index]);
    words.set(last_index, last);
    let ghost b = texts(words@);
    proof {
        assert(b =~= a.update(a.len() - 1, crate::text::trim_end(a[a.len() - 1])));
    }
    let mut out: Vec<String> = Vec::new();
    let mut m: usize = 0;
    proof {
        assert(b.take(0) =~= Seq::<Seq<char>>::empty());
    }
    while m < words.len()
        invariant
            m <= words.len(),
            b == texts(words@),
            texts(out@) == nonempty(b.take(m as int)),
        decreases words.len() - m,
    {
        proof {
            assert(b.take(m + 1).drop_last() =~= b.take(m as int));
        }
        if !words[m].as_str().is_empty() {
            let ghost before = texts(out@);
            out.push(words[m].clone());
            proof {
                assert(texts(out@) =~= before.push(b[m as int]));
            }
        }
        m = m + 1;
    }
    proof {
        assert(b.take(m as int) =~= b);
    }
    out
}

fn single_space(text: &String) -> (r: bool)
    ensures
        r == (text@ == seq![' ']),
{
    let cs = chars_of(text.as_str());
    let r = cs.len() == 1 && cs[0] == ' ';
    proof {
        if cs.len() == 1 && cs[0] == ' ' {
            assert(cs@ =~= seq![' ']);
        }
    }
    r
}

/// The comments written after a declaration on its line, each after two
/// spaces.
pub open spec fn comments_tail(cs: Seq<Seq<char>>) -> Seq<char>
    decreases cs.len(),
{
    if cs.len() == 0 {
        Seq::empty()
    } else {
        comments_tail(cs.drop_last()) + seq![' ', ' '] + cs.last()
    }
}

/// A declaration's line: its head, its value after a space when it has one,
/// then the comments written on the line, with no spacing at the end.
pub open spec fn declaration_line_of(head: Seq<char>, value: Seq<char>, trailing: Seq<Seq<char>>) -> Seq<char> {
    let v = trim(value);
    let line = if v.len() == 0 {
        head
    } else if head.len() == 0 {
        v
    } else {
        head + seq![' '] + v
    };
    crate::text::trim_end(line + comments_tail(trailing))
}

/// Builds a declaration's line from its head, its value and the comments
/// written on the line.
pub fn declaration_line(head: &str, value: &str, trailing: &Vec<String>) -> (line: String)
    ensures
        line@ == declaration_line_of(head@, value@, texts(trailing@)),
{
    let mut line = String::new();
    push_str(&mut line, head);
    let vc = chars_of(value);
    let from = skip_spaces(&vc, 0);
    let to = end_of_text(&vc, from);
    proof {
        assert(vc@.subrange(0, vc@.len() as int) =~= vc@);
    }
    let v = slice_chars(&vc, from, to);
    if v.len() > 0 {
        if !head.is_empty() {
            push_char(&mut line, ' ');
        }
        push_chars(&mut line, &v);
    }
    let ghost base = line@;
    proof {
        assert(v@ == trim(value@));
        let tv = trim(value@);
        assert(base =~= if tv.len() == 0 {
            head@
        } else if head@.len() == 0 {
            tv
        } else {
            head@ + seq![' '] + tv
        });
    }
    let ghost ts = texts(trailing@);
    let mut k: usize = 0;
    proof {
        assert(ts.take(0) =~= Seq::<Seq<char>>::empty());
        assert(line@ =~= base + comments_tail(ts.take(0)));
    }
    while k < trailing.len()
        invariant
            k <= trailing.len(),
            ts == texts(trailing@),
            line@ == base + comments_tail(ts.take(k as int)),
        decreases trailing.len() - k,
    {
        proof {
            assert(ts.take(k + 1).drop_last() =~= ts.take(k as int));
        }
        push_char(&mut line, ' ');
        push_char(&mut line, ' ');
        push_str(&mut line, trailing[k].as_str());
        proof {
            assert(line@ =~= base + comments_tail(ts.take(k + 1)));
        }
        k = k + 1;
    }
    proof {
        assert(ts.take(k as int) =~= ts);
    }
    trim_end_string(&line)
}


impl Printer {
    /// Writes a declaration's line at its depth, then the comments written
    /// under it one level deeper.
    pub fn declaration(&mut self, depth: usize, head: &str, value: &str, trailing: &Vec<String>, leading: &Vec<String>)
        requires
            old(self).well_formed(),
            depth < usize::MAX,
        ensures
            final(self).well_formed(),
            final(self).text() == lines_block(
                old(self).text(),
                old(self).pending(),
                seq![(depth as nat, declaration_line_of(head@, value@, texts(trailing@)))]
                    + texts(leading@).map_values(|c: Seq<char>| ((depth + 1) as nat, c)),
            ),
    {
        let line = declaration_line(head, value, trailing);
        let mut ls: Vec<(usize, String)> = Vec::new();
        ls.push((depth, line));
        let mut k: usize = 0;
        while k < leading.len()
            invariant
                k <= leading.len(),
                depth < usize::MAX,
                depth_lines(ls@) == seq![(depth as nat, declaration_line_of(head@, value@, texts(trailing@)))]
                    + texts(leading@).take(k as int).map_values(|c: Seq<char>| ((depth + 1) as nat, c)),
            decreases leading.len() - k,
        {
            let ghost before = ls@;
            ls.push((depth + 1, leading[k].clone()));
            proof {
                assert(depth_lines(ls@) =~= depth_lines(before).push(((depth + 1) as nat, leading@[k as int]@)));
                assert(texts(leading@).take(k + 1).map_values(|c: Seq<char>| ((depth + 1) as nat, c)) =~= texts(leading@).take(k as int).map_values(|c: Seq<char>| ((depth + 1) as nat, c)).push(((depth + 1) as nat, leading@[k as int]@)));
            }
            k = k + 1;
        }
        proof {
            assert(texts(leading@).take(k as int) =~= texts(leading@));
        }
        self.write_lines(&ls);
    }
}


// ---- reading filled lines back ---------------------------------------------------

/// The source a run of filled lines is read back from: the lines under a
/// key, each indented once. A line that begins a run of prose is read at
/// least as strictly here as where it came from.
pub open spec fn misread_source_of(lines: Seq<Seq<char>>) -> Seq<char>
    decreases lines.len(),
{
    if lines.len() == 0 {
        seq!['k', ':', '\n']
    } else {
        misread_source_of(lines.drop_last()) + seq![' ', ' ', ' ', ' '] + lines.last() + seq!['\n']
    }
}

/// Where line `i`'s text starts in that source, in bytes.
pub open spec fn misread_start(lines: Seq<Seq<char>>, i: int) -> int {
    byte_len(misread_source_of(lines.take(i))) + 4int
}

proof fn lemma_misread_source_grows(lines: Seq<Seq<char>>, i: int)
    requires
        0 <= i <= lines.len(),
    ensures
        byte_len(misread_source_of(lines.take(i))) <= byte_len(misread_source_of(lines)),
    decreases lines.len() - i,
{
    if i < lines.len() {
        lemma_misread_source_grows(lines, i + 1);
        let a = misread_source_of(lines.take(i));
        assert(lines.take(i + 1).drop_last() =~= lines.take(i));
        lemma_byte_len_concat(a + seq![' ', ' ', ' ', ' '] + lines[i], seq!['\n']);
        lemma_byte_len_concat(a + seq![' ', ' ', ' ', ' '], lines[i]);
        lemma_byte_len_concat(a, seq![' ', ' ', ' ', ' ']);
    } else {
        assert(lines.take(i) =~= lines);
    }
}

proof fn lemma_misread_step(lines: Seq<Seq<char>>, k: int)
    requires
        0 <= k < lines.len(),
    ensures
        misread_source_of(lines.take(k + 1)) == misread_source_of(lines.take(k)) + seq![' ', ' ', ' ', ' ']
            + lines[k] + seq!['\n'],
        byte_len(misread_source_of(lines.take(k + 1))) == byte_len(misread_source_of(lines.take(k))) + 4
            + byte_len(lines[k]) + 1,
{
    let before = misread_source_of(lines.take(k));
    assert(lines.take(k + 1).drop_last() =~= lines.take(k));
    lemma_byte_len_concat(before + seq![' ', ' ', ' ', ' '] + lines[k], seq!['\n']);
    lemma_byte_len_concat(before + seq![' ', ' ', ' ', ' '], lines[k]);
    lemma_byte_len_concat(before, seq![' ', ' ', ' ', ' ']);
    reveal_with_fuel(byte_len, 5);
    assert(seq![' ', ' ', ' ', ' '].drop_last() =~= seq![' ', ' ', ' ']);
    assert(seq![' ', ' ', ' '].drop_last() =~= seq![' ', ' ']);
    assert(seq![' ', ' '].drop_last() =~= seq![' ']);
    assert(seq![' '].drop_last() =~= Seq::<char>::empty());
    assert(seq!['\n'].drop_last() =~= Seq::<char>::empty());
}

/// Writes the source `lines` are read back from, with where each line's
/// text starts in it.
pub fn misread_source(lines: &Vec<String>) -> (r: (String, Vec<usize>))
    requires
        byte_len(misread_source_of(texts(lines@))) <= usize::MAX,
    ensures
        r.0@ == misread_source_of(texts(lines@)),
        r.1@.len() == lines@.len(),
        forall|i: int| 0 <= i < lines@.len() ==> #[trigger] r.1@[i] == misread_start(texts(lines@), i),
{
    let ghost ls = texts(lines@);
    let mut source = String::new();
    push_str(&mut source, "k:\n");
    let mut size: usize = 3;
    let mut starts: Vec<usize> = Vec::new();
    proof {
        reveal_strlit("k:\n");
        assert("k:\n"@ =~= seq!['k', ':', '\n']);
        assert(ls.take(0) =~= Seq::<Seq<char>>::empty());
        assert(source@ =~= seq!['k', ':', '\n']);
        reveal_with_fuel(byte_len, 4);
        assert(seq!['k', ':', '\n'].drop_last() =~= seq!['k', ':']);
        assert(seq!['k', ':'].drop_last() =~= seq!['k']);
        assert(seq!['k'].drop_last() =~= Seq::<char>::empty());
    }
    let mut k: usize = 0;
    while k < lines.len()
        invariant
            k <= lines@.len(),
            ls == texts(lines@),
            byte_len(misread_source_of(ls)) <= usize::MAX,
            source@ == misread_source_of(ls.take(k as int)),
            size == byte_len(source@),
            starts@.len() == k,
            forall|i: int| 0 <= i < k ==> #[trigger] starts@[i] == misread_start(ls, i),
        decreases lines@.len() - k,
    {
        let ghost before = source@;
        proof {
            lemma_misread_source_grows(ls, k + 1);
            lemma_misread_step(ls, k as int);
        }
        starts.push(size + 4);
        let line = lines[k].as_str();
        let n = str_len(line);
        push_str(&mut source, INDENT);
        push_str(&mut source, line);
        push_char(&mut source, '\n');
        size = size + 4 + n + 1;
        proof {
            reveal_strlit("    ");
            assert(INDENT@ =~= seq![' ', ' ', ' ', ' ']);
            assert(source@ =~= before + seq![' ', ' ', ' ', ' '] + ls[k as int] + seq!['\n']);
            assert forall|i: int| 0 <= i < k + 1 implies #[trigger] starts@[i] == misread_start(ls, i) by {
                if i == k {
                    assert(ls.take(i) =~= ls.take(k as int));
                }
            }
        }
        k = k + 1;
    }
    proof {
        assert(ls.take(k as int) =~= ls);
    }
    (source, starts)
}

/// What the parse found at the start of a read-back line: where the entry
/// starts and ends, in bytes of the source, and its words joined by single
/// spaces when it is prose.
pub struct ReadBack {
    pub start: usize,
    pub end: usize,
    pub words: Option<String>,
}

pub open spec fn words_of(r: ReadBack) -> Option<Seq<char>> {
    match r.words {
        Some(w) => Some(w@),
        None => None,
    }
}

/// The first entry that starts at `start`.
pub open spec fn first_at(entries: Seq<ReadBack>, start: int) -> Option<ReadBack>
    decreases entries.len(),
{
    if entries.len() == 0 {
        None
    } else if entries[0].start == start {
        Some(entries[0])
    } else {
        first_at(entries.drop_first(), start)
    }
}

/// Whether a line reads back as itself: an entry starts where it does, ends
/// no later than its line break, and is prose with the same words.
pub open spec fn reads_back(line: Seq<char>, start: int, entries: Seq<ReadBack>) -> bool {
    match first_at(entries, start) {
        Some(e) => e.end <= start + byte_len(line) + 1 && words_of(e) == Some(line),
        None => false,
    }
}

/// Whether a line whose text starts at `start` reads back as itself.
fn line_reads_back(line: &str, start: usize, entries: &Vec<ReadBack>) -> (r: bool)
    ensures
        r == reads_back(line@, start as int, entries@),
{
    let mut k: usize = 0;
    proof {
        assert(entries@.skip(0) =~= entries@);
    }
    while k < entries.len()
        invariant
            k <= entries@.len(),
            first_at(entries@, start as int) == first_at(entries@.skip(k as int), start as int),
        decreases entries@.len() - k,
    {
        proof {
            assert(entries@.skip(k as int).drop_first() =~= entries@.skip(k + 1));
            assert(entries@.skip(k as int)[0] == entries@[k as int]);
        }
        if entries[k].start == start {
            let e = &entries[k];
            let n = str_len(line);
            let within = e.end <= start || e.end - start <= n + 1;
            let same = match &e.words {
                Some(w) => crate::text::str_eq(w.as_str(), line),
                None => false,
            };
            return within && same;
        }
        k = k + 1;
    }
    proof {
        assert(entries@.skip(k as int) =~= Seq::<ReadBack>::empty());
    }
    false
}

/// The first of the lines, whose texts start at `starts` in the source they
/// were read back from, that does not read back as itself.
pub fn first_misread(lines: &Vec<String>, starts: &Vec<usize>, entries: &Vec<ReadBack>) -> (r: Option<usize>)
    requires
        starts@.len() == lines@.len(),
    ensures
        match r {
            Some(i) => i < lines@.len() && !reads_back(lines@[i as int]@, starts@[i as int] as int, entries@)
                && forall|j: int| 0 <= j < i ==> reads_back(#[trigger] lines@[j]@, starts@[j] as int, entries@),
            None => forall|j: int| 0 <= j < lines@.len() ==> reads_back(#[trigger] lines@[j]@, starts@[j] as int, entries@),
        },
{
    let mut k: usize = 0;
    while k < lines.len()
        invariant
            k <= lines@.len(),
            starts@.len() == lines@.len(),
            forall|j: int| 0 <= j < k ==> reads_back(#[trigger] lines@[j]@, starts@[j] as int, entries@),
        decreases lines@.len() - k,
    {
        if !line_reads_back(lines[k].as_str(), starts[k], entries) {
            return Some(k);
        }
        k = k + 1;
    }
    None
}

// ---- declaration heads -----------------------------------------------------------------

/// `text` when `present`, nothing otherwise.
pub open spec fn piece_if(present: bool, text: Seq<char>) -> Seq<char> {
    if present { text } else { Seq::empty() }
}

/// `before`, the value and `after` when there is a value, nothing otherwise.
pub open spec fn opt_piece(before: Seq<char>, value: Option<Seq<char>>, after: Seq<char>) -> Seq<char> {
    match value {
        Some(v) => before + v + after,
        None => Seq::empty(),
    }
}

/// `export abstract anchor Name extends A, B as kw:` from its parts: the
/// keyword it is declared with (`anchor` or a framework's), its name, its
/// bases when it has an `extends` clause, and its `as` name.
pub open spec fn anchor_head_of(
    exported: bool,
    is_abstract: bool,
    keyword: Option<Seq<char>>,
    name: Option<Seq<char>>,
    bases: Option<Seq<Seq<char>>>,
    alias: Option<Seq<char>>,
) -> Seq<char> {
    piece_if(exported, seq!['e', 'x', 'p', 'o', 'r', 't', ' '])
        + piece_if(is_abstract, seq!['a', 'b', 's', 't', 'r', 'a', 'c', 't', ' '])
        + opt_piece(Seq::empty(), keyword, seq![' '])
        + opt_piece(Seq::empty(), name, Seq::empty())
        + (match bases {
            Some(b) => seq![' ', 'e', 'x', 't', 'e', 'n', 'd', 's', ' '] + join_sep(b, seq![',', ' ']),
            None => Seq::empty(),
        })
        + opt_piece(seq![' ', 'a', 's', ' '], alias, Seq::empty())
        + seq![':']
}

pub(crate) fn push_joined(out: &mut String, parts: &Vec<String>, sep: &str)
    ensures
        final(out)@ == old(out)@ + join_sep(texts(parts@), sep@),
{
    let ghost base = out@;
    let ghost ps = texts(parts@);
    let mut k: usize = 0;
    proof {
        assert(ps.take(0) =~= Seq::<Seq<char>>::empty());
        assert(out@ =~= base + join_sep(ps.take(0), sep@));
    }
    while k < parts.len()
        invariant
            k <= parts.len(),
            ps == texts(parts@),
            out@ == base + join_sep(ps.take(k as int), sep@),
        decreases parts.len() - k,
    {
        proof {
            assert(ps.take(k + 1).drop_last() =~= ps.take(k as int));
        }
        if k > 0 {
            push_str(out, sep);
        }
        push_str(out, parts[k].as_str());
        proof {
            if k == 0 {
                assert(ps.take(1) =~= seq![ps[0]]);
            }
            assert(out@ =~= base + join_sep(ps.take(k + 1), sep@));
        }
        k = k + 1;
    }
    proof {
        assert(ps.take(k as int) =~= ps);
    }
}

pub open spec fn opt_text(s: Option<&str>) -> Option<Seq<char>> {
    match s {
        Some(t) => Some(t@),
        None => None,
    }
}

/// Appends `text` when `present`.
fn push_if(out: &mut String, present: bool, text: &str)
    ensures
        final(out)@ == old(out)@ + piece_if(present, text@),
{
    if present {
        push_str(out, text);
    } else {
        assert(out@ =~= out@ + Seq::<char>::empty());
    }
}

/// Appends `before`, the value and `after` when there is a value.
fn push_opt(out: &mut String, before: &str, value: Option<&str>, after: &str)
    ensures
        final(out)@ == old(out)@ + opt_piece(before@, opt_text(value), after@),
{
    match value {
        Some(v) => {
            let ghost start = out@;
            push_str(out, before);
            push_str(out, v);
            push_str(out, after);
            assert(out@ =~= start + (before@ + v@ + after@));
        },
        None => {
            assert(out@ =~= out@ + Seq::<char>::empty());
        },
    }
}

/// Appends an `extends` clause, when there are bases.
fn push_extends(out: &mut String, bases: Option<&Vec<String>>)
    ensures
        final(out)@ == old(out)@ + match bases {
            Some(b) => seq![' ', 'e', 'x', 't', 'e', 'n', 'd', 's', ' '] + join_sep(texts(b@), seq![',', ' ']),
            None => Seq::<char>::empty(),
        },
{
    match bases {
        Some(b) => {
            proof {
                reveal_strlit(" extends ");
                reveal_strlit(", ");
                assert(", "@ =~= seq![',', ' ']);
                assert(" extends "@ =~= seq![' ', 'e', 'x', 't', 'e', 'n', 'd', 's', ' ']);
            }
            let ghost before = out@;
            push_str(out, " extends ");
            push_joined(out, b, ", ");
            assert(out@ =~= before + (seq![' ', 'e', 'x', 't', 'e', 'n', 'd', 's', ' '] + join_sep(texts(b@), seq![',', ' '])));
        },
        None => {
            assert(out@ =~= out@ + Seq::<char>::empty());
        },
    }
}

/// Writes an anchor declaration's head from its parts.
pub fn anchor_head(
    exported: bool,
    is_abstract: bool,
    keyword: Option<&str>,
    name: Option<&str>,
    bases: Option<&Vec<String>>,
    alias: Option<&str>,
) -> (head: String)
    ensures
        head@ == anchor_head_of(
            exported,
            is_abstract,
            opt_text(keyword),
            opt_text(name),
            match bases { Some(b) => Some(texts(b@)), None => None },
            opt_text(alias),
        ),
{
    proof {
        reveal_strlit("export ");
        reveal_strlit("abstract ");
        reveal_strlit(" as ");
        reveal_strlit(" ");
        reveal_strlit("");
        assert("export "@ =~= seq!['e', 'x', 'p', 'o', 'r', 't', ' ']);
        assert("abstract "@ =~= seq!['a', 'b', 's', 't', 'r', 'a', 'c', 't', ' ']);
        assert(" as "@ =~= seq![' ', 'a', 's', ' ']);
        assert(" "@ =~= seq![' ']);
        assert(""@ =~= Seq::<char>::empty());
    }
    let mut head = String::new();
    push_if(&mut head, exported, "export ");
    push_if(&mut head, is_abstract, "abstract ");
    push_opt(&mut head, "", keyword, " ");
    push_opt(&mut head, "", name, "");
    push_extends(&mut head, bases);
    push_opt(&mut head, " as ", alias, "");
    push_char(&mut head, ':');
    proof {
        let e = piece_if(exported, seq!['e', 'x', 'p', 'o', 'r', 't', ' ']);
        assert(Seq::<char>::empty() + e =~= e);
    }
    head
}

/// `name:: T:: U:` from its parts: the name, each constraint's type as
/// written, and whether a colon follows.
pub open spec fn key_head_of(name: Seq<char>, types: Seq<Seq<char>>, colon: bool) -> Seq<char>
    decreases types.len(),
{
    if types.len() == 0 {
        name + if colon { seq![':'] } else { Seq::empty() }
    } else {
        let inner = key_head_of(name, types.drop_last(), false);
        inner + seq![':', ':', ' '] + trim(types.last()) + if colon { seq![':'] } else { Seq::empty() }
    }
}

/// Writes a key's head from its parts.
pub fn key_head(name: &str, types: &Vec<String>, colon: bool) -> (head: String)
    ensures
        head@ == key_head_of(name@, texts(types@), colon),
{
    let mut head = String::new();
    push_str(&mut head, name);
    let ghost ts = texts(types@);
    let mut k: usize = 0;
    proof {
        assert(ts.take(0) =~= Seq::<Seq<char>>::empty());
        assert(head@ =~= key_head_of(name@, ts.take(0), false));
    }
    while k < types.len()
        invariant
            k <= types.len(),
            ts == texts(types@),
            head@ == key_head_of(name@, ts.take(k as int), false),
        decreases types.len() - k,
    {
        proof {
            assert(ts.take(k + 1).drop_last() =~= ts.take(k as int));
        }
        push_char(&mut head, ':');
        push_char(&mut head, ':');
        push_char(&mut head, ' ');
        let tc = chars_of(types[k].as_str());
        let from = skip_spaces(&tc, 0);
        let to = end_of_text(&tc, from);
        proof {
            assert(tc@.subrange(0, tc@.len() as int) =~= tc@);
        }
        let t = slice_chars(&tc, from, to);
        push_chars(&mut head, &t);
        proof {
            assert(head@ =~= key_head_of(name@, ts.take(k + 1), false));
        }
        k = k + 1;
    }
    proof {
        assert(ts.take(k as int) =~= ts);
    }
    if colon {
        push_char(&mut head, ':');
    }
    proof {
        lemma_key_head_colon(name@, ts, colon);
    }
    head
}

proof fn lemma_key_head_colon(name: Seq<char>, types: Seq<Seq<char>>, colon: bool)
    ensures
        key_head_of(name, types, colon) == key_head_of(name, types, false) + if colon { seq![':'] } else { Seq::<char>::empty() },
{
    if types.len() == 0 {
        assert(name + Seq::<char>::empty() =~= name);
    } else {
        let inner = key_head_of(name, types.drop_last(), false);
        assert(inner + seq![':', ':', ' '] + trim(types.last()) + Seq::<char>::empty() =~= inner + seq![':', ':', ' '] + trim(types.last()));
    }
}

proof fn lemma_strip_closing(w: Seq<char>, closing: Seq<char>)
    requires
        forall|k: int| 0 <= k < closing.len() ==> {
            let c = #[trigger] closing[k];
            c == ')' || c == ']' || c == '"' || c == '\'' || c == '*' || c == '_' || c == '`'
        },
    ensures
        strip_closers(w + closing) == strip_closers(w),
    decreases closing.len(),
{
    if closing.len() == 0 {
        assert(w + closing =~= w);
    } else {
        let c = closing.last();
        assert(closing[closing.len() - 1] == c);
        assert((w + closing).drop_last() =~= w + closing.drop_last());
        assert forall|k: int| 0 <= k < closing.drop_last().len() implies {
            let c = #[trigger] closing.drop_last()[k];
            c == ')' || c == ']' || c == '"' || c == '\'' || c == '*' || c == '_' || c == '`'
        } by {
            assert(closing.drop_last()[k] == closing[k]);
        }
        lemma_strip_closing(w, closing.drop_last());
    }
}

/// A word ends a sentence exactly by the character before its closing marks
/// (any run of `)`, `]`, `"`, `'`, `*`, `_` and backticks): it does when
/// that is `.`, `!` or `?`, and does not when it is anything else that is
/// not itself a closing mark.
pub proof fn lemma_sentence_ends(w: Seq<char>, end: char, closing: Seq<char>)
    requires
        forall|k: int| 0 <= k < closing.len() ==> {
            let c = #[trigger] closing[k];
            c == ')' || c == ']' || c == '"' || c == '\'' || c == '*' || c == '_' || c == '`'
        },
    ensures
        (end == '.' || end == '!' || end == '?') ==> ends_sentence_of(w.push(end) + closing),
        !(end == '.' || end == '!' || end == '?' || end == ')' || end == ']' || end == '"' || end == '\''
            || end == '*' || end == '_' || end == '`') ==> !ends_sentence_of(w.push(end) + closing),
{
    lemma_strip_closing(w.push(end), closing);
    if !(end == ')' || end == ']' || end == '"' || end == '\'' || end == '*' || end == '_' || end == '`') {
        assert(strip_closers(w.push(end)) == w.push(end));
    }
}

} // verus!
