//! What the text before the cursor asks to complete: a `from`/`use` line
//! read straight from its text, the start of a line, and an expression.
use vstd::prelude::*;

use crate::lsp::features::{
    abstract_word, export_word, from_word, import_word, last_index_of, name_char, split_words,
    trim_chars, use_word, words,
};
use crate::text::{
    alphanumeric, chars_eq, chars_of, end_of_text, is_alphanumeric, skip_spaces, slice_chars,
    string_of, trim, trim_end, trim_start,
};

verus! {

/// Inside `{ }`: a name anywhere, or, after a trailing `.`, a member of what
/// precedes it.
#[derive(Debug, PartialEq, Eq)]
pub enum ExpressionContext {
    Expression,
    Member { path: Vec<String> },
}

/// A character of a reference: a name character or a dot.
pub open spec fn reference_char(c: char) -> bool {
    alphanumeric(c) || c == '_' || c == '-' || c == '.'
}

/// Where the reference at the end of `cs` begins.
pub open spec fn reference_start(cs: Seq<char>) -> int
    decreases cs.len(),
{
    if cs.len() == 0 || !reference_char(cs.last()) {
        cs.len() as int
    } else {
        reference_start(cs.drop_last())
    }
}

/// The pieces of a text between its dots, as `str::split('.')` yields them.
pub open spec fn dot_segments(cs: Seq<char>) -> Seq<Seq<char>>
    decreases cs.len(),
{
    if cs.len() == 0 {
        seq![Seq::<char>::empty()]
    } else {
        let rest = dot_segments(cs.drop_last());
        if cs.last() == '.' {
            rest.push(Seq::<char>::empty())
        } else {
            rest.update(rest.len() - 1, rest.last().push(cs.last()))
        }
    }
}

/// What the expression at the end of a line asks for: inside the innermost
/// `{`, the reference being typed; when it holds a dot, the segments before
/// the last one, which is the name being typed.
pub open spec fn expression_context_of(prefix: Seq<char>) -> Option<Seq<Seq<char>>> {
    let expression = match last_index_of(prefix, '{') {
        Some(at) => prefix.skip(at + 1),
        None => prefix,
    };
    let reference = expression.skip(reference_start(expression));
    if !reference.contains('.') {
        None
    } else {
        Some(dot_segments(reference).drop_last())
    }
}

proof fn lemma_segments_len(cs: Seq<char>)
    ensures
        dot_segments(cs).len() >= 1,
    decreases cs.len(),
{
    if cs.len() > 0 {
        lemma_segments_len(cs.drop_last());
    }
}

proof fn lemma_reference_start(cs: Seq<char>)
    ensures
        0 <= reference_start(cs) <= cs.len(),
    decreases cs.len(),
{
    if cs.len() > 0 && reference_char(cs.last()) {
        lemma_reference_start(cs.drop_last());
    }
}

/// Reads the expression being typed at the end of a line.
pub fn expression_context(prefix: &str) -> (c: ExpressionContext)
    ensures
        match (c, expression_context_of(prefix@)) {
            (ExpressionContext::Expression, None) => true,
            (ExpressionContext::Member { path }, Some(p)) => path@.map_values(|s: String| s@) == p,
            _ => false,
        },
{
    let cs = chars_of(prefix);
    let mut open = cs.len();
    proof {
        assert(cs@.take(cs@.len() as int) =~= cs@);
    }
    while open > 0 && cs[open - 1] != '{'
        invariant
            open <= cs.len(),
            last_index_of(cs@, '{') == last_index_of(cs@.take(open as int), '{'),
        decreases open,
    {
        proof {
            assert(cs@.take(open as int).drop_last() =~= cs@.take(open - 1));
        }
        open = open - 1;
    }
    proof {
        if open > 0 {
            assert(cs@.take(open as int).last() == cs@[open - 1]);
        } else {
            assert(cs@.take(0) =~= Seq::<char>::empty());
        }
    }
    let expression = slice_chars(&cs, open, cs.len());
    proof {
        if open > 0 {
            assert(expression@ =~= cs@.skip(open as int));
        } else {
            assert(expression@ =~= cs@);
        }
    }
    let mut start = expression.len();
    proof {
        assert(expression@.take(start as int) =~= expression@);
    }
    while start > 0 && (is_alphanumeric(expression[start - 1]) || expression[start - 1] == '_'
        || expression[start - 1] == '-' || expression[start - 1] == '.')
        invariant
            start <= expression.len(),
            reference_start(expression@) == reference_start(expression@.take(start as int)),
        decreases start,
    {
        proof {
            assert(expression@.take(start as int).drop_last() =~= expression@.take(start - 1));
        }
        start = start - 1;
    }
    proof {
        if start > 0 {
            assert(expression@.take(start as int).last() == expression@[start - 1]);
        }
        lemma_reference_start(expression@);
    }
    let reference = slice_chars(&expression, start, expression.len());
    proof {
        assert(reference@ =~= expression@.skip(start as int));
    }
    let mut segments: Vec<String> = Vec::new();
    let mut current: Vec<char> = Vec::new();
    let mut dotted = false;
    let mut i: usize = 0;
    proof {
        assert(reference@.take(0) =~= Seq::<char>::empty());
    }
    while i < reference.len()
        invariant
            i <= reference.len(),
            segments@.map_values(|s: String| s@).push(current@) == dot_segments(reference@.take(i as int)),
            dotted == reference@.take(i as int).contains('.'),
        decreases reference.len() - i,
    {
        let c = reference[i];
        let ghost before = segments@.map_values(|s: String| s@);
        let ghost cur = current@;
        proof {
            assert(reference@.take(i + 1).drop_last() =~= reference@.take(i as int));
            lemma_segments_len(reference@.take(i as int));
        }
        if c == '.' {
            let finished = string_of(&current);
            segments.push(finished);
            current = Vec::new();
            dotted = true;
            proof {
                assert(segments@.map_values(|s: String| s@) =~= before.push(cur));
                assert(segments@.map_values(|s: String| s@).push(current@) =~= before.push(cur).push(Seq::<char>::empty()));
                assert(reference@.take(i + 1)[i as int] == '.');
            }
        } else {
            current.push(c);
            proof {
                assert(before.push(cur).update(before.len() as int, cur.push(c)) =~= before.push(cur.push(c)));
                let t = reference@.take(i + 1);
                if t.contains('.') {
                    let w = choose|w: int| 0 <= w < t.len() && #[trigger] t[w] == '.';
                    assert(reference@.take(i as int)[w] == '.');
                }
            }
        }
        i = i + 1;
    }
    proof {
        assert(reference@.take(i as int) =~= reference@);
    }
    if !dotted {
        return ExpressionContext::Expression;
    }
    proof {
        assert(segments@.map_values(|s: String| s@) =~= dot_segments(reference@).drop_last());
    }
    ExpressionContext::Member { path: segments }
}


// ---- lines read from their text ---------------------------------------------------

/// What a line read from its text asks for.
#[derive(Debug, PartialEq, Eq)]
pub enum LineContext {
    /// Nothing can be suggested.
    Nothing,
    /// A `from`/`use` module specifier: what is typed of it, and the index of
    /// the character where it starts in the line.
    ModulePath { typed: String, start: usize },
    /// The name list of `from PATH import ...`: the specifier, which the
    /// caller resolves to a module, and the names the list already has.
    ImportNames { specifier: String, listed: Vec<String> },
    /// After a complete `from PATH`, where `import` or `export` belongs.
    ImportVerb,
    /// The start of an indented line: a property key.
    PropertyKey,
    /// The start of a top-level line.
    Declaration { after_export: bool, after_abstract: bool },
}

pub enum LineContextView {
    Nothing,
    ModulePath { typed: Seq<char>, start: int },
    ImportNames { specifier: Seq<char>, listed: Seq<Seq<char>> },
    ImportVerb,
    PropertyKey,
    Declaration { after_export: bool, after_abstract: bool },
}

impl View for LineContext {
    type V = LineContextView;

    open spec fn view(&self) -> LineContextView {
        match self {
            LineContext::Nothing => LineContextView::Nothing,
            LineContext::ModulePath { typed, start } => LineContextView::ModulePath {
                typed: typed@,
                start: *start as int,
            },
            LineContext::ImportNames { specifier, listed } => LineContextView::ImportNames {
                specifier: specifier@,
                listed: listed@.map_values(|s: String| s@),
            },
            LineContext::ImportVerb => LineContextView::ImportVerb,
            LineContext::PropertyKey => LineContextView::PropertyKey,
            LineContext::Declaration { after_export, after_abstract } => LineContextView::Declaration {
                after_export: *after_export,
                after_abstract: *after_abstract,
            },
        }
    }
}

/// What ends a keyword or a specifier on an import line: a space or a tab.
pub open spec fn blank(c: char) -> bool {
    c == ' ' || c == '\t'
}

/// What follows the keyword `w` at the start of `t`, when it stands there
/// whole: the text ends or a blank comes next.
pub open spec fn keyword_rest(t: Seq<char>, w: Seq<char>) -> Option<Seq<char>> {
    if w.len() <= t.len() && t.take(w.len() as int) == w && (t.len() == w.len() || blank(
        t[w.len() as int],
    )) {
        Some(t.skip(w.len() as int))
    } else {
        None
    }
}

/// The first blank at or after index `i`.
pub open spec fn blank_from(cs: Seq<char>, i: int) -> Option<int>
    decreases cs.len() - i,
{
    if i < 0 || i >= cs.len() {
        None
    } else if blank(cs[i]) {
        Some(i)
    } else {
        blank_from(cs, i + 1)
    }
}

/// The pieces of a text between its commas, as `str::split(',')` yields them.
pub open spec fn comma_pieces(cs: Seq<char>) -> Seq<Seq<char>>
    decreases cs.len(),
{
    if cs.len() == 0 {
        seq![Seq::<char>::empty()]
    } else {
        let rest = comma_pieces(cs.drop_last());
        if cs.last() == ',' {
            rest.push(Seq::<char>::empty())
        } else {
            rest.update(rest.len() - 1, rest.last().push(cs.last()))
        }
    }
}

/// The first word of each piece that has one.
pub open spec fn first_words(pieces: Seq<Seq<char>>) -> Seq<Seq<char>>
    decreases pieces.len(),
{
    if pieces.len() == 0 {
        Seq::empty()
    } else {
        let rest = first_words(pieces.drop_last());
        let ws = words(pieces.last());
        if ws.len() > 0 {
            rest.push(ws[0])
        } else {
            rest
        }
    }
}

/// The names an import list already has: the first word of each piece
/// between commas, less the last one found unless a comma ends the list, for
/// that is the name being typed.
pub open spec fn listed_of(names: Seq<char>) -> Seq<Seq<char>> {
    let firsts = first_words(comma_pieces(names));
    let t = trim_end(names);
    if (t.len() > 0 && t.last() == ',') || firsts.len() == 0 {
        firsts
    } else {
        firsts.drop_last()
    }
}

/// What follows `from` or `use` on a line, with `consumed` characters of the
/// line before it: until a blank ends the specifier it is still being typed;
/// after a `use` specifier nothing follows; after a `from` one comes the
/// verb, and after the verb the names.
pub open spec fn import_rest_of(rest: Seq<char>, consumed: int, is_from: bool) -> LineContextView {
    let typed = trim_start(rest);
    match blank_from(typed, 0) {
        None => LineContextView::ModulePath {
            typed,
            start: consumed + (rest.len() - typed.len()),
        },
        Some(end) => if !is_from {
            LineContextView::Nothing
        } else {
            let tail = trim_start(typed.skip(end));
            let specifier = typed.take(end);
            match keyword_rest(tail, import_word()) {
                Some(names) => LineContextView::ImportNames { specifier, listed: listed_of(names) },
                None => match keyword_rest(tail, export_word()) {
                    Some(names) => LineContextView::ImportNames {
                        specifier,
                        listed: listed_of(names),
                    },
                    None => if tail.len() == 0 {
                        LineContextView::ImportVerb
                    } else {
                        LineContextView::Nothing
                    },
                },
            }
        },
    }
}

/// A `from` or `use` line read from its text, which does not parse while it
/// is half typed; `None` for any other line.
pub open spec fn import_line_of(prefix: Seq<char>) -> Option<LineContextView> {
    let body = trim_start(prefix);
    let indent = prefix.len() - body.len();
    match keyword_rest(body, from_word()) {
        Some(rest) => Some(import_rest_of(rest, indent + 4, true)),
        None => match keyword_rest(body, use_word()) {
            Some(rest) => Some(import_rest_of(rest, indent + 3, false)),
            None => None,
        },
    }
}

/// Where the run of name characters at the end of `cs` begins.
pub open spec fn name_run_start(cs: Seq<char>) -> int
    decreases cs.len(),
{
    if cs.len() == 0 || !name_char(cs.last()) {
        cs.len() as int
    } else {
        name_run_start(cs.drop_last())
    }
}

/// `export abstract`, as one head.
pub open spec fn export_abstract() -> Seq<char> {
    export_word() + seq![' '] + abstract_word()
}

/// A line with only whitespace, or a partial word, before the cursor: on an
/// indented line a key goes there, unless the line is inside a run of prose;
/// on a top-level line a declaration, after what modifiers were written.
pub open spec fn line_start_context_of(prefix: Seq<char>, in_prose: bool) -> LineContextView {
    let head = trim(prefix.take(name_run_start(prefix)));
    let indented = prefix.len() > 0 && blank(prefix[0]);
    if head.len() == 0 {
        if !indented {
            LineContextView::Declaration { after_export: false, after_abstract: false }
        } else if in_prose {
            LineContextView::Nothing
        } else {
            LineContextView::PropertyKey
        }
    } else if !indented && head == export_word() {
        LineContextView::Declaration { after_export: true, after_abstract: false }
    } else if !indented && (head == abstract_word() || head == export_abstract()) {
        LineContextView::Declaration { after_export: false, after_abstract: true }
    } else {
        LineContextView::Nothing
    }
}

proof fn lemma_pieces_len(cs: Seq<char>)
    ensures
        comma_pieces(cs).len() >= 1,
    decreases cs.len(),
{
    if cs.len() > 0 {
        lemma_pieces_len(cs.drop_last());
    }
}

proof fn lemma_blank_from(cs: Seq<char>, i: int)
    requires
        0 <= i,
    ensures
        match blank_from(cs, i) {
            Some(j) => i <= j < cs.len() && blank(cs[j]),
            None => true,
        },
    decreases cs.len() - i,
{
    if i < cs.len() && !blank(cs[i]) {
        lemma_blank_from(cs, i + 1);
    }
}

proof fn lemma_name_run_start(cs: Seq<char>)
    ensures
        0 <= name_run_start(cs) <= cs.len(),
    decreases cs.len(),
{
    if cs.len() > 0 && name_char(cs.last()) {
        lemma_name_run_start(cs.drop_last());
    }
}

/// Whether `t` begins with the keyword `w` standing whole.
fn begins_with_keyword(t: &[char], w: &[char]) -> (r: bool)
    ensures
        r == keyword_rest(t@, w@) is Some,
{
    if w.len() > t.len() {
        return false;
    }
    let mut i: usize = 0;
    while i < w.len()
        invariant
            w.len() <= t.len(),
            i <= w.len(),
            t@.take(i as int) == w@.take(i as int),
        decreases w.len() - i,
    {
        if t[i] != w[i] {
            proof {
                assert(t@.take(w.len() as int)[i as int] != w@[i as int]);
            }
            return false;
        }
        i = i + 1;
        proof {
            assert(t@.take(i as int) =~= w@.take(i as int));
        }
    }
    proof {
        assert(w@.take(w.len() as int) =~= w@);
    }
    w.len() == t.len() || t[w.len()] == ' ' || t[w.len()] == '\t'
}

/// The first blank at or after `from`.
fn find_blank(cs: &[char], from: usize) -> (r: Option<usize>)
    requires
        from <= cs.len(),
    ensures
        r == match blank_from(cs@, from as int) {
            Some(i) => Some(i as usize),
            None => None::<usize>,
        },
        match r {
            Some(i) => from <= i < cs.len(),
            None => true,
        },
{
    let mut i = from;
    while i < cs.len()
        invariant
            from <= i <= cs.len(),
            blank_from(cs@, from as int) == blank_from(cs@, i as int),
        decreases cs.len() - i,
    {
        if cs[i] == ' ' || cs[i] == '\t' {
            return Some(i);
        }
        i = i + 1;
    }
    None
}

/// The pieces of `cs` between its commas.
pub(crate) fn split_commas(cs: &[char]) -> (out: Vec<Vec<char>>)
    ensures
        out@.map_values(|v: Vec<char>| v@) == comma_pieces(cs@),
{
    let mut out: Vec<Vec<char>> = Vec::new();
    let mut current: Vec<char> = Vec::new();
    let mut i: usize = 0;
    proof {
        assert(cs@.take(0) =~= Seq::<char>::empty());
        assert(out@.map_values(|v: Vec<char>| v@).push(current@) =~= seq![Seq::<char>::empty()]);
    }
    while i < cs.len()
        invariant
            i <= cs.len(),
            out@.map_values(|v: Vec<char>| v@).push(current@) == comma_pieces(cs@.take(i as int)),
        decreases cs.len() - i,
    {
        let c = cs[i];
        let ghost before = out@.map_values(|v: Vec<char>| v@);
        let ghost cur = current@;
        proof {
            assert(cs@.take(i + 1).drop_last() =~= cs@.take(i as int));
            lemma_pieces_len(cs@.take(i as int));
        }
        if c == ',' {
            out.push(current);
            current = Vec::new();
            proof {
                assert(out@.map_values(|v: Vec<char>| v@) =~= before.push(cur));
                assert(out@.map_values(|v: Vec<char>| v@).push(current@) =~= before.push(cur).push(Seq::<char>::empty()));
            }
        } else {
            current.push(c);
            proof {
                assert(before.push(cur).update(before.len() as int, cur.push(c)) =~= before.push(cur.push(c)));
            }
        }
        i = i + 1;
    }
    proof {
        assert(cs@.take(i as int) =~= cs@);
    }
    let ghost before = out@.map_values(|v: Vec<char>| v@);
    let ghost cur = current@;
    out.push(current);
    proof {
        assert(out@.map_values(|v: Vec<char>| v@) =~= before.push(cur));
    }
    out
}

/// The names an import list already has.
fn listed_names(names: &[char]) -> (out: Vec<String>)
    ensures
        out@.map_values(|s: String| s@) == listed_of(names@),
{
    let pieces = split_commas(names);
    let ghost ps = comma_pieces(names@);
    let mut out: Vec<String> = Vec::new();
    let mut k: usize = 0;
    proof {
        assert(pieces@.len() == ps.len());
        assert(ps.take(0) =~= Seq::<Seq<char>>::empty());
        assert(out@.map_values(|s: String| s@) =~= Seq::<Seq<char>>::empty());
    }
    while k < pieces.len()
        invariant
            k <= pieces.len(),
            pieces@.map_values(|v: Vec<char>| v@) == ps,
            ps == comma_pieces(names@),
            out@.map_values(|s: String| s@) == first_words(ps.take(k as int)),
        decreases pieces.len() - k,
    {
        let ws = split_words(&pieces[k]);
        let ghost before = out@.map_values(|s: String| s@);
        proof {
            assert(ps.take(k + 1).drop_last() =~= ps.take(k as int));
            assert(ps.take(k + 1).last() == ps[k as int]);
            assert(ps[k as int] == pieces@[k as int]@);
        }
        if ws.len() > 0 {
            out.push(string_of(&ws[0]));
            proof {
                assert(out@.map_values(|s: String| s@) =~= before.push(ws@[0]@));
            }
        }
        k = k + 1;
    }
    proof {
        assert(ps.take(k as int) =~= ps);
    }
    let j = end_of_text(names, 0);
    proof {
        assert(names@.subrange(0, names@.len() as int) =~= names@);
    }
    let comma_ends = j > 0 && names[j - 1] == ',';
    if !comma_ends && out.len() > 0 {
        let ghost before = out@.map_values(|s: String| s@);
        out.pop();
        proof {
            assert(out@.map_values(|s: String| s@) =~= before.drop_last());
        }
    }
    out
}

/// What follows `from` or `use` on a line.
fn import_rest(rest: &[char], consumed: usize, is_from: bool) -> (c: LineContext)
    requires
        consumed + rest.len() <= usize::MAX,
    ensures
        c@ == import_rest_of(rest@, consumed as int, is_from),
{
    let s = skip_spaces(rest, 0);
    let typed = slice_chars(rest, s, rest.len());
    proof {
        assert(rest@.subrange(0, rest@.len() as int) =~= rest@);
    }
    match find_blank(&typed, 0) {
        None => LineContext::ModulePath { typed: string_of(&typed), start: consumed + s },
        Some(end) => {
            if !is_from {
                return LineContext::Nothing;
            }
            proof {
                lemma_blank_from(typed@, 0);
                assert(blank_from(typed@, 0) == Some(end as int));
            }
            let specifier = slice_chars(&typed, 0, end);
            let t0 = skip_spaces(&typed, end);
            let tail = slice_chars(&typed, t0, typed.len());
            proof {
                assert(specifier@ =~= typed@.take(end as int));
                assert(typed@.subrange(end as int, typed@.len() as int) =~= typed@.skip(end as int));
            }
            let import_w = vec!['i', 'm', 'p', 'o', 'r', 't'];
            let export_w = vec!['e', 'x', 'p', 'o', 'r', 't'];
            proof {
                assert(import_w@ =~= import_word());
                assert(export_w@ =~= export_word());
            }
            if begins_with_keyword(&tail, &import_w) {
                let names = slice_chars(&tail, 6, tail.len());
                let listed = listed_names(&names);
                let spec_text = string_of(&specifier);
                proof {
                    assert(names@ =~= tail@.skip(6));
                    assert(import_word().len() == 6);
                    assert(keyword_rest(tail@, import_word()) == Some(names@));
                }
                let c = LineContext::ImportNames { specifier: spec_text, listed };
                proof {
                    assert(c@ == LineContextView::ImportNames { specifier: typed@.take(end as int), listed: listed_of(names@) });
                }
                return c;
            }
            if begins_with_keyword(&tail, &export_w) {
                let names = slice_chars(&tail, 6, tail.len());
                let listed = listed_names(&names);
                let spec_text = string_of(&specifier);
                proof {
                    assert(names@ =~= tail@.skip(6));
                    assert(export_word().len() == 6);
                    assert(keyword_rest(tail@, export_word()) == Some(names@));
                }
                let c = LineContext::ImportNames { specifier: spec_text, listed };
                proof {
                    assert(c@ == LineContextView::ImportNames { specifier: typed@.take(end as int), listed: listed_of(names@) });
                }
                return c;
            }
            if tail.len() == 0 {
                LineContext::ImportVerb
            } else {
                LineContext::Nothing
            }
        },
    }
}

/// Reads a `from`/`use` line straight from the text before the cursor: such
/// a line does not parse while it is half typed, which is exactly when
/// completion runs. `None` when the line is not one, so the tree decides;
/// the caller does the same when an import list's specifier names no module.
pub fn import_line_context(prefix: &str) -> (r: Option<LineContext>)
    ensures
        match r {
            Some(c) => import_line_of(prefix@) == Some(c@),
            None => import_line_of(prefix@) is None,
        },
{
    let cs = chars_of(prefix);
    let b = skip_spaces(&cs, 0);
    let body = slice_chars(&cs, b, cs.len());
    proof {
        assert(cs@.subrange(0, cs@.len() as int) =~= cs@);
    }
    let from_w = vec!['f', 'r', 'o', 'm'];
    let use_w = vec!['u', 's', 'e'];
    proof {
        assert(from_w@ =~= from_word());
        assert(use_w@ =~= use_word());
    }
    if begins_with_keyword(&body, &from_w) {
        let rest = slice_chars(&body, 4, body.len());
        proof {
            assert(rest@ =~= body@.skip(4));
        }
        return Some(import_rest(&rest, b + 4, true));
    }
    if begins_with_keyword(&body, &use_w) {
        let rest = slice_chars(&body, 3, body.len());
        proof {
            assert(rest@ =~= body@.skip(3));
        }
        return Some(import_rest(&rest, b + 3, false));
    }
    None
}

/// Reads a line that has only whitespace, or a partial word, before the
/// cursor; `in_prose` says whether the line is inside a run of prose, where
/// a word is a word and never a key.
pub fn line_start_context(prefix: &str, in_prose: bool) -> (c: LineContext)
    ensures
        c@ == line_start_context_of(prefix@, in_prose),
{
    let cs = chars_of(prefix);
    let mut k = cs.len();
    proof {
        assert(cs@.take(k as int) =~= cs@);
    }
    while k > 0 && (is_alphanumeric(cs[k - 1]) || cs[k - 1] == '_' || cs[k - 1] == '-')
        invariant
            k <= cs.len(),
            name_run_start(cs@) == name_run_start(cs@.take(k as int)),
        decreases k,
    {
        proof {
            assert(cs@.take(k as int).drop_last() =~= cs@.take(k - 1));
        }
        k = k - 1;
    }
    proof {
        if k > 0 {
            assert(cs@.take(k as int).last() == cs@[k - 1]);
        }
        lemma_name_run_start(cs@);
    }
    let before = slice_chars(&cs, 0, k);
    let head = trim_chars(&before);
    let indented = cs.len() > 0 && (cs[0] == ' ' || cs[0] == '\t');
    let export_w = vec!['e', 'x', 'p', 'o', 'r', 't'];
    let abstract_w = vec!['a', 'b', 's', 't', 'r', 'a', 'c', 't'];
    let both = vec!['e', 'x', 'p', 'o', 'r', 't', ' ', 'a', 'b', 's', 't', 'r', 'a', 'c', 't'];
    proof {
        assert(before@ =~= cs@.take(k as int));
        assert(export_w@ =~= export_word());
        assert(abstract_w@ =~= abstract_word());
        assert(both@ =~= export_abstract());
    }
    if head.len() == 0 {
        if !indented {
            LineContext::Declaration { after_export: false, after_abstract: false }
        } else if in_prose {
            LineContext::Nothing
        } else {
            LineContext::PropertyKey
        }
    } else if !indented && chars_eq(&head, &export_w) {
        LineContext::Declaration { after_export: true, after_abstract: false }
    } else if !indented && (chars_eq(&head, &abstract_w) || chars_eq(&head, &both)) {
        LineContext::Declaration { after_export: false, after_abstract: true }
    } else {
        LineContext::Nothing
    }
}

proof fn lemma_whole_reference(r: Seq<char>)
    requires
        forall|k: int| 0 <= k < r.len() ==> {
            let c = #[trigger] r[k];
            alphanumeric(c) || c == '_' || c == '-' || c == '.'
        },
    ensures
        reference_start(r) == 0,
    decreases r.len(),
{
    if r.len() > 0 {
        assert(r[r.len() - 1] == r.last());
        assert forall|k: int| 0 <= k < r.drop_last().len() implies {
            let c = #[trigger] r.drop_last()[k];
            alphanumeric(c) || c == '_' || c == '-' || c == '.'
        } by {
            assert(r.drop_last()[k] == r[k]);
        }
        lemma_whole_reference(r.drop_last());
    }
}

proof fn lemma_last_brace(before: Seq<char>, r: Seq<char>)
    requires
        !r.contains('{'),
    ensures
        crate::lsp::features::last_index_of(before + seq!['{'] + r, '{') == Some(before.len() as int),
    decreases r.len(),
{
    if r.len() == 0 {
        assert(before + seq!['{'] + r =~= before.push('{'));
    } else {
        assert((before + seq!['{'] + r).drop_last() =~= before + seq!['{'] + r.drop_last());
        assert(r[r.len() - 1] == r.last());
        assert(!r.drop_last().contains('{')) by {
            if r.drop_last().contains('{') {
                let k = choose|k: int| 0 <= k < r.drop_last().len() && r.drop_last()[k] == '{';
                assert(r[k] == '{');
            }
        }
        lemma_last_brace(before, r.drop_last());
    }
}

/// The member path of an expression is the whole reference written after the
/// last `{`, up to its last dot: when everything after the `{` is name
/// characters (letters, digits, `_`, `-`) and dots, holding a dot, the path is
/// every dot-separated piece of it but the last, the name being typed.
pub proof fn lemma_member_path_whole(before: Seq<char>, r: Seq<char>)
    requires
        forall|k: int| 0 <= k < r.len() ==> {
            let c = #[trigger] r[k];
            alphanumeric(c) || c == '_' || c == '-' || c == '.'
        },
        !r.contains('{'),
        r.contains('.'),
    ensures
        expression_context_of(before + seq!['{'] + r) == Some(dot_segments(r).drop_last()),
{
    let p = before + seq!['{'] + r;
    lemma_last_brace(before, r);
    assert(p.skip(before.len() as int + 1) =~= r);
    lemma_whole_reference(r);
    assert(r.skip(0) =~= r);
}

/// Without a `{`, the member path is the whole reference at the end of the
/// line, up to its last dot, when what comes before it is not a name
/// character or a dot.
pub proof fn lemma_member_path_unbraced(before: Seq<char>, r: Seq<char>)
    requires
        forall|k: int| 0 <= k < r.len() ==> {
            let c = #[trigger] r[k];
            alphanumeric(c) || c == '_' || c == '-' || c == '.'
        },
        !(before + r).contains('{'),
        r.contains('.'),
        before.len() == 0 || !(alphanumeric(before.last()) || before.last() == '_' || before.last() == '-'
            || before.last() == '.'),
    ensures
        expression_context_of(before + r) == Some(dot_segments(r).drop_last()),
{
    let p = before + r;
    lemma_no_brace(p);
    lemma_reference_tail(before, r);
    assert(p.skip(before.len() as int) =~= r);
}

proof fn lemma_no_brace(p: Seq<char>)
    requires
        !p.contains('{'),
    ensures
        crate::lsp::features::last_index_of(p, '{') is None,
    decreases p.len(),
{
    if p.len() > 0 {
        assert(p[p.len() - 1] == p.last());
        assert(!p.drop_last().contains('{')) by {
            if p.drop_last().contains('{') {
                let k = choose|k: int| 0 <= k < p.drop_last().len() && p.drop_last()[k] == '{';
                assert(p[k] == '{');
            }
        }
        lemma_no_brace(p.drop_last());
    }
}

proof fn lemma_reference_tail(before: Seq<char>, r: Seq<char>)
    requires
        forall|k: int| 0 <= k < r.len() ==> {
            let c = #[trigger] r[k];
            alphanumeric(c) || c == '_' || c == '-' || c == '.'
        },
        before.len() == 0 || !(alphanumeric(before.last()) || before.last() == '_' || before.last() == '-'
            || before.last() == '.'),
    ensures
        reference_start(before + r) == before.len(),
    decreases r.len(),
{
    if r.len() == 0 {
        assert(before + r =~= before);
    } else {
        assert((before + r).drop_last() =~= before + r.drop_last());
        assert((before + r).last() == r[r.len() - 1]);
        assert forall|k: int| 0 <= k < r.drop_last().len() implies {
            let c = #[trigger] r.drop_last()[k];
            alphanumeric(c) || c == '_' || c == '-' || c == '.'
        } by {
            assert(r.drop_last()[k] == r[k]);
        }
        lemma_reference_tail(before, r.drop_last());
    }
}

} // verus!
