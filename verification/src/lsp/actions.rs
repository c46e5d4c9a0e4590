//! Reading what a compiler message names, and where an action's edit goes.
use vstd::prelude::*;

use crate::lsp::ambiguity::span_holds;
use crate::lsp::convert::{boundary_index, char_index, offset_to_position, on_boundary, position_of, Position, Range};
use crate::lsp::diff::{edit_view, TextEdit};
use crate::lsp::features::{bytes_before, index_from};
use crate::lsp::line_index::TextRange;
use crate::fmt::{join_sep, push_joined, texts};
use crate::lsp::convert::Span;
use crate::text::{
    byte_len, chars_of, end_of_text, lines, lines_of, push_str, skip_spaces, slice_chars, str_eq, str_len,
    string_of, trim, trim_end, trim_start,
};

verus! {

/// The text between the first two backticks of a message, if it has two.
pub open spec fn first_quoted(m: Seq<char>) -> Option<Seq<char>> {
    if exists|i: int, j: int|
        0 <= i < j < m.len() && m[i] == '`' && m[j] == '`' {
        let i = choose|i: int| 0 <= i < m.len() && m[i] == '`' && forall|k: int| 0 <= k < i ==> m[k] != '`';
        let j = choose|j: int|
            i < j < m.len() && m[j] == '`' && forall|k: int| i < k < j ==> m[k] != '`';
        Some(m.subrange(i + 1, j))
    } else {
        None
    }
}

/// The first backtick-quoted name in a compiler message.
pub fn quoted(message: &str) -> (name: Option<String>)
    ensures
        match first_quoted(message@) {
            Some(q) => name matches Some(n) && n@ == q,
            None => name is None,
        },
{
    let m = chars_of(message);
    let mut i: usize = 0;
    while i < m.len() && m[i] != '`'
        invariant
            i <= m.len(),
            forall|k: int| 0 <= k < i ==> m@[k] != '`',
        decreases m.len() - i,
    {
        i = i + 1;
    }
    if i == m.len() {
        return None;
    }
    let mut j = i + 1;
    while j < m.len() && m[j] != '`'
        invariant
            i < j <= m.len(),
            forall|k: int| i < k < j ==> m@[k] != '`',
        decreases m.len() - j,
    {
        j = j + 1;
    }
    proof {
        let s = message@;
        assert(s == m@);
        let fi = choose|a: int| 0 <= a < s.len() && s[a] == '`' && forall|k: int| 0 <= k < a ==> s[k] != '`';
        if fi < i {
        } else if fi > i {
            assert(s[i as int] == '`');
        }
        assert(fi == i);
    }
    if j == m.len() {
        return None;
    }
    proof {
        let s = message@;
        assert(exists|a: int, b: int| 0 <= a < b < s.len() && s[a] == '`' && s[b] == '`') by {
            assert(s[i as int] == '`' && s[j as int] == '`');
        }
        let fj = choose|b: int|
            i < b < s.len() && s[b] == '`' && forall|k: int| i < k < b ==> s[k] != '`';
        if fj < j {
        } else if fj > j {
            assert(s[j as int] == '`');
        }
    }
    Some(string_of(&slice_chars(&m, i + 1, j)))
}


/// The width of a line's leading whitespace, in bytes.
pub open spec fn leading_width(line: Seq<char>) -> int {
    byte_len(line) - byte_len(trim_start(line))
}

/// The index of the first line after the first one that holds anything.
pub open spec fn first_content_from(ls: Seq<Seq<char>>, k: int) -> Option<int>
    decreases ls.len() - k,
{
    if k < 0 || k >= ls.len() {
        None
    } else if trim(ls[k]).len() > 0 {
        Some(k)
    } else {
        first_content_from(ls, k + 1)
    }
}

/// The indentation an anchor's body uses: that of the first line after the
/// declaration's own that holds anything, or the canonical four.
pub open spec fn body_indent_of(body: Seq<char>) -> int {
    let ls = lines_of(body);
    match first_content_from(ls, 1) {
        Some(k) => if leading_width(ls[k]) > 0 {
            leading_width(ls[k])
        } else {
            4
        },
        None => 4,
    }
}

/// The characters a byte range covers, its end clamped to the text.
pub open spec fn covered(cs: Seq<char>, range: TextRange) -> Seq<char> {
    let e = if range.end < byte_len(cs) { range.end as int } else { byte_len(cs) as int };
    cs.subrange(boundary_index(cs, range.start as int) as int, boundary_index(cs, e) as int)
}

/// A range whose ends fall between characters, its start no later than its
/// clamped end.
pub open spec fn range_in(cs: Seq<char>, range: TextRange) -> bool {
    let e = if range.end < byte_len(cs) { range.end as int } else { byte_len(cs) as int };
    &&& range.start <= e
    &&& on_boundary(cs, range.start as int)
    &&& on_boundary(cs, e)
}

proof fn lemma_covered(cs: Seq<char>, range: TextRange)
    requires
        range_in(cs, range),
    ensures
        ({
            let e = if range.end < byte_len(cs) { range.end as int } else { byte_len(cs) as int };
            boundary_index(cs, range.start as int) <= boundary_index(cs, e) <= cs.len()
        }),
{
    let e = if range.end < byte_len(cs) { range.end as int } else { byte_len(cs) as int };
    crate::fmt::lemma_boundary_mono(cs, range.start as int, e);
    crate::lsp::convert::lemma_boundary_index_bound(cs, e);
}

fn clamped_chars(text: &str, range: TextRange) -> (out: (Vec<char>, usize, usize))
    requires
        range_in(text@, range),
    ensures
        out.0@ == text@,
        out.1 == boundary_index(text@, range.start as int),
        out.2 == boundary_index(text@, if range.end < byte_len(text@) { range.end as int } else { byte_len(text@) as int }),
        out.1 <= out.2 <= text@.len(),
{
    let cs = chars_of(text);
    let total = crate::text::str_len(text);
    let e = if (range.end as usize) < total {
        range.end as usize
    } else {
        total
    };
    let a = char_index(&cs, range.start as usize);
    let b = char_index(&cs, e);
    proof {
        lemma_covered(text@, range);
    }
    (cs, a, b)
}

/// The indentation an anchor's body uses, defaulting to the canonical four.
pub fn body_indent(text: &str, range: TextRange) -> (width: usize)
    requires
        range_in(text@, range),
    ensures
        width == body_indent_of(covered(text@, range)),
{
    let (cs, a, b) = clamped_chars(text, range);
    let body = slice_chars(&cs, a, b);
    let ls = lines(&body);
    proof {
        assert(body@ == covered(text@, range));
    }
    let ghost all = lines_of(body@);
    let mut k: usize = 1;
    while k < ls.len()
        invariant
            1 <= k,
            ls@.len() == all.len(),
            forall|m: int| 0 <= m < ls@.len() ==> #[trigger] ls@[m]@ == all[m],
            first_content_from(all, k as int) == first_content_from(all, 1),
            body@ == covered(text@, range),
            all == lines_of(body@),
        decreases ls.len() - k,
    {
        let line = &ls[k];
        let from = skip_spaces(line, 0);
        let to = crate::text::end_of_text(line, from);
        proof {
            assert(ls@[k as int]@ == all[k as int]);
            assert(line@.subrange(0, line@.len() as int) =~= line@);
        }
        if from < to {
            let whole = string_of(line);
            let rest = slice_chars(line, from, line.len());
            let rest_text = string_of(&rest);
            let w_all = crate::text::str_len(whole.as_str());
            let w_rest = crate::text::str_len(rest_text.as_str());
            proof {
                assert(line@ =~= line@.take(from as int) + rest@);
                crate::text::lemma_byte_len_concat(line@.take(from as int), rest@);
                assert(leading_width(all[k as int]) == w_all - w_rest);
            }
            let width = w_all - w_rest;
            return if width > 0 {
                width
            } else {
                4
            };
        }
        k = k + 1;
    }
    proof {
        if k < all.len() {
        }
    }
    4
}

/// Just after the last line of a range that holds anything: past the line
/// break that ends it, or at the end of the text.
pub open spec fn end_of_content_of(cs: Seq<char>, range: TextRange) -> int {
    let start = boundary_index(cs, range.start as int) as int;
    let content_end = start + trim_end(covered(cs, range)).len();
    match index_from(cs, '\n', content_end) {
        Some(j) => byte_len(cs.take(j + 1)) as int,
        None => byte_len(cs.take(content_end)) as int,
    }
}

/// Where what is added to a declaration goes: after its last line that holds
/// anything, before the blank lines a declaration can end with.
pub fn end_of_content(text: &str, range: TextRange) -> (at: usize)
    requires
        range_in(text@, range),
    ensures
        at == end_of_content_of(text@, range),
{
    let (cs, a, b) = clamped_chars(text, range);
    let _ = crate::text::str_len(text);
    let body = slice_chars(&cs, a, b);
    let kept = crate::text::end_of_text(&body, 0);
    proof {
        assert(body@.subrange(0, body@.len() as int) =~= body@);
    }
    let content_end = a + kept;
    let mut j = content_end;
    while j < cs.len() && cs[j] != '\n'
        invariant
            content_end <= j <= cs.len(),
            index_from(cs@, '\n', j as int) == index_from(cs@, '\n', content_end as int),
        decreases cs.len() - j,
    {
        j = j + 1;
    }
    if j < cs.len() {
        bytes_before(&cs, j + 1)
    } else {
        bytes_before(&cs, content_end)
    }
}


// ---- rewriting an extends clause ---------------------------------------------------------

/// The last index at or before `i` where `w` is written in `cs`.
pub open spec fn last_written(cs: Seq<char>, w: Seq<char>, i: int) -> Option<int>
    decreases i + 1,
{
    if i < 0 {
        None
    } else if i + w.len() <= cs.len() && cs.subrange(i, i + w.len()) == w {
        Some(i)
    } else {
        last_written(cs, w, i - 1)
    }
}

/// The edit that makes an `extends` list read `order`, given where the list
/// is written (from its first name to its last): the names joined by commas;
/// or, with no names left, the clause taken out, keyword and the space before
/// it included. No list, or no keyword before it, gives no edit.
pub open spec fn extends_rewrite_of(cs: Seq<char>, list: Option<Span>, order: Seq<Seq<char>>) -> Option<(Span, Seq<char>)> {
    match list {
        None => None,
        Some(span) => if order.len() > 0 {
            Some((span, join_sep(order, ", "@)))
        } else {
            let before = cs.take(boundary_index(cs, span.start as int) as int);
            match last_written(before, "extends"@, before.len() - 7) {
                None => None,
                Some(k) => Some((Span { start: byte_len(trim_end(cs.take(k))) as usize, end: span.end }, Seq::empty())),
            }
        },
    }
}

proof fn lemma_last_written(cs: Seq<char>, w: Seq<char>, i: int)
    ensures
        match last_written(cs, w, i) {
            Some(k) => 0 <= k <= i && k + w.len() <= cs.len(),
            None => true,
        },
    decreases i + 1,
{
    if i >= 0 && !(i + w.len() <= cs.len() && cs.subrange(i, i + w.len()) == w) {
        lemma_last_written(cs, w, i - 1);
    }
}

fn written_at(cs: &Vec<char>, i: usize, w: &Vec<char>) -> (r: bool)
    requires
        i + w@.len() <= cs@.len(),
    ensures
        r == (cs@.subrange(i as int, i + w@.len()) == w@),
{
    let mut m: usize = 0;
    while m < w.len()
        invariant
            m <= w@.len(),
            i + w@.len() <= cs@.len(),
            cs@.len() == cs.len(),
            cs@.subrange(i as int, i + m) == w@.take(m as int),
        decreases w@.len() - m,
    {
        if cs[i + m] != w[m] {
            proof {
                assert(cs@.subrange(i as int, i + w@.len())[m as int] != w@[m as int]);
            }
            return false;
        }
        m = m + 1;
        assert(cs@.subrange(i as int, i + m) =~= w@.take(m as int));
    }
    assert(w@.take(w@.len() as int) =~= w@);
    true
}

fn last_written_exec(cs: &Vec<char>, w: &Vec<char>) -> (r: Option<usize>)
    ensures
        r == match last_written(cs@, w@, cs@.len() - w@.len()) {
            Some(k) => Some(k as usize),
            None => None::<usize>,
        },
{
    if w.len() > cs.len() {
        return None;
    }
    let mut i: usize = cs.len() - w.len();
    loop
        invariant
            i + w@.len() <= cs@.len(),
            last_written(cs@, w@, cs@.len() - w@.len()) == last_written(cs@, w@, i as int),
        decreases i,
    {
        if written_at(cs, i, w) {
            return Some(i);
        }
        if i == 0 {
            assert(last_written(cs@, w@, -1) is None);
            return None;
        }
        i = i - 1;
    }
}

/// The edit that makes an `extends` list read `order`. The list must start
/// between two characters of the text.
pub fn extends_rewrite(text: &str, list: Option<Span>, order: &Vec<String>) -> (r: Option<(Span, String)>)
    requires
        match list {
            Some(span) => on_boundary(text@, span.start as int),
            None => true,
        },
    ensures
        match (r, extends_rewrite_of(text@, list, texts(order@))) {
            (Some((s, t)), Some((s2, t2))) => s == s2 && t@ == t2,
            (None, None) => true,
            _ => false,
        },
        match r {
            Some((s, _)) => s.end == list->0.end && on_boundary(text@, s.start as int),
            None => true,
        },
{
    let span = match list {
        None => return None,
        Some(span) => span,
    };
    if order.len() > 0 {
        let mut joined = String::new();
        push_joined(&mut joined, order, ", ");
        assert(joined@ =~= join_sep(texts(order@), ", "@));
        return Some((span, joined));
    }
    let cs = chars_of(text);
    let n = str_len(text);
    let ks = char_index(&cs, span.start);
    proof {
        crate::lsp::convert::lemma_boundary_index_bound(cs@, span.start as int);
    }
    let before = slice_chars(&cs, 0, ks);
    assert(before@ =~= cs@.take(ks as int));
    let word = vec!['e', 'x', 't', 'e', 'n', 'd', 's'];
    proof {
        reveal_strlit("extends");
        assert(word@ =~= "extends"@);
    }
    let found = last_written_exec(&before, &word);
    proof {
        lemma_last_written(before@, word@, before@.len() - 7);
    }
    match found {
        None => None,
        Some(k) => {
            let pre = slice_chars(&cs, 0, k);
            let j = end_of_text(&pre, 0);
            proof {
                assert(pre@ =~= cs@.take(k as int));
                assert(pre@.subrange(0, pre@.len() as int) =~= pre@);
                crate::text::lemma_byte_len_concat(cs@.take(j as int), cs@.skip(j as int));
                assert(cs@.take(j as int) + cs@.skip(j as int) =~= cs@);
            }
            let from = bytes_before(&cs, j);
            proof {
                assert(pre@.subrange(0, j as int) =~= cs@.take(j as int));
                crate::lsp::convert::lemma_prefix_on_boundary(cs@, j as int);
            }
            Some((Span { start: from, end: span.end }, String::new()))
        },
    }
}

/// The names but `name`.
pub open spec fn without_of(names: Seq<Seq<char>>, name: Seq<char>) -> Seq<Seq<char>> {
    names.filter(|n: Seq<char>| n != name)
}

/// The `extends` names but `name`.
pub fn without(names: &Vec<String>, name: &str) -> (out: Vec<String>)
    ensures
        texts(out@) == without_of(texts(names@), name@),
{
    let mut out: Vec<String> = Vec::new();
    let ghost all = texts(names@);
    let mut k: usize = 0;
    proof {
        assert(all.take(0).filter(|n: Seq<char>| n != name@) =~= Seq::<Seq<char>>::empty());
    }
    while k < names.len()
        invariant
            k <= names@.len(),
            all == texts(names@),
            texts(out@) == all.take(k as int).filter(|n: Seq<char>| n != name@),
        decreases names@.len() - k,
    {
        let ghost before = texts(out@);
        proof {
            all.take(k as int).lemma_filter_push(all[k as int], |n: Seq<char>| n != name@);
            assert(all.take(k as int).push(all[k as int]) =~= all.take(k + 1));
        }
        if !str_eq(names[k].as_str(), name) {
            out.push(string_of(&chars_of(names[k].as_str())));
            assert(texts(out@) =~= before.push(all[k as int]));
        }
        k = k + 1;
    }
    proof {
        assert(all.take(k as int) =~= all);
    }
    out
}

// ---- quick fixes for what a range touches ------------------------------------------------

/// A name the file uses and nothing binds: where it is written, the name, and
/// the path each module that exports it would be imported by.
pub struct Unresolved {
    pub span: Span,
    pub name: String,
    pub sources: Vec<String>,
}

/// An anchor or variable the file declares: its name, where it is written,
/// and whether it is exported.
pub struct Declared {
    pub name: String,
    pub span: Span,
    pub exported: bool,
}

/// What kind of action the editor is offered.
#[derive(Clone, Copy, Debug, PartialEq, Eq, Structural)]
pub enum ActionKind {
    QuickFix,
    Refactor,
    OrganizeImports,
}

/// An action that inserts text at one place of the file.
#[derive(Clone, Debug, PartialEq, Eq)]
pub struct QuickAction {
    pub title: String,
    pub kind: ActionKind,
    pub edit: TextEdit,
}

/// An action as plain values: its title, its kind, and its edit.
pub open spec fn quick_view(a: QuickAction) -> (Seq<char>, ActionKind, (Position, Position, Seq<char>)) {
    (a.title@, a.kind, edit_view(a.edit))
}

/// The position of byte `o` of the text.
pub open spec fn at_byte(cs: Seq<char>, o: int) -> Position {
    position_of(cs, boundary_index(cs, o) as int)
}

/// Importing `name` from the module written `written`, at byte `at`.
pub open spec fn import_fix_of(cs: Seq<char>, at: int, name: Seq<char>, written: Seq<char>) -> (Seq<char>, ActionKind, (Position, Position, Seq<char>)) {
    (
        "Import `"@ + name + "` from `"@ + written + "`"@,
        ActionKind::QuickFix,
        (at_byte(cs, at), at_byte(cs, at), "from "@ + written + " import "@ + name + "\n"@),
    )
}

/// Declaring an anchor named `name` at the end of the file.
pub open spec fn create_fix_of(cs: Seq<char>, name: Seq<char>) -> (Seq<char>, ActionKind, (Position, Position, Seq<char>)) {
    let end = byte_len(cs) as int;
    (
        "Create anchor `"@ + name + "`"@,
        ActionKind::QuickFix,
        (at_byte(cs, end), at_byte(cs, end), "\nexport anchor "@ + name + ":\n    description:\n"@),
    )
}

/// Exporting the declaration of `name` that starts at byte `start`.
pub open spec fn export_fix_of(cs: Seq<char>, name: Seq<char>, start: int) -> (Seq<char>, ActionKind, (Position, Position, Seq<char>)) {
    ("Export `"@ + name + "`"@, ActionKind::Refactor, (at_byte(cs, start), at_byte(cs, start), "export "@))
}

/// The fixes for one unresolved name that the range from `start` to `end`
/// touches: an import from each module that exports it, then declaring it;
/// none when the range does not touch it.
pub open spec fn fixes_for(cs: Seq<char>, at: int, start: usize, end: usize, u: Unresolved) -> Seq<
    (Seq<char>, ActionKind, (Position, Position, Seq<char>)),
> {
    if u.span.end < start || u.span.start > end {
        Seq::empty()
    } else {
        u.sources@.map_values(|w: String| import_fix_of(cs, at, u.name@, w@)).push(create_fix_of(cs, u.name@))
    }
}

/// The fixes for the first `k` unresolved names, name by name.
pub open spec fn unresolved_fixes(cs: Seq<char>, at: int, start: usize, end: usize, us: Seq<Unresolved>, k: nat) -> Seq<
    (Seq<char>, ActionKind, (Position, Position, Seq<char>)),
>
    decreases k,
{
    if k == 0 || k > us.len() {
        Seq::empty()
    } else {
        unresolved_fixes(cs, at, start, end, us, (k - 1) as nat) + fixes_for(cs, at, start, end, us[k - 1])
    }
}

/// The offers to export, among the first `k` declarations, each one that is
/// not exported and that holds the start or the end of the range.
pub open spec fn export_fixes(cs: Seq<char>, start: usize, end: usize, ds: Seq<Declared>, k: nat) -> Seq<
    (Seq<char>, ActionKind, (Position, Position, Seq<char>)),
>
    decreases k,
{
    if k == 0 || k > ds.len() {
        Seq::empty()
    } else {
        let before = export_fixes(cs, start, end, ds, (k - 1) as nat);
        let d = ds[k - 1];
        if !d.exported && (span_holds(d.span, start) || span_holds(d.span, end)) {
            before.push(export_fix_of(cs, d.name@, d.span.start as int))
        } else {
            before
        }
    }
}

/// The quick fixes and refactors a range is offered, in order: for each
/// unresolved name it touches, an import from each module that exports it
/// and then declaring it; then exporting each declaration it starts or ends
/// in that is not exported.
pub open spec fn quick_actions_of(
    cs: Seq<char>,
    at: int,
    start: usize,
    end: usize,
    us: Seq<Unresolved>,
    ds: Seq<Declared>,
) -> Seq<(Seq<char>, ActionKind, (Position, Position, Seq<char>))> {
    unresolved_fixes(cs, at, start, end, us, us.len()) + export_fixes(cs, start, end, ds, ds.len())
}

fn insertion_at(text: &str, at: usize, new_text: String) -> (e: TextEdit)
    requires
        on_boundary(text@, at as int),
    ensures
        edit_view(e) == (at_byte(text@, at as int), at_byte(text@, at as int), new_text@),
{
    let p = offset_to_position(text, at);
    TextEdit { range: Range { start: p, end: p }, new_text }
}

fn import_fix(text: &str, at: usize, name: &str, written: &str) -> (a: QuickAction)
    requires
        on_boundary(text@, at as int),
    ensures
        quick_view(a) == import_fix_of(text@, at as int, name@, written@),
{
    let mut title = String::new();
    push_str(&mut title, "Import `");
    push_str(&mut title, name);
    push_str(&mut title, "` from `");
    push_str(&mut title, written);
    push_str(&mut title, "`");
    let mut line = String::new();
    push_str(&mut line, "from ");
    push_str(&mut line, written);
    push_str(&mut line, " import ");
    push_str(&mut line, name);
    push_str(&mut line, "\n");
    QuickAction { title, kind: ActionKind::QuickFix, edit: insertion_at(text, at, line) }
}

fn create_fix(text: &str, name: &str) -> (a: QuickAction)
    ensures
        quick_view(a) == create_fix_of(text@, name@),
{
    let end = str_len(text);
    proof {
        crate::lsp::convert::lemma_boundary_index_bound(text@, end as int);
        lemma_end_on_boundary(text@);
    }
    let mut title = String::new();
    push_str(&mut title, "Create anchor `");
    push_str(&mut title, name);
    push_str(&mut title, "`");
    let mut body = String::new();
    push_str(&mut body, "\nexport anchor ");
    push_str(&mut body, name);
    push_str(&mut body, ":\n    description:\n");
    QuickAction { title, kind: ActionKind::QuickFix, edit: insertion_at(text, end, body) }
}

proof fn lemma_end_on_boundary(cs: Seq<char>)
    ensures
        on_boundary(cs, byte_len(cs) as int),
{
}

fn export_fix(text: &str, name: &str, start: usize) -> (a: QuickAction)
    requires
        on_boundary(text@, start as int),
    ensures
        quick_view(a) == export_fix_of(text@, name@, start as int),
{
    let mut title = String::new();
    push_str(&mut title, "Export `");
    push_str(&mut title, name);
    push_str(&mut title, "`");
    QuickAction { title, kind: ActionKind::Refactor, edit: insertion_at(text, start, String::from_str("export ")) }
}

/// The quick fixes and refactors offered for the range from byte `start` to
/// byte `end`: for each unresolved name the range touches, an import from
/// each module that exports it, inserted at `insert_at` (where a new import
/// goes), and declaring it at the end of the file; then exporting each
/// declaration the range starts or ends in that is not exported.
pub fn quick_actions(
    text: &str,
    insert_at: usize,
    start: usize,
    end: usize,
    unresolved: &Vec<Unresolved>,
    declared: &Vec<Declared>,
) -> (out: Vec<QuickAction>)
    requires
        on_boundary(text@, insert_at as int),
        forall|k: int| 0 <= k < declared@.len() ==> on_boundary(text@, #[trigger] declared@[k].span.start as int),
    ensures
        out@.map_values(|a: QuickAction| quick_view(a)) == quick_actions_of(
            text@,
            insert_at as int,
            start,
            end,
            unresolved@,
            declared@,
        ),
{
    let mut out: Vec<QuickAction> = Vec::new();
    let mut k: usize = 0;
    while k < unresolved.len()
        invariant
            k <= unresolved@.len(),
            on_boundary(text@, insert_at as int),
            out@.map_values(|a: QuickAction| quick_view(a)) == unresolved_fixes(
                text@,
                insert_at as int,
                start,
                end,
                unresolved@,
                k as nat,
            ),
        decreases unresolved@.len() - k,
    {
        let u = &unresolved[k];
        let ghost before = out@.map_values(|a: QuickAction| quick_view(a));
        if !(u.span.end < start || u.span.start > end) {
            let mut j: usize = 0;
            while j < u.sources.len()
                invariant
                    j <= u.sources@.len(),
                    on_boundary(text@, insert_at as int),
                    out@.map_values(|a: QuickAction| quick_view(a)) == before + u.sources@.take(j as int).map_values(
                        |w: String| import_fix_of(text@, insert_at as int, u.name@, w@),
                    ),
                decreases u.sources@.len() - j,
            {
                let ghost mid = out@;
                out.push(import_fix(text, insert_at, u.name.as_str(), u.sources[j].as_str()));
                proof {
                    assert(u.sources@.take(j + 1).map_values(|w: String| import_fix_of(text@, insert_at as int, u.name@, w@))
                        =~= u.sources@.take(j as int).map_values(|w: String| import_fix_of(text@, insert_at as int, u.name@, w@)).push(
                        import_fix_of(text@, insert_at as int, u.name@, u.sources@[j as int]@),
                    ));
                    assert(out@.map_values(|a: QuickAction| quick_view(a)) =~= mid.map_values(|a: QuickAction| quick_view(a)).push(
                        import_fix_of(text@, insert_at as int, u.name@, u.sources@[j as int]@),
                    ));
                }
                j = j + 1;
            }
            let ghost mid = out@;
            out.push(create_fix(text, u.name.as_str()));
            proof {
                assert(u.sources@.take(j as int) =~= u.sources@);
                assert(out@.map_values(|a: QuickAction| quick_view(a)) =~= mid.map_values(|a: QuickAction| quick_view(a)).push(
                    create_fix_of(text@, u.name@),
                ));
                assert(out@.map_values(|a: QuickAction| quick_view(a)) =~= before + fixes_for(
                    text@,
                    insert_at as int,
                    start,
                    end,
                    *u,
                ));
            }
        } else {
            proof {
                assert(before + fixes_for(text@, insert_at as int, start, end, *u) =~= before);
            }
        }
        k = k + 1;
    }
    let ghost fixes = out@.map_values(|a: QuickAction| quick_view(a));
    let mut d: usize = 0;
    proof {
        assert(fixes + export_fixes(text@, start, end, declared@, 0) =~= fixes);
    }
    while d < declared.len()
        invariant
            d <= declared@.len(),
            forall|k: int| 0 <= k < declared@.len() ==> on_boundary(text@, #[trigger] declared@[k].span.start as int),
            fixes == unresolved_fixes(text@, insert_at as int, start, end, unresolved@, unresolved@.len()),
            out@.map_values(|a: QuickAction| quick_view(a)) == fixes + export_fixes(text@, start, end, declared@, d as nat),
        decreases declared@.len() - d,
    {
        let decl = &declared[d];
        let holds_start = decl.span.start <= start && start < decl.span.end;
        let holds_end = decl.span.start <= end && end < decl.span.end;
        if !decl.exported && (holds_start || holds_end) {
            let ghost mid = out@;
            proof {
                assert(on_boundary(text@, declared@[d as int].span.start as int));
            }
            out.push(export_fix(text, decl.name.as_str(), decl.span.start));
            proof {
                assert(out@.map_values(|a: QuickAction| quick_view(a)) =~= mid.map_values(|a: QuickAction| quick_view(a)).push(
                    export_fix_of(text@, decl.name@, decl.span.start as int),
                ));
            }
        }
        d = d + 1;
    }
    out
}

// ---- fixes for bases that disagree --------------------------------------------------------

/// A name of an anchor's `extends` list: as written, where, and whether it
/// names an abstract anchor (`anchor` is the anchor it names, if any).
pub struct ExtendsEntry {
    pub written: String,
    pub span: Span,
    pub anchor: Option<usize>,
    pub is_abstract: bool,
}

/// A base that supplies a property: the base, its name, whether its value
/// for the property equals the value of the base that wins, and whether the
/// file can name the base by that name.
pub struct Supplier {
    pub anchor: usize,
    pub name: String,
    pub same_as_winner: bool,
    pub reachable: bool,
}

/// A property of an anchor and the bases that supply it, in base order: the
/// last one wins.
pub struct Contest {
    pub property: String,
    pub suppliers: Vec<Supplier>,
}

/// The end of a declaration's header line: its first line break, or the end
/// of the declaration.
pub open spec fn header_end_of(cs: Seq<char>, decl: Span) -> int {
    match index_from(cs, '\n', boundary_index(cs, decl.start as int) as int) {
        Some(j) => byte_len(cs.take(j)) as int,
        None => decl.end as int,
    }
}

/// Where a property taken from a base is written: after the header line.
pub open spec fn take_at(cs: Seq<char>, decl: Span) -> int {
    let a = header_end_of(cs, decl) + 1;
    if a < byte_len(cs) { a } else { byte_len(cs) as int }
}

/// Where an `extends` list is written: from its first name to its last.
pub open spec fn list_span_of(es: Seq<ExtendsEntry>) -> Option<Span> {
    if es.len() == 0 {
        None
    } else {
        Some(Span { start: es[0].span.start, end: es[es.len() - 1].span.end })
    }
}

/// The names of an `extends` list as written.
pub open spec fn written_of(es: Seq<ExtendsEntry>) -> Seq<Seq<char>> {
    es.map_values(|e: ExtendsEntry| e.written@)
}

/// The range a span covers, as `span_to_range` gives it.
pub open spec fn span_range(cs: Seq<char>, s: Span) -> (Position, Position) {
    (
        position_of(cs, boundary_index(cs, s.start as int) as int),
        position_of(cs, boundary_index(cs, if s.end >= s.start { s.end as int } else { s.start as int }) as int),
    )
}

/// The fix titled `title` that makes the `extends` list read `order`, if
/// there is an edit that does.
pub open spec fn rewrite_fix(cs: Seq<char>, list: Option<Span>, order: Seq<Seq<char>>, title: Seq<char>) -> Seq<
    (Seq<char>, ActionKind, (Position, Position, Seq<char>)),
> {
    match extends_rewrite_of(cs, list, order) {
        Some((span, t)) => seq![(title, ActionKind::QuickFix, (span_range(cs, span).0, span_range(cs, span).1, t))],
        None => Seq::empty(),
    }
}

/// For the first `k` names of the list, each naming an abstract anchor: the
/// fix that stops extending it.
pub open spec fn stop_fixes(cs: Seq<char>, es: Seq<ExtendsEntry>, k: nat) -> Seq<
    (Seq<char>, ActionKind, (Position, Position, Seq<char>)),
>
    decreases k,
{
    if k == 0 || k > es.len() {
        Seq::empty()
    } else {
        let before = stop_fixes(cs, es, (k - 1) as nat);
        let e = es[k - 1];
        if e.is_abstract {
            before + rewrite_fix(
                cs,
                list_span_of(es),
                without_of(written_of(es), e.written@),
                "Stop extending `"@ + e.written@ + "`"@,
            )
        } else {
            before
        }
    }
}

/// Whether the list names the anchor `a`.
pub open spec fn lists_anchor(es: Seq<ExtendsEntry>, a: usize) -> bool {
    exists|i: int| 0 <= i < es.len() && #[trigger] es[i].anchor == Some(a)
}

/// The fixes for a base `loser` whose value of `property` loses to the one of
/// `winner`: moving it last in the list, when the list names both; and taking
/// the value from it explicitly, when the file can name it.
pub open spec fn loser_fixes(
    cs: Seq<char>,
    es: Seq<ExtendsEntry>,
    indent: Seq<char>,
    at: int,
    property: Seq<char>,
    winner: Supplier,
    loser: Supplier,
) -> Seq<(Seq<char>, ActionKind, (Position, Position, Seq<char>))> {
    let moved = if lists_anchor(es, loser.anchor) && lists_anchor(es, winner.anchor) {
        rewrite_fix(
            cs,
            list_span_of(es),
            without_of(written_of(es), loser.name@).push(loser.name@),
            "Move `"@ + loser.name@ + "` last in `extends` so its `"@ + property + "` wins"@,
        )
    } else {
        Seq::empty()
    };
    let taken = if loser.reachable {
        seq![
            (
                "Take `"@ + property + "` from `"@ + loser.name@ + "` (it currently comes from `"@ + winner.name@ + "`)"@,
                ActionKind::QuickFix,
                (at_byte(cs, at), at_byte(cs, at), indent + property + ": {"@ + loser.name@ + "."@ + property + "}\n"@),
            ),
        ]
    } else {
        Seq::empty()
    };
    moved + taken
}

/// The fixes for the first `k` suppliers of a contested property: each that
/// is not the winner and whose value differs from the winner's.
pub open spec fn supplier_fixes(
    cs: Seq<char>,
    es: Seq<ExtendsEntry>,
    indent: Seq<char>,
    at: int,
    property: Seq<char>,
    ss: Seq<Supplier>,
    k: nat,
) -> Seq<(Seq<char>, ActionKind, (Position, Position, Seq<char>))>
    decreases k,
{
    if k == 0 || k > ss.len() {
        Seq::empty()
    } else {
        let before = supplier_fixes(cs, es, indent, at, property, ss, (k - 1) as nat);
        let winner = ss.last();
        let loser = ss[k - 1];
        if loser.anchor != winner.anchor && !loser.same_as_winner {
            before + loser_fixes(cs, es, indent, at, property, winner, loser)
        } else {
            before
        }
    }
}

/// The fixes for the first `k` properties: each the anchor does not set
/// itself and that at least two bases supply.
pub open spec fn contest_fixes(
    cs: Seq<char>,
    es: Seq<ExtendsEntry>,
    own: Seq<Seq<char>>,
    indent: Seq<char>,
    at: int,
    contests: Seq<Contest>,
    k: nat,
) -> Seq<(Seq<char>, ActionKind, (Position, Position, Seq<char>))>
    decreases k,
{
    if k == 0 || k > contests.len() {
        Seq::empty()
    } else {
        let before = contest_fixes(cs, es, own, indent, at, contests, (k - 1) as nat);
        let c = contests[k - 1];
        if own.contains(c.property@) || c.suppliers@.len() < 2 {
            before
        } else {
            before + supplier_fixes(cs, es, indent, at, c.property@, c.suppliers@, c.suppliers@.len())
        }
    }
}

/// The fixes an anchor declaration is offered when the range from `start`
/// to `end` meets its header line and it has two bases or more: when the
/// compiler reports its abstract bases conflict, to stop extending each
/// abstract one; then, for each property two bases supply with different
/// values that it does not set itself, to move each losing base last and to
/// take the value from it.
pub open spec fn conflict_fixes_of(
    cs: Seq<char>,
    decl: Span,
    start: usize,
    end: usize,
    base_count: usize,
    conflicting: bool,
    es: Seq<ExtendsEntry>,
    own: Seq<Seq<char>>,
    contests: Seq<Contest>,
    indent: Seq<char>,
) -> Seq<(Seq<char>, ActionKind, (Position, Position, Seq<char>))> {
    if start > header_end_of(cs, decl) || end < decl.start || base_count < 2 {
        Seq::empty()
    } else {
        (if conflicting { stop_fixes(cs, es, es.len()) } else { Seq::empty() }) + contest_fixes(
            cs,
            es,
            own,
            indent,
            take_at(cs, decl),
            contests,
            contests.len(),
        )
    }
}

fn header_end(cs: &Vec<char>, decl: Span) -> (e: usize)
    requires
        crate::text::byte_len(cs@) <= usize::MAX,
    ensures
        e == header_end_of(cs@, decl),
{
    let k = char_index(cs, decl.start);
    match crate::lsp::features::find_from(cs, '\n', k) {
        Some(j) => {
            proof {
                crate::lsp::features::lemma_index_from(cs@, '\n', k as int);
            }
            bytes_before(cs, j)
        },
        None => decl.end,
    }
}

fn rewrite_fix_exec(text: &str, list: Option<Span>, order: &Vec<String>, title: String, out: &mut Vec<QuickAction>)
    requires
        match list {
            Some(span) => on_boundary(text@, span.start as int) && on_boundary(text@, span.end as int),
            None => true,
        },
    ensures
        final(out)@.map_values(|a: QuickAction| quick_view(a)) == old(out)@.map_values(|a: QuickAction| quick_view(a))
            + rewrite_fix(text@, list, texts(order@), title@),
{
    let ghost before = out@.map_values(|a: QuickAction| quick_view(a));
    match extends_rewrite(text, list, order) {
        Some((span, t)) => {
            let range = crate::lsp::convert::span_to_range(text, span);
            out.push(QuickAction { title, kind: ActionKind::QuickFix, edit: TextEdit { range, new_text: t } });
            proof {
                assert(out@.map_values(|a: QuickAction| quick_view(a)) =~= before + rewrite_fix(text@, list, texts(order@), title@));
            }
        },
        None => {
            proof {
                assert(before + rewrite_fix(text@, list, texts(order@), title@) =~= before);
            }
        },
    }
}

/// The `extends` list's span, in an exec form.
fn list_span(es: &Vec<ExtendsEntry>) -> (r: Option<Span>)
    ensures
        r == list_span_of(es@),
{
    if es.len() == 0 {
        None
    } else {
        Some(Span { start: es[0].span.start, end: es[es.len() - 1].span.end })
    }
}

fn written_names(es: &Vec<ExtendsEntry>) -> (out: Vec<String>)
    ensures
        texts(out@) == written_of(es@),
{
    let mut out: Vec<String> = Vec::new();
    let mut k: usize = 0;
    while k < es.len()
        invariant
            k <= es@.len(),
            texts(out@) == written_of(es@.take(k as int)),
        decreases es@.len() - k,
    {
        let ghost before = texts(out@);
        out.push(string_of(&chars_of(es[k].written.as_str())));
        proof {
            assert(texts(out@) =~= before.push(es@[k as int].written@));
            assert(es@.take(k + 1) =~= es@.take(k as int).push(es@[k as int]));
            assert(written_of(es@.take(k + 1)) =~= written_of(es@.take(k as int)).push(es@[k as int].written@));
        }
        k = k + 1;
    }
    proof {
        assert(es@.take(k as int) =~= es@);
    }
    out
}

/// The list's span falls between characters of the text.
pub open spec fn list_on_boundaries(cs: Seq<char>, list: Option<Span>) -> bool {
    match list {
        Some(span) => on_boundary(cs, span.start as int) && on_boundary(cs, span.end as int),
        None => true,
    }
}

fn stop_fixes_exec(text: &str, es: &Vec<ExtendsEntry>, written: &Vec<String>, out: &mut Vec<QuickAction>)
    requires
        list_on_boundaries(text@, list_span_of(es@)),
        texts(written@) == written_of(es@),
    ensures
        final(out)@.map_values(|a: QuickAction| quick_view(a)) == old(out)@.map_values(|a: QuickAction| quick_view(a))
            + stop_fixes(text@, es@, es@.len()),
{
    let ghost start = out@.map_values(|a: QuickAction| quick_view(a));
    let list = list_span(es);
    let mut k: usize = 0;
    while k < es.len()
        invariant
            k <= es@.len(),
            list == list_span_of(es@),
            list_on_boundaries(text@, list),
            texts(written@) == written_of(es@),
            out@.map_values(|a: QuickAction| quick_view(a)) == start + stop_fixes(text@, es@, k as nat),
        decreases es@.len() - k,
    {
        let e = &es[k];
        if e.is_abstract {
            let order = without(written, e.written.as_str());
            let mut title = String::new();
            push_str(&mut title, "Stop extending `");
            push_str(&mut title, e.written.as_str());
            push_str(&mut title, "`");
            rewrite_fix_exec(text, list, &order, title, out);
            proof {
                assert(texts(order@) == without_of(written_of(es@), e.written@));
                assert(stop_fixes(text@, es@, (k + 1) as nat) == stop_fixes(text@, es@, k as nat)
                    + rewrite_fix(text@, list, texts(order@), "Stop extending `"@ + e.written@ + "`"@));
                assert(start + stop_fixes(text@, es@, (k + 1) as nat) =~= start + stop_fixes(text@, es@, k as nat)
                    + rewrite_fix(text@, list, texts(order@), "Stop extending `"@ + e.written@ + "`"@));
            }
        }
        k = k + 1;
    }
}

fn names_anchor(es: &Vec<ExtendsEntry>, a: usize) -> (r: bool)
    ensures
        r == lists_anchor(es@, a),
{
    let mut i: usize = 0;
    while i < es.len()
        invariant
            i <= es@.len(),
            forall|m: int| 0 <= m < i ==> es@[m].anchor != Some(a),
        decreases es@.len() - i,
    {
        if es[i].anchor == Some(a) {
            proof {
                assert(es@[i as int].anchor == Some(a));
            }
            return true;
        }
        i = i + 1;
    }
    false
}

fn loser_fixes_exec(
    text: &str,
    es: &Vec<ExtendsEntry>,
    written: &Vec<String>,
    indent: &str,
    at: usize,
    property: &str,
    winner: &Supplier,
    loser: &Supplier,
    out: &mut Vec<QuickAction>,
)
    requires
        list_on_boundaries(text@, list_span_of(es@)),
        texts(written@) == written_of(es@),
        on_boundary(text@, at as int),
    ensures
        final(out)@.map_values(|a: QuickAction| quick_view(a)) == old(out)@.map_values(|a: QuickAction| quick_view(a))
            + loser_fixes(text@, es@, indent@, at as int, property@, *winner, *loser),
{
    let ghost start = out@.map_values(|a: QuickAction| quick_view(a));
    if names_anchor(es, loser.anchor) && names_anchor(es, winner.anchor) {
        let mut order = without(written, loser.name.as_str());
        let ghost kept = texts(order@);
        order.push(string_of(&chars_of(loser.name.as_str())));
        proof {
            assert(texts(order@) =~= kept.push(loser.name@));
        }
        let mut title = String::new();
        push_str(&mut title, "Move `");
        push_str(&mut title, loser.name.as_str());
        push_str(&mut title, "` last in `extends` so its `");
        push_str(&mut title, property);
        push_str(&mut title, "` wins");
        rewrite_fix_exec(text, list_span(es), &order, title, out);
    } else {
        proof {
            assert(start + Seq::<(Seq<char>, ActionKind, (Position, Position, Seq<char>))>::empty() =~= start);
        }
    }
    let ghost mid = out@.map_values(|a: QuickAction| quick_view(a));
    if loser.reachable {
        let mut title = String::new();
        push_str(&mut title, "Take `");
        push_str(&mut title, property);
        push_str(&mut title, "` from `");
        push_str(&mut title, loser.name.as_str());
        push_str(&mut title, "` (it currently comes from `");
        push_str(&mut title, winner.name.as_str());
        push_str(&mut title, "`)");
        let mut body = String::new();
        push_str(&mut body, indent);
        push_str(&mut body, property);
        push_str(&mut body, ": {");
        push_str(&mut body, loser.name.as_str());
        push_str(&mut body, ".");
        push_str(&mut body, property);
        push_str(&mut body, "}\n");
        let ghost before = out@;
        out.push(QuickAction { title, kind: ActionKind::QuickFix, edit: insertion_at(text, at, body) });
        proof {
            assert(out@.map_values(|a: QuickAction| quick_view(a)) =~= before.map_values(|a: QuickAction| quick_view(a)).push(
                quick_view(out@.last()),
            ));
        }
    }
    proof {
        assert(out@.map_values(|a: QuickAction| quick_view(a)) =~= start + loser_fixes(
            text@,
            es@,
            indent@,
            at as int,
            property@,
            *winner,
            *loser,
        ));
    }
}

fn owned(own: &Vec<String>, name: &str) -> (r: bool)
    ensures
        r == texts(own@).contains(name@),
{
    let mut i: usize = 0;
    while i < own.len()
        invariant
            i <= own@.len(),
            forall|m: int| 0 <= m < i ==> own@[m]@ != name@,
        decreases own@.len() - i,
    {
        if str_eq(own[i].as_str(), name) {
            proof {
                assert(texts(own@)[i as int] == name@);
            }
            return true;
        }
        i = i + 1;
    }
    proof {
        if texts(own@).contains(name@) {
            let m = choose|m: int| 0 <= m < texts(own@).len() && texts(own@)[m] == name@;
            assert(own@[m]@ == name@);
        }
    }
    false
}

/// The fixes an anchor declaration, written at `decl`, is offered for the
/// range from byte `start` to byte `end`, when the range meets its header
/// line and it has `base_count` bases, two or more. When `conflicting` (the
/// compiler reports that its abstract bases conflict), stopping to extend
/// each abstract base of its `extends` list; then, for each contested
/// property it does not set itself (`own`), for each base whose value loses
/// to the last supplier's and differs from it: moving that base last in the
/// list when the list names both, and taking the value from it, written
/// after `indent` below the header line, when the file can name it.
pub fn conflict_fixes(
    text: &str,
    decl: Span,
    start: usize,
    end: usize,
    base_count: usize,
    conflicting: bool,
    explicit: &Vec<ExtendsEntry>,
    own: &Vec<String>,
    contests: &Vec<Contest>,
    indent: &str,
) -> (out: Vec<QuickAction>)
    requires
        list_on_boundaries(text@, list_span_of(explicit@)),
        on_boundary(text@, take_at(text@, decl)),
    ensures
        out@.map_values(|a: QuickAction| quick_view(a)) == conflict_fixes_of(
            text@,
            decl,
            start,
            end,
            base_count,
            conflicting,
            explicit@,
            texts(own@),
            contests@,
            indent@,
        ),
{
    let cs = chars_of(text);
    let n = str_len(text);
    let h = header_end(&cs, decl);
    let mut out: Vec<QuickAction> = Vec::new();
    if start > h || end < decl.start || base_count < 2 {
        proof {
            assert(out@.map_values(|a: QuickAction| quick_view(a)) =~= Seq::<(Seq<char>, ActionKind, (Position, Position, Seq<char>))>::empty());
        }
        return out;
    }
    let at = if n > 0 && h < n - 1 { h + 1 } else { n };
    let written = written_names(explicit);
    if conflicting {
        proof {
            assert(out@.map_values(|a: QuickAction| quick_view(a)) =~= Seq::<(Seq<char>, ActionKind, (Position, Position, Seq<char>))>::empty());
        }
        stop_fixes_exec(text, explicit, &written, &mut out);
    } else {
        proof {
            assert(out@.map_values(|a: QuickAction| quick_view(a)) =~= Seq::<(Seq<char>, ActionKind, (Position, Position, Seq<char>))>::empty());
        }
    }
    let ghost first = out@.map_values(|a: QuickAction| quick_view(a));
    let mut c: usize = 0;
    proof {
        assert(first + contest_fixes(text@, explicit@, texts(own@), indent@, at as int, contests@, 0) =~= first);
    }
    while c < contests.len()
        invariant
            c <= contests@.len(),
            at as int == take_at(text@, decl),
            on_boundary(text@, at as int),
            list_on_boundaries(text@, list_span_of(explicit@)),
            texts(written@) == written_of(explicit@),
            out@.map_values(|a: QuickAction| quick_view(a)) == first + contest_fixes(
                text@,
                explicit@,
                texts(own@),
                indent@,
                at as int,
                contests@,
                c as nat,
            ),
        decreases contests@.len() - c,
    {
        let contest = &contests[c];
        let ghost before = out@.map_values(|a: QuickAction| quick_view(a));
        if !owned(own, contest.property.as_str()) && contest.suppliers.len() >= 2 {
            let ss = &contest.suppliers;
            let winner = &ss[ss.len() - 1];
            let mut k: usize = 0;
            proof {
                assert(before + supplier_fixes(text@, explicit@, indent@, at as int, contest.property@, ss@, 0) =~= before);
            }
            while k < ss.len()
                invariant
                    k <= ss@.len(),
                    ss@.len() >= 2,
                    *winner == ss@.last(),
                    on_boundary(text@, at as int),
                    list_on_boundaries(text@, list_span_of(explicit@)),
                    texts(written@) == written_of(explicit@),
                    out@.map_values(|a: QuickAction| quick_view(a)) == before + supplier_fixes(
                        text@,
                        explicit@,
                        indent@,
                        at as int,
                        contest.property@,
                        ss@,
                        k as nat,
                    ),
                decreases ss@.len() - k,
            {
                let loser = &ss[k];
                if loser.anchor != winner.anchor && !loser.same_as_winner {
                    loser_fixes_exec(text, explicit, &written, indent, at, contest.property.as_str(), winner, loser, &mut out);
                    proof {
                        assert(before + supplier_fixes(text@, explicit@, indent@, at as int, contest.property@, ss@, (k + 1) as nat)
                            =~= before + supplier_fixes(text@, explicit@, indent@, at as int, contest.property@, ss@, k as nat)
                            + loser_fixes(text@, explicit@, indent@, at as int, contest.property@, *winner, *loser));
                    }
                }
                k = k + 1;
            }
            proof {
                assert(first + contest_fixes(text@, explicit@, texts(own@), indent@, at as int, contests@, (c + 1) as nat)
                    =~= before + supplier_fixes(text@, explicit@, indent@, at as int, contest.property@, ss@, ss@.len()));
            }
        }
        c = c + 1;
    }
    out
}

/// The indentation of a property taken from a base: that of the first item of
/// the declaration's body, from the start of its line, when that is
/// whitespace and not empty; else `fallback` spaces.
pub open spec fn property_indent_of(cs: Seq<char>, first_item: Option<usize>, fallback: nat) -> Seq<char> {
    match first_item {
        Some(s) => {
            let k = boundary_index(cs, s as int) as int;
            let t = cs.subrange(crate::lsp::convert::line_begin(cs, k), k);
            if t.len() > 0 && trim(t).len() == 0 {
                t
            } else {
                crate::text::spaces(fallback)
            }
        },
        None => crate::text::spaces(fallback),
    }
}

/// The indentation a property taken from a base is written with, from where
/// the first item of the declaration's body starts, if it has one.
pub fn property_indent(text: &str, first_item: Option<usize>, fallback: usize) -> (r: String)
    ensures
        r@ == property_indent_of(text@, first_item, fallback as nat),
{
    let mut pad = String::new();
    let mut i: usize = 0;
    while i < fallback
        invariant
            i <= fallback,
            pad@ == crate::text::spaces(i as nat),
        decreases fallback - i,
    {
        crate::text::push_char(&mut pad, ' ');
        proof {
            assert(pad@ =~= crate::text::spaces((i + 1) as nat));
        }
        i = i + 1;
    }
    let s = match first_item {
        None => return pad,
        Some(s) => s,
    };
    let cs = chars_of(text);
    let k = char_index(&cs, s);
    proof {
        crate::lsp::convert::lemma_boundary_index_bound(cs@, s as int);
    }
    let mut b = k;
    while b > 0 && cs[b - 1] != '\n'
        invariant
            b <= k <= cs@.len(),
            crate::lsp::convert::line_begin(cs@, b as int) == crate::lsp::convert::line_begin(cs@, k as int),
        decreases b,
    {
        b = b - 1;
    }
    let t = slice_chars(&cs, b, k);
    let as_text = string_of(&t);
    let trimmed = crate::text::trimmed_chars(as_text.as_str());
    if t.len() > 0 && trimmed.len() == 0 {
        as_text
    } else {
        pad
    }
}

// ---- the actions a range is offered -------------------------------------------------------

/// An action the editor is offered: its title, its kind, and its edits.
#[derive(Clone, Debug, PartialEq, Eq)]
pub struct EditAction {
    pub title: String,
    pub kind: ActionKind,
    pub edits: Vec<TextEdit>,
}

/// An action as plain values.
pub open spec fn action_view(a: EditAction) -> (Seq<char>, ActionKind, Seq<(Position, Position, Seq<char>)>) {
    (a.title@, a.kind, a.edits@.map_values(|e: TextEdit| edit_view(e)))
}

/// An edit given in bytes, as the editor gets it.
pub open spec fn span_edit(cs: Seq<char>, e: (Span, Seq<char>)) -> (Position, Position, Seq<char>) {
    (span_range(cs, e.0).0, span_range(cs, e.0).1, e.1)
}

/// Both ends of a span fall between characters.
pub open spec fn span_on_boundaries(cs: Seq<char>, s: Span) -> bool {
    on_boundary(cs, s.start as int) && on_boundary(cs, if s.end >= s.start { s.end as int } else { s.start as int })
}

/// A one-edit action as an action.
pub open spec fn single(a: (Seq<char>, ActionKind, (Position, Position, Seq<char>))) -> (Seq<char>, ActionKind, Seq<(Position, Position, Seq<char>)>) {
    (a.0, a.1, seq![a.2])
}

/// The actions a range is offered, in order: the quick fixes for what it
/// touches, the qualifications of ambiguous names (quick fixes), the fixes
/// for bases that disagree, and organizing the imports when that changes
/// anything. Formatting is never offered as an action.
pub open spec fn code_actions_of(
    cs: Seq<char>,
    quick: Seq<QuickAction>,
    qualify: Seq<(String, Vec<(Span, String)>)>,
    conflicts: Seq<QuickAction>,
    organize: Option<Vec<(Span, String)>>,
) -> Seq<(Seq<char>, ActionKind, Seq<(Position, Position, Seq<char>)>)> {
    quick.map_values(|a: QuickAction| single(quick_view(a)))
        + qualify.map_values(|q: (String, Vec<(Span, String)>)| (
            q.0@,
            ActionKind::QuickFix,
            q.1@.map_values(|e: (Span, String)| span_edit(cs, (e.0, e.1@))),
        ))
        + conflicts.map_values(|a: QuickAction| single(quick_view(a)))
        + match organize {
            Some(es) => seq![(
                "Organize imports"@,
                ActionKind::OrganizeImports,
                es@.map_values(|e: (Span, String)| span_edit(cs, (e.0, e.1@))),
            )],
            None => Seq::empty(),
        }
}

fn one_edit(a: QuickAction) -> (r: EditAction)
    ensures
        action_view(r) == single(quick_view(a)),
{
    let QuickAction { title, kind, edit } = a;
    let ghost ev = edit_view(edit);
    let edits = vec![edit];
    let r = EditAction { title, kind, edits };
    proof {
        assert(r.edits@.map_values(|e: TextEdit| edit_view(e)) =~= seq![ev]);
    }
    r
}

fn span_edits(text: &str, es: Vec<(Span, String)>) -> (r: Vec<TextEdit>)
    requires
        forall|k: int| 0 <= k < es@.len() ==> span_on_boundaries(text@, #[trigger] es@[k].0),
    ensures
        r@.map_values(|e: TextEdit| edit_view(e)) == es@.map_values(|e: (Span, String)| span_edit(text@, (e.0, e.1@))),
{
    let mut out: Vec<TextEdit> = Vec::new();
    let mut k: usize = 0;
    while k < es.len()
        invariant
            k <= es@.len(),
            forall|m: int| 0 <= m < es@.len() ==> span_on_boundaries(text@, #[trigger] es@[m].0),
            out@.map_values(|e: TextEdit| edit_view(e)) == es@.take(k as int).map_values(
                |e: (Span, String)| span_edit(text@, (e.0, e.1@)),
            ),
        decreases es@.len() - k,
    {
        let span = es[k].0;
        proof {
            assert(span_on_boundaries(text@, es@[k as int].0));
        }
        let range = crate::lsp::convert::span_to_range(text, span);
        let ghost before = out@;
        out.push(TextEdit { range, new_text: es[k].1.clone() });
        proof {
            assert(out@.map_values(|e: TextEdit| edit_view(e)) =~= before.map_values(|e: TextEdit| edit_view(e)).push(
                span_edit(text@, (es@[k as int].0, es@[k as int].1@)),
            ));
            assert(es@.take(k + 1).map_values(|e: (Span, String)| span_edit(text@, (e.0, e.1@))) =~= es@.take(
                k as int,
            ).map_values(|e: (Span, String)| span_edit(text@, (e.0, e.1@))).push(span_edit(text@, (es@[k as int].0, es@[k as int].1@))));
        }
        k = k + 1;
    }
    proof {
        assert(es@.take(k as int) =~= es@);
    }
    out
}

/// The actions a range is offered, put together in order: the quick fixes
/// for what it touches (`quick_actions`), the qualifications of ambiguous
/// names (`qualify_action`, each a quick fix), the fixes for bases that
/// disagree (`conflict_fixes`), and organizing the imports
/// (`organize_imports`) when that changes anything. Formatting is never
/// offered as an action. Edits given in bytes must fall between characters.
pub fn code_actions(
    text: &str,
    quick: Vec<QuickAction>,
    qualify: Vec<(String, Vec<(Span, String)>)>,
    conflicts: Vec<QuickAction>,
    organize: Option<Vec<(Span, String)>>,
) -> (out: Vec<EditAction>)
    requires
        forall|i: int, k: int| 0 <= i < qualify@.len() && 0 <= k < qualify@[i].1@.len() ==> span_on_boundaries(
            text@,
            #[trigger] qualify@[i].1@[k].0,
        ),
        match organize {
            Some(es) => forall|k: int| 0 <= k < es@.len() ==> span_on_boundaries(text@, #[trigger] es@[k].0),
            None => true,
        },
    ensures
        out@.map_values(|a: EditAction| action_view(a)) == code_actions_of(text@, quick@, qualify@, conflicts@, organize),
{
    let ghost q0 = quick@;
    let ghost qual0 = qualify@;
    let ghost c0 = conflicts@;
    let ghost org0 = organize;
    let mut out: Vec<EditAction> = Vec::new();
    let mut quick = quick;
    let mut conflicts = conflicts;
    let mut qualify = qualify;
    let total_quick = quick.len();
    let total_qualify = qualify.len();
    let total_conflicts = conflicts.len();
    let mut n: usize = 0;
    proof {
        assert(q0.skip(0) =~= q0);
        assert(qual0.skip(0) =~= qual0);
        assert(c0.skip(0) =~= c0);
    }
    while quick.len() > 0
        invariant
            n <= q0.len(),
            q0.len() == total_quick,
            quick@ == q0.skip(n as int),
            out@.map_values(|a: EditAction| action_view(a)) == q0.take(n as int).map_values(|a: QuickAction| single(quick_view(a))),
        decreases quick@.len(),
    {
        let a = quick.remove(0);
        proof {
            assert(a == q0[n as int]);
            assert(quick@ =~= q0.skip(n + 1));
        }
        let ghost before = out@;
        out.push(one_edit(a));
        proof {
            assert(q0.take(n + 1) =~= q0.take(n as int).push(q0[n as int]));
            assert(out@.map_values(|a: EditAction| action_view(a)) =~= before.map_values(|a: EditAction| action_view(a)).push(
                single(quick_view(q0[n as int])),
            ));
        }
        n = n + 1;
    }
    proof {
        assert(q0.take(n as int) =~= q0);
    }
    let ghost part1 = out@.map_values(|a: EditAction| action_view(a));
    let ghost qmap = qual0.map_values(|q: (String, Vec<(Span, String)>)| (
        q.0@,
        ActionKind::QuickFix,
        q.1@.map_values(|e: (Span, String)| span_edit(text@, (e.0, e.1@))),
    ));
    let mut n: usize = 0;
    while qualify.len() > 0
        invariant
            n <= qual0.len(),
            qual0.len() == total_qualify,
            qualify@ == qual0.skip(n as int),
            forall|i: int, k: int| 0 <= i < qual0.len() && 0 <= k < qual0[i].1@.len() ==> span_on_boundaries(
                text@,
                #[trigger] qual0[i].1@[k].0,
            ),
            qmap == qual0.map_values(|q: (String, Vec<(Span, String)>)| (
                q.0@,
                ActionKind::QuickFix,
                q.1@.map_values(|e: (Span, String)| span_edit(text@, (e.0, e.1@))),
            )),
            out@.map_values(|a: EditAction| action_view(a)) == part1 + qmap.take(n as int),
        decreases qualify@.len(),
    {
        let (title, es) = qualify.remove(0);
        proof {
            assert((title, es) == qual0[n as int]);
            assert(qualify@ =~= qual0.skip(n + 1));
            assert forall|k: int| 0 <= k < es@.len() implies span_on_boundaries(text@, #[trigger] es@[k].0) by {
                assert(qual0[n as int].1@[k] == es@[k]);
            }
        }
        let edits = span_edits(text, es);
        let ghost before = out@;
        let ghost tv = title@;
        out.push(EditAction { title, kind: ActionKind::QuickFix, edits });
        proof {
            assert(qmap.take(n + 1) =~= qmap.take(n as int).push(qmap[n as int]));
            assert(out@.map_values(|a: EditAction| action_view(a)) =~= before.map_values(|a: EditAction| action_view(a)).push(
                qmap[n as int],
            ));
        }
        n = n + 1;
    }
    proof {
        assert(qmap.take(n as int) =~= qmap);
    }
    let ghost part2 = out@.map_values(|a: EditAction| action_view(a));
    let mut n: usize = 0;
    while conflicts.len() > 0
        invariant
            n <= c0.len(),
            c0.len() == total_conflicts,
            conflicts@ == c0.skip(n as int),
            out@.map_values(|a: EditAction| action_view(a)) == part2 + c0.take(n as int).map_values(
                |a: QuickAction| single(quick_view(a)),
            ),
        decreases conflicts@.len(),
    {
        let a = conflicts.remove(0);
        proof {
            assert(a == c0[n as int]);
            assert(conflicts@ =~= c0.skip(n + 1));
        }
        let ghost before = out@;
        out.push(one_edit(a));
        proof {
            assert(c0.take(n + 1) =~= c0.take(n as int).push(c0[n as int]));
            assert(out@.map_values(|a: EditAction| action_view(a)) =~= before.map_values(|a: EditAction| action_view(a)).push(
                single(quick_view(c0[n as int])),
            ));
        }
        n = n + 1;
    }
    proof {
        assert(c0.take(n as int) =~= c0);
    }
    let ghost part3 = out@.map_values(|a: EditAction| action_view(a));
    match organize {
        Some(es) => {
            let edits = span_edits(text, es);
            let ghost before = out@;
            out.push(EditAction { title: String::from_str("Organize imports"), kind: ActionKind::OrganizeImports, edits });
            proof {
                reveal_strlit("Organize imports");
                assert(out@.map_values(|a: EditAction| action_view(a)) =~= before.map_values(|a: EditAction| action_view(a)).push(
                    action_view(out@.last()),
                ));
            }
        },
        None => {},
    }
    proof {
        assert(out@.map_values(|a: EditAction| action_view(a)) =~= code_actions_of(text@, q0, qual0, c0, org0));
    }
    out
}

} // verus!
