//! Facts about diagnostics and files that the analysis reports with.
use vstd::prelude::*;

use crate::lsp::convert::{boundary_index, char_index, line_begin, newlines, on_boundary, Span};
use crate::lsp::features::{bytes_before, index_from, split_words, words};
use crate::fmt::{join_sep, join_words, push_joined, texts};
use crate::path::{components, components_of, file_name_of};
use crate::emit::value::{names_known, AnchorInfo, Value};
use crate::text::{
    byte_len, chars_eq, chars_of, decimal, lemma_byte_len_concat, push_char, push_decimal, push_str,
    str_eq, str_len, string_of,
};

verus! {

/// The diagnostic codes the editor fades, because deleting what they point at
/// would not change the resolved specification.
pub open spec fn unnecessary(code: Seq<char>) -> bool {
    code == "unused-import"@ || code == "duplicate-import"@ || code == "broad-import"@ || code
        == "unused-anchor"@ || code == "unused-export"@ || code == "unused-variable"@ || code
        == "redundant-definition"@
}

/// Codes the editor fades, because deleting the declaration would not change
/// the resolved specification.
pub fn is_unnecessary(code: &str) -> (r: bool)
    ensures
        r == unnecessary(code@),
{
    str_eq(code, "unused-import") || str_eq(code, "duplicate-import") || str_eq(code, "broad-import")
        || str_eq(code, "unused-anchor") || str_eq(code, "unused-export") || str_eq(
        code,
        "unused-variable",
    ) || str_eq(code, "redundant-definition")
}

/// The one-based line a byte offset is on, clamped to the end of the text.
pub fn line_of(text: &str, offset: usize) -> (line: usize)
    requires
        on_boundary(text@, offset as int),
    ensures
        line == newlines(text@.take(boundary_index(text@, offset as int) as int)) + 1,
{
    let cs = chars_of(text);
    let mut i: usize = 0;
    let mut bytes: usize = 0;
    let mut lines: usize = 1;
    let total = crate::text::str_len(text);
    proof {
        crate::lsp::convert::lemma_utf16_le_bytes(text@);
    }
    while i < cs.len()
        invariant
            cs@ == text@,
            cs@.len() <= isize::MAX,
            i <= cs.len(),
            bytes == crate::text::byte_len(text@.take(i as int)),
            bytes <= offset,
            lines == newlines(text@.take(i as int)) + 1,
            lines <= i + 1,
        ensures
            i == cs.len() || bytes + crate::text::utf8_width(text@[i as int]) > offset,
        decreases cs.len() - i,
    {
        let w = crate::text::len_utf8(cs[i]);
        if w > offset - bytes {
            break;
        }
        proof {
            crate::lsp::convert::lemma_take_step(text@, i as int);
        }
        bytes = bytes + w;
        if cs[i] == '\n' {
            lines = lines + 1;
        }
        i = i + 1;
    }
    proof {
        if i < cs.len() {
            crate::lsp::convert::lemma_take_step(text@, i as int);
        }
        crate::lsp::convert::lemma_boundary_index(text@, offset as int, i as int);
    }
    lines
}


/// A path's file name, or `output` when it has none.
pub fn file_name(path: &str) -> (name: String)
    ensures
        name@ == match file_name_of(path@) {
            Some(n) => n,
            None => "output"@,
        },
{
    match crate::path::file_name(path) {
        Some(n) => string_of(&n),
        None => String::from_str("output"),
    }
}

/// A path with each backslash written as a slash.
pub open spec fn with_forward_slashes(cs: Seq<char>) -> Seq<char> {
    cs.map_values(|c: char| if c == '\\' { '/' } else { c })
}

/// Whether two paths name the same file: the same components, or the same
/// text once backslashes are read as slashes.
pub open spec fn same_path(left: Seq<char>, right: Seq<char>) -> bool {
    components(left) == components(right) || with_forward_slashes(left) == with_forward_slashes(right)
}

fn forward_slashes(cs: &Vec<char>) -> (out: Vec<char>)
    ensures
        out@ == with_forward_slashes(cs@),
{
    let mut out: Vec<char> = Vec::new();
    let mut i: usize = 0;
    while i < cs.len()
        invariant
            i <= cs.len(),
            out@ == with_forward_slashes(cs@.take(i as int)),
        decreases cs.len() - i,
    {
        out.push(if cs[i] == '\\' { '/' } else { cs[i] });
        i = i + 1;
        assert(out@ =~= with_forward_slashes(cs@.take(i as int)));
    }
    assert(cs@.take(i as int) =~= cs@);
    out
}

/// Whether two component lists are the same.
pub fn same_components(a: &Vec<Vec<char>>, b: &Vec<Vec<char>>) -> (r: bool)
    ensures
        r == (a@.map_values(|v: Vec<char>| v@) == b@.map_values(|v: Vec<char>| v@)),
{
    if a.len() != b.len() {
        proof {
            assert(a@.map_values(|v: Vec<char>| v@).len() != b@.map_values(|v: Vec<char>| v@).len());
        }
        return false;
    }
    let mut i: usize = 0;
    while i < a.len()
        invariant
            i <= a.len(),
            a@.len() == b@.len(),
            forall|k: int| 0 <= k < i ==> #[trigger] a@[k]@ == b@[k]@,
        decreases a.len() - i,
    {
        if !chars_eq(&a[i], &b[i]) {
            proof {
                assert(a@.map_values(|v: Vec<char>| v@)[i as int] != b@.map_values(|v: Vec<char>| v@)[i as int]);
            }
            return false;
        }
        i = i + 1;
    }
    assert(a@.map_values(|v: Vec<char>| v@) =~= b@.map_values(|v: Vec<char>| v@));
    true
}

/// Whether two paths name the same file. A query may hand back a canonical
/// path, or the path as the editor spelled it, so the separators are compared
/// loosely as well.
pub fn paths_match(left: &str, right: &str) -> (r: bool)
    ensures
        r == same_path(left@, right@),
{
    let a = components_of(left);
    let b = components_of(right);
    proof {
        assert(a@.map_values(|v: Vec<char>| v@) =~= components(left@));
        assert(b@.map_values(|v: Vec<char>| v@) =~= components(right@));
    }
    if same_components(&a, &b) {
        return true;
    }
    let l = forward_slashes(&chars_of(left));
    let r = forward_slashes(&chars_of(right));
    chars_eq(&l, &r)
}


/// The text between two byte offsets with its whitespace collapsed to single
/// spaces, or nothing when the offsets do not fall between characters.
pub open spec fn snippet_of(cs: Seq<char>, start: int, end: int) -> Seq<char> {
    let b = if end < byte_len(cs) {
        end
    } else {
        byte_len(cs) as int
    };
    if 0 <= start <= b && on_boundary(cs, start) && on_boundary(cs, b) {
        join_words(words(cs.subrange(boundary_index(cs, start) as int, boundary_index(cs, b) as int)))
    } else {
        Seq::empty()
    }
}

/// Whether byte `offset` falls between two characters of `cs`, or at its end.
fn between_characters(cs: &[char], offset: usize, total: usize) -> (r: bool)
    requires
        total == byte_len(cs@),
        offset <= total,
    ensures
        r == on_boundary(cs@, offset as int),
{
    let k = char_index(cs, offset);
    proof {
        crate::lsp::convert::lemma_boundary_index_bound(cs@, offset as int);
    }
    let at = bytes_before(cs, k);
    at == offset || offset == total
}

/// A short quotation of source text: the words between two byte offsets,
/// single-spaced.
pub fn snippet(source: &str, span: Span) -> (out: String)
    ensures
        out@ == snippet_of(source@, span.start as int, span.end as int),
{
    let cs = chars_of(source);
    let total = crate::text::str_len(source);
    let end = if span.end < total {
        span.end
    } else {
        total
    };
    if span.start > end || !between_characters(&cs, span.start, total) || !between_characters(&cs, end, total) {
        return String::new();
    }
    let a = char_index(&cs, span.start);
    let b = char_index(&cs, end);
    proof {
        crate::fmt::lemma_boundary_mono(cs@, span.start as int, end as int);
        crate::lsp::convert::lemma_boundary_index_bound(cs@, end as int);
    }
    let part = crate::text::slice_chars(&cs, a, b);
    let ws = split_words(&part);
    let mut out = String::new();
    let mut k: usize = 0;
    let ghost all = words(part@);
    proof {
        assert(all.take(0) =~= Seq::<Seq<char>>::empty());
    }
    while k < ws.len()
        invariant
            k <= ws.len(),
            ws@.len() == all.len(),
            forall|m: int| 0 <= m < ws@.len() ==> #[trigger] ws@[m]@ == all[m],
            out@ == join_words(all.take(k as int)),
        decreases ws.len() - k,
    {
        proof {
            assert(all.take(k + 1).drop_last() =~= all.take(k as int));
            assert(ws@[k as int]@ == all[k as int]);
        }
        if k > 0 {
            crate::text::push_char(&mut out, ' ');
        }
        crate::text::push_chars(&mut out, &ws[k]);
        proof {
            if k == 0 {
                assert(all.take(1) =~= seq![all[0]]);
            }
            assert(out@ =~= join_words(all.take(k + 1)));
        }
        k = k + 1;
    }
    proof {
        assert(all.take(k as int) =~= all);
    }
    out
}

/// The whole lines a span touches, line breaks included: from the start of
/// the line it begins on to just past the break that ends the line it ends
/// on, or to the end of the text.
pub open spec fn line_span_of(cs: Seq<char>, start: int, end: int) -> (int, int) {
    let s = if start < byte_len(cs) { start } else { byte_len(cs) as int };
    let e = if end < byte_len(cs) { end } else { byte_len(cs) as int };
    let first = line_begin(cs, boundary_index(cs, s) as int);
    let last = match index_from(cs, '\n', boundary_index(cs, e) as int) {
        Some(j) => byte_len(cs.take(j + 1)) as int,
        None => byte_len(cs) as int,
    };
    (byte_len(cs.take(first)) as int, last)
}

/// The whole lines a span touches.
pub fn line_span(text: &str, span: Span) -> (r: Span)
    requires
        on_boundary(text@, span.start as int),
        on_boundary(text@, span.end as int),
    ensures
        (r.start as int, r.end as int) == line_span_of(text@, span.start as int, span.end as int),
{
    let cs = chars_of(text);
    let total = crate::text::str_len(text);
    let s = if span.start < total {
        span.start
    } else {
        total
    };
    let e = if span.end < total {
        span.end
    } else {
        total
    };
    let ks = char_index(&cs, s);
    let ke = char_index(&cs, e);
    proof {
        crate::lsp::convert::lemma_boundary_index_bound(cs@, s as int);
        crate::lsp::convert::lemma_boundary_index_bound(cs@, e as int);
    }
    let mut first = ks;
    while first > 0 && cs[first - 1] != '\n'
        invariant
            first <= ks <= cs.len(),
            line_begin(cs@, first as int) == line_begin(cs@, ks as int),
        decreases first,
    {
        first = first - 1;
    }
    let mut j = ke;
    while j < cs.len() && cs[j] != '\n'
        invariant
            ke <= j <= cs.len(),
            index_from(cs@, '\n', j as int) == index_from(cs@, '\n', ke as int),
        decreases cs.len() - j,
    {
        j = j + 1;
    }
    let start = bytes_before(&cs, first);
    let end = if j < cs.len() {
        bytes_before(&cs, j + 1)
    } else {
        total
    };
    Span { start, end }
}

/// `from PATH keyword names`: the path without its optional `.pi`, the names
/// on the line when there are at most two and the line fits `wrap_column`
/// characters, else one a line, indented, each but the last with a comma.
pub open spec fn render_from_of(
    path: Seq<char>,
    keyword: Seq<char>,
    names: Seq<Seq<char>>,
    star: bool,
    indent: nat,
    wrap_column: nat,
) -> Seq<char> {
    let p = if path.len() >= 3 && path.subrange(path.len() - 3, path.len() as int) == seq!['.', 'p', 'i'] {
        path.take(path.len() - 3)
    } else {
        path
    };
    let head = seq!['f', 'r', 'o', 'm', ' '] + p + seq![' '] + keyword;
    if star {
        head + seq![' ', '*']
    } else if names.len() == 0 {
        head
    } else {
        let single = head + seq![' '] + crate::fmt::join_sep(names, seq![',', ' ']);
        if names.len() > 2 || single.len() > wrap_column {
            head + seq!['\n'] + wrapped_names(names, indent)
        } else {
            single
        }
    }
}

/// Names one a line after `indent` spaces, each but the last with a comma,
/// without a break after the last.
pub open spec fn wrapped_names(names: Seq<Seq<char>>, indent: nat) -> Seq<char>
    decreases names.len(),
{
    if names.len() == 0 {
        Seq::empty()
    } else if names.len() == 1 {
        crate::text::spaces(indent) + names[0]
    } else {
        wrapped_names(names.drop_last(), indent) + seq![',', '\n'] + crate::text::spaces(indent) + names.last()
    }
}

/// Renders an import declaration as the organizer writes it. The indentation
/// and the wrapping column are the formatter's.
pub fn render_from(path: &str, keyword: &str, names: &Vec<String>, star: bool, indent: usize, wrap_column: usize) -> (out: String)
    ensures
        out@ == render_from_of(path@, keyword@, crate::fmt::texts(names@), star, indent as nat, wrap_column as nat),
{
    let pc = chars_of(path);
    let n = pc.len();
    let strip = n >= 3 && pc[n - 3] == '.' && pc[n - 2] == 'p' && pc[n - 1] == 'i';
    let kept = crate::text::slice_chars(&pc, 0, if strip { n - 3 } else { n });
    proof {
        if strip {
            assert(pc@.subrange(n - 3, n as int) =~= seq!['.', 'p', 'i']);
            assert(kept@ =~= pc@.take(n - 3));
        } else {
            if n >= 3 {
                if pc@.subrange(n - 3, n as int) == seq!['.', 'p', 'i'] {
                    assert(pc@.subrange(n - 3, n as int)[0] == pc@[n - 3]);
                    assert(pc@.subrange(n - 3, n as int)[1] == pc@[n - 2]);
                    assert(pc@.subrange(n - 3, n as int)[2] == pc@[n - 1]);
                }
            }
            assert(kept@ =~= pc@);
        }
    }
    let mut head = String::new();
    proof {
        reveal_strlit("from ");
    }
    crate::text::push_str(&mut head, "from ");
    crate::text::push_chars(&mut head, &kept);
    crate::text::push_char(&mut head, ' ');
    crate::text::push_str(&mut head, keyword);
    let ghost h = head@;
    if star {
        crate::text::push_char(&mut head, ' ');
        crate::text::push_char(&mut head, '*');
        proof {
            assert(head@ =~= h + seq![' ', '*']);
        }
        return head;
    }
    if names.len() == 0 {
        return head;
    }
    let ghost ns = crate::fmt::texts(names@);
    let mut single = head.clone();
    crate::text::push_char(&mut single, ' ');
    let ghost base = single@;
    let mut k: usize = 0;
    proof {
        assert(ns.take(0) =~= Seq::<Seq<char>>::empty());
        assert(single@ =~= base + crate::fmt::join_sep(ns.take(0), seq![',', ' ']));
    }
    while k < names.len()
        invariant
            k <= names.len(),
            ns == crate::fmt::texts(names@),
            single@ == base + crate::fmt::join_sep(ns.take(k as int), seq![',', ' ']),
        decreases names.len() - k,
    {
        proof {
            assert(ns.take(k + 1).drop_last() =~= ns.take(k as int));
        }
        if k > 0 {
            crate::text::push_char(&mut single, ',');
            crate::text::push_char(&mut single, ' ');
        }
        crate::text::push_str(&mut single, names[k].as_str());
        proof {
            if k == 0 {
                assert(ns.take(1) =~= seq![ns[0]]);
            }
            assert(single@ =~= base + crate::fmt::join_sep(ns.take(k + 1), seq![',', ' ']));
        }
        k = k + 1;
    }
    proof {
        assert(ns.take(k as int) =~= ns);
    }
    let width = chars_of(single.as_str()).len();
    if names.len() <= 2 && width <= wrap_column {
        return single;
    }
    let mut wrapped = head;
    crate::text::push_char(&mut wrapped, '\n');
    let ghost top = wrapped@;
    let mut m: usize = 0;
    proof {
        assert(wrapped@ =~= top + wrapped_names(ns.take(0), indent as nat));
    }
    while m < names.len()
        invariant
            m <= names.len(),
            ns == crate::fmt::texts(names@),
            wrapped@ == top + wrapped_names(ns.take(m as int), indent as nat),
        decreases names.len() - m,
    {
        proof {
            assert(ns.take(m + 1).drop_last() =~= ns.take(m as int));
        }
        if m > 0 {
            crate::text::push_char(&mut wrapped, ',');
            crate::text::push_char(&mut wrapped, '\n');
        }
        let mut level: usize = 0;
        let ghost before = wrapped@;
        while level < indent
            invariant
                level <= indent,
                wrapped@ == before + crate::text::spaces(level as nat),
            decreases indent - level,
        {
            crate::text::push_char(&mut wrapped, ' ');
            proof {
                assert(crate::text::spaces(level as nat).push(' ') =~= crate::text::spaces((level + 1) as nat));
            }
            level = level + 1;
        }
        crate::text::push_str(&mut wrapped, names[m].as_str());
        proof {
            if m == 0 {
                assert(ns.take(1) =~= seq![ns[0]]);
            }
            assert(wrapped@ =~= top + wrapped_names(ns.take(m + 1), indent as nat));
        }
        m = m + 1;
    }
    proof {
        assert(ns.take(m as int) =~= ns);
    }
    wrapped
}


// ---- one-line previews -----------------------------------------------------------------

/// How many bytes a one-line preview may take.
pub const SHORT_BUDGET: usize = 160;

/// A string's text on one line: each line break shown as `⏎`.
pub open spec fn one_line(t: Seq<char>) -> Seq<char> {
    t.map_values(|c: char| if c == '\n' { '⏎' } else { c })
}

/// A string in a preview: quoted, on one line, and clipped after 48
/// characters with `…`.
pub open spec fn short_str(t: Seq<char>) -> Seq<char> {
    let p = one_line(t);
    seq!['"'] + (if p.len() > 48 { p.take(48) + seq!['…'] } else { p }) + seq!['"']
}

/// What is left of a budget once `text` is written, never below nothing.
pub open spec fn spent(budget: nat, text: Seq<char>) -> nat {
    if byte_len(text) >= budget { 0 } else { (budget - byte_len(text)) as nat }
}

/// A one-line rendering of a value within a budget of bytes, and the budget
/// left after it. Nothing is written once the budget is gone; a list shows
/// at most eight items and a dictionary six entries, with `…` for the rest;
/// an anchor shows its name in braces and a reference its target's name
/// after `@`. A container is charged for all it wrote, its items included,
/// after each item was charged for itself.
pub open spec fn short_of(v: Value, anchors: Seq<AnchorInfo>, budget: nat) -> (Seq<char>, nat)
    decreases v, 0nat,
{
    if budget == 0 {
        (Seq::empty(), 0)
    } else {
        let (text, left): (Seq<char>, nat) = match v {
            Value::Null => ("null"@, budget),
            Value::Bool(b) => (if b { "true"@ } else { "false"@ }, budget),
            Value::Number(n) => (n@, budget),
            Value::Str(t) => (short_str(t@), budget),
            Value::List(items) => {
                let (inner, b) = short_items(items@, anchors, 0, budget);
                (seq!['['] + inner + seq![']'], b)
            },
            Value::Mixed(items) => {
                let (inner, b) = short_items(items@, anchors, 0, budget);
                (seq!['['] + inner + seq![']'], b)
            },
            Value::Dict(entries) => {
                let (inner, b) = short_entries(entries@, anchors, 0, budget);
                (seq!['{'] + inner + seq!['}'], b)
            },
            Value::Anchor(id) => (seq!['{'] + anchors[id as int].name@ + seq!['}'], budget),
            Value::Reference(id) => (seq!['@', '{'] + anchors[id as int].name@ + seq!['}'], budget),
        };
        (text, spent(left, text))
    }
}

/// The items of a list from index `i` on, in a preview.
pub open spec fn short_items(items: Seq<Value>, anchors: Seq<AnchorInfo>, i: nat, budget: nat) -> (Seq<char>, nat)
    decreases items, items.len() - i,
{
    if i >= items.len() {
        (Seq::empty(), budget)
    } else {
        let sep = if i > 0 { seq![',', ' '] } else { Seq::empty() };
        if budget == 0 || i >= 8 {
            (sep + seq!['…'], budget)
        } else {
            let (t, b) = short_of(items[i as int], anchors, budget);
            let (rest, b2) = short_items(items, anchors, i + 1, b);
            (sep + t + rest, b2)
        }
    }
}

/// The entries of a dictionary from index `i` on, in a preview.
pub open spec fn short_entries(entries: Seq<(String, Value)>, anchors: Seq<AnchorInfo>, i: nat, budget: nat) -> (Seq<char>, nat)
    decreases entries, entries.len() - i,
{
    if i >= entries.len() {
        (Seq::empty(), budget)
    } else {
        let sep = if i > 0 { seq![',', ' '] } else { Seq::empty() };
        if budget == 0 || i >= 6 {
            (sep + seq!['…'], budget)
        } else {
            let (t, b) = short_of(entries[i as int].1, anchors, budget);
            let (rest, b2) = short_entries(entries, anchors, i + 1, b);
            (sep + entries[i as int].0@ + seq![':', ' '] + t + rest, b2)
        }
    }
}

fn push_short_str(out: &mut String, t: &str)
    ensures
        final(out)@ == old(out)@ + short_str(t@),
{
    let cs = chars_of(t);
    let ghost p = one_line(t@);
    let ghost start = out@;
    push_char(out, '"');
    let limit: usize = if cs.len() > 48 { 48 } else { cs.len() };
    let mut i: usize = 0;
    while i < limit
        invariant
            i <= limit <= cs.len(),
            cs@ == t@,
            p == one_line(t@),
            out@ == start + seq!['"'] + p.take(i as int),
        decreases limit - i,
    {
        let c = cs[i];
        push_char(out, if c == '\n' { '⏎' } else { c });
        i = i + 1;
        assert(out@ =~= start + seq!['"'] + p.take(i as int));
    }
    if cs.len() > 48 {
        push_char(out, '…');
    } else {
        assert(p.take(i as int) =~= p);
    }
    push_char(out, '"');
    assert(out@ =~= start + short_str(t@));
}

fn short_walk(v: &Value, anchors: &Vec<AnchorInfo>, out: &mut String, budget: &mut usize)
    requires
        names_known(*v, anchors@.len()),
    ensures
        final(out)@ == old(out)@ + short_of(*v, anchors@, *old(budget) as nat).0,
        *final(budget) as nat == short_of(*v, anchors@, *old(budget) as nat).1,
    decreases *v, 0nat,
{
    if *budget == 0 {
        assert(out@ =~= out@ + Seq::<char>::empty());
        return;
    }
    let ghost start = out@;
    let ghost b0 = *budget;
    let before = str_len(out.as_str());
    proof {
        reveal_strlit("null");
        reveal_strlit("true");
        reveal_strlit("false");
    }
    match v {
        Value::Null => push_str(out, "null"),
        Value::Bool(b) => push_str(out, if *b { "true" } else { "false" }),
        Value::Number(n) => push_str(out, n.as_str()),
        Value::Str(t) => push_short_str(out, t.as_str()),
        Value::List(items) => {
            push_char(out, '[');
            short_list(items, anchors, out, budget);
            push_char(out, ']');
        },
        Value::Mixed(items) => {
            push_char(out, '[');
            short_list(items, anchors, out, budget);
            push_char(out, ']');
        },
        Value::Dict(entries) => {
            push_char(out, '{');
            short_dict(entries, anchors, out, budget);
            push_char(out, '}');
        },
        Value::Anchor(id) => {
            push_char(out, '{');
            push_str(out, anchors[*id].name.as_str());
            push_char(out, '}');
        },
        Value::Reference(id) => {
            push_char(out, '@');
            push_char(out, '{');
            push_str(out, anchors[*id].name.as_str());
            push_char(out, '}');
        },
    }
    let ghost text = out@.skip(start.len() as int);
    proof {
        assert(out@ =~= start + text);
        lemma_byte_len_concat(start, text);
    }
    let after = str_len(out.as_str());
    let written = after - before;
    proof {
        assert(text == short_of(*v, anchors@, b0 as nat).0);
        assert(written == byte_len(text));
        assert(short_of(*v, anchors@, b0 as nat).1 == spent(*budget as nat, text));
    }
    *budget = if written >= *budget { 0 } else { *budget - written };
}

fn short_list(items: &Vec<Value>, anchors: &Vec<AnchorInfo>, out: &mut String, budget: &mut usize)
    requires
        forall|i: int| 0 <= i < items@.len() ==> names_known(#[trigger] items@[i], anchors@.len()),
    ensures
        final(out)@ == old(out)@ + short_items(items@, anchors@, 0, *old(budget) as nat).0,
        *final(budget) as nat == short_items(items@, anchors@, 0, *old(budget) as nat).1,
    decreases items@, items@.len() + 1,
{
    let ghost start = out@;
    let ghost whole = short_items(items@, anchors@, 0, *budget as nat);
    let mut i: usize = 0;
    while i < items.len()
        invariant
            i <= items@.len(),
            forall|j: int| 0 <= j < items@.len() ==> names_known(#[trigger] items@[j], anchors@.len()),
            whole == short_items(items@, anchors@, 0, *old(budget) as nat),
            start == old(out)@,
            whole.0 == out@.skip(start.len() as int) + short_items(items@, anchors@, i as nat, *budget as nat).0,
            whole.1 == short_items(items@, anchors@, i as nat, *budget as nat).1,
            out@.len() >= start.len(),
            out@.take(start.len() as int) == start,
        decreases items@.len() - i,
    {
        if i > 0 {
            push_char(out, ',');
            push_char(out, ' ');
        }
        if *budget == 0 || i >= 8 {
            push_char(out, '…');
            assert(out@ =~= start + whole.0);
            return;
        }
        short_walk(&items[i], anchors, out, budget);
        i = i + 1;
        assert(out@.take(start.len() as int) =~= start);
        assert(whole.0 =~= out@.skip(start.len() as int) + short_items(items@, anchors@, i as nat, *budget as nat).0);
    }
    assert(out@ =~= start + whole.0);
}

fn short_dict(entries: &Vec<(String, Value)>, anchors: &Vec<AnchorInfo>, out: &mut String, budget: &mut usize)
    requires
        forall|i: int| 0 <= i < entries@.len() ==> names_known(#[trigger] entries@[i].1, anchors@.len()),
    ensures
        final(out)@ == old(out)@ + short_entries(entries@, anchors@, 0, *old(budget) as nat).0,
        *final(budget) as nat == short_entries(entries@, anchors@, 0, *old(budget) as nat).1,
    decreases entries@, entries@.len() + 1,
{
    let ghost start = out@;
    let ghost whole = short_entries(entries@, anchors@, 0, *budget as nat);
    let mut i: usize = 0;
    while i < entries.len()
        invariant
            i <= entries@.len(),
            forall|j: int| 0 <= j < entries@.len() ==> names_known(#[trigger] entries@[j].1, anchors@.len()),
            whole == short_entries(entries@, anchors@, 0, *old(budget) as nat),
            start == old(out)@,
            whole.0 == out@.skip(start.len() as int) + short_entries(entries@, anchors@, i as nat, *budget as nat).0,
            whole.1 == short_entries(entries@, anchors@, i as nat, *budget as nat).1,
            out@.len() >= start.len(),
            out@.take(start.len() as int) == start,
        decreases entries@.len() - i,
    {
        if i > 0 {
            push_char(out, ',');
            push_char(out, ' ');
        }
        if *budget == 0 || i >= 6 {
            push_char(out, '…');
            assert(out@ =~= start + whole.0);
            return;
        }
        push_str(out, entries[i].0.as_str());
        push_char(out, ':');
        push_char(out, ' ');
        short_walk(&entries[i].1, anchors, out, budget);
        i = i + 1;
        assert(out@.take(start.len() as int) =~= start);
        assert(whole.0 =~= out@.skip(start.len() as int) + short_entries(entries@, anchors@, i as nat, *budget as nat).0);
    }
    assert(out@ =~= start + whole.0);
}

/// A one-line rendering of a value, for a hover step.
pub fn short(v: &Value, anchors: &Vec<AnchorInfo>) -> (text: String)
    requires
        names_known(*v, anchors@.len()),
    ensures
        text@ == short_of(*v, anchors@, SHORT_BUDGET as nat).0,
{
    let mut out = String::new();
    let mut budget: usize = SHORT_BUDGET;
    short_walk(v, anchors, &mut out, &mut budget);
    out
}


// ---- composition rules -------------------------------------------------------------------

/// The operators a composition is written with.
#[derive(Clone, Copy, Debug, PartialEq, Eq, Structural)]
pub enum BinaryOp {
    /// `+`.
    Add,
    /// `++`.
    Concat,
    /// Any other operator.
    Other,
}

/// How a block line combines with everything above it.
#[derive(Clone, Copy, Debug, PartialEq, Eq, Structural)]
pub enum MergeOp {
    /// A `+` line.
    Merge,
    /// A `++` line.
    Concat,
}

/// What a rule reads of an input: the name of its kind, as the compiler
/// writes it, and which kinds it is.
pub struct Operand {
    pub kind: String,
    pub is_number: bool,
    pub is_str: bool,
    pub is_list: bool,
    pub is_dict: bool,
    /// A string, number, boolean or null.
    pub is_simple: bool,
    /// A list, dictionary or anchor.
    pub is_complex: bool,
}

/// What an operator does with a pair of inputs, in words and as an inlay.
pub struct Rule {
    pub explanation: String,
    pub hint: String,
}

impl Rule {
    pub fn new(explanation: &str, hint: &str) -> (r: Rule)
        ensures
            r.explanation@ == explanation@,
            r.hint@ == hint@,
    {
        Rule { explanation: string_of(&chars_of(explanation)), hint: string_of(&chars_of(hint)) }
    }

    /// The rule when an input could not be evaluated.
    pub fn unknown(op: BinaryOp) -> (r: Rule)
        ensures
            (r.explanation@, r.hint@) == unknown_rule(op),
    {
        match op {
            BinaryOp::Concat => Rule::new("`++`: what it does depends on the kinds of its inputs", "++"),
            _ => Rule::new("`+`: what it does depends on the kinds of its inputs", "+"),
        }
    }
}

/// The rule when an input could not be evaluated.
pub open spec fn unknown_rule(op: BinaryOp) -> (Seq<char>, Seq<char>) {
    match op {
        BinaryOp::Concat => ("`++`: what it does depends on the kinds of its inputs"@, "++"@),
        _ => ("`+`: what it does depends on the kinds of its inputs"@, "+"@),
    }
}

/// Why an operator cannot combine two kinds.
pub open spec fn refusal(symbol: Seq<char>, left: Seq<char>, right: Seq<char>) -> Seq<char> {
    seq!['`'] + symbol + "` cannot combine "@ + left + " and "@ + right
}

/// The rule the compiler applies to `left op right`, by the kinds of the
/// two: the explanation, then the inlay.
pub open spec fn rule_of(op: BinaryOp, left: Operand, right: Operand) -> (Seq<char>, Seq<char>) {
    match op {
        BinaryOp::Add => if left.is_number && right.is_number {
            ("`+` adds the two numbers"@, "+ add"@)
        } else if left.is_list && right.is_list {
            (
                "`+` merges the lists: they join in order, and a value that appears more than once is kept only where it appears last"@,
                "+ merge"@,
            )
        } else if left.is_dict && right.is_dict {
            (
                "`+` merges the dictionaries shallowly: keys from both, the right side wins a shared key"@,
                "+ shallow merge"@,
            )
        } else if (left.is_str || right.is_str) && left.is_simple && right.is_simple {
            (
                "`+` joins the strings with nothing in between (a number, boolean or null becomes text first)"@,
                "+ join"@,
            )
        } else if (left.is_str && right.is_complex) || (left.is_complex && right.is_str) {
            ("`+` of text and a list, dictionary or anchor makes an implicit list of the two"@, "+ implicit list"@)
        } else {
            (refusal("+"@, left.kind@, right.kind@), "+ ✗"@)
        },
        BinaryOp::Concat => if left.is_list && right.is_list {
            ("`++` concatenates the lists in order and keeps duplicates"@, "++ concat"@)
        } else if left.is_dict && right.is_dict {
            (
                "`++` merges the dictionaries deeply: nested dictionaries under a shared key merge too, otherwise the right side wins"@,
                "++ deep merge"@,
            )
        } else if (left.is_str || right.is_str) && left.is_simple && right.is_simple {
            ("`++` joins the strings with a line break between them"@, "++ join"@)
        } else {
            (refusal("++"@, left.kind@, right.kind@), "++ ✗"@)
        },
        BinaryOp::Other => ("composition"@, ""@),
    }
}

fn refuse(symbol: &str, left: &Operand, right: &Operand, hint: &str) -> (r: Rule)
    ensures
        r.explanation@ == refusal(symbol@, left.kind@, right.kind@),
        r.hint@ == hint@,
{
    let mut explanation = String::new();
    push_char(&mut explanation, '`');
    push_str(&mut explanation, symbol);
    push_str(&mut explanation, "` cannot combine ");
    push_str(&mut explanation, left.kind.as_str());
    push_str(&mut explanation, " and ");
    push_str(&mut explanation, right.kind.as_str());
    assert(explanation@ =~= refusal(symbol@, left.kind@, right.kind@));
    Rule { explanation, hint: string_of(&chars_of(hint)) }
}

/// The rule the compiler applies to `left op right`, by the kinds of the two.
pub fn rule(op: BinaryOp, left: &Operand, right: &Operand) -> (r: Rule)
    ensures
        (r.explanation@, r.hint@) == rule_of(op, *left, *right),
{
    match op {
        BinaryOp::Add => {
            if left.is_number && right.is_number {
                Rule::new("`+` adds the two numbers", "+ add")
            } else if left.is_list && right.is_list {
                Rule::new(
                    "`+` merges the lists: they join in order, and a value that appears more than once is kept only where it appears last",
                    "+ merge",
                )
            } else if left.is_dict && right.is_dict {
                Rule::new(
                    "`+` merges the dictionaries shallowly: keys from both, the right side wins a shared key",
                    "+ shallow merge",
                )
            } else if (left.is_str || right.is_str) && left.is_simple && right.is_simple {
                Rule::new(
                    "`+` joins the strings with nothing in between (a number, boolean or null becomes text first)",
                    "+ join",
                )
            } else if (left.is_str && right.is_complex) || (left.is_complex && right.is_str) {
                Rule::new(
                    "`+` of text and a list, dictionary or anchor makes an implicit list of the two",
                    "+ implicit list",
                )
            } else {
                refuse("+", left, right, "+ ✗")
            }
        },
        BinaryOp::Concat => {
            if left.is_list && right.is_list {
                Rule::new("`++` concatenates the lists in order and keeps duplicates", "++ concat")
            } else if left.is_dict && right.is_dict {
                Rule::new(
                    "`++` merges the dictionaries deeply: nested dictionaries under a shared key merge too, otherwise the right side wins",
                    "++ deep merge",
                )
            } else if (left.is_str || right.is_str) && left.is_simple && right.is_simple {
                Rule::new("`++` joins the strings with a line break between them", "++ join")
            } else {
                refuse("++", left, right, "++ ✗")
            }
        },
        BinaryOp::Other => Rule::new("composition", ""),
    }
}

/// The operator a block line is written with.
pub open spec fn step_op(op: MergeOp) -> BinaryOp {
    match op {
        MergeOp::Merge => BinaryOp::Add,
        MergeOp::Concat => BinaryOp::Concat,
    }
}

/// An operator's symbol.
pub open spec fn symbol_of(op: MergeOp) -> Seq<char> {
    match op {
        MergeOp::Merge => "+"@,
        MergeOp::Concat => "++"@,
    }
}

/// The rule for one block line, which has the block above it as its left
/// side: the first line starts the block; a single value combined into a
/// list is one more item, so it is read as the list of it (`as_item`).
pub open spec fn step_rule_of(op: MergeOp, before: Option<Operand>, operand: Operand, as_item: Operand) -> (Seq<char>, Seq<char>) {
    match before {
        None => (seq!['`'] + symbol_of(op) + "` with nothing above it: the block starts as this value"@, symbol_of(op)),
        Some(b) => rule_of(step_op(op), b, if b.is_list && !operand.is_list { as_item } else { operand }),
    }
}

/// The rule for one block line. `as_item` is the line's value as the one
/// item of a list.
pub fn step_rule(op: MergeOp, before: Option<&Operand>, operand: &Operand, as_item: &Operand) -> (r: Rule)
    ensures
        (r.explanation@, r.hint@) == step_rule_of(
            op,
            match before { Some(b) => Some(*b), None => None },
            *operand,
            *as_item,
        ),
{
    let binary = match op {
        MergeOp::Merge => BinaryOp::Add,
        MergeOp::Concat => BinaryOp::Concat,
    };
    let symbol = match op {
        MergeOp::Merge => "+",
        MergeOp::Concat => "++",
    };
    match before {
        None => {
            let mut explanation = String::new();
            push_char(&mut explanation, '`');
            push_str(&mut explanation, symbol);
            push_str(&mut explanation, "` with nothing above it: the block starts as this value");
            proof {
                reveal_strlit("+");
                reveal_strlit("++");
            }
            assert(explanation@ =~= seq!['`'] + symbol_of(op) + "` with nothing above it: the block starts as this value"@);
            Rule { explanation, hint: string_of(&chars_of(symbol)) }
        },
        Some(b) => {
            let right = if b.is_list && !operand.is_list { as_item } else { operand };
            rule(binary, b, right)
        },
    }
}


// ---- composition summaries ---------------------------------------------------------------

/// ` → ` and a preview, when there is one.
pub open spec fn arrow(preview: Option<Seq<char>>) -> Seq<char> {
    match preview {
        Some(p) => " → "@ + p,
        None => Seq::empty(),
    }
}

/// The hover over `{a + b}` or `{a ++ b}`: the rule, each input as written
/// with a preview of its value where it could be evaluated, then the result,
/// or, when both inputs were evaluated and yet do not combine, a word that
/// the compiler says why.
pub open spec fn binary_summary_of(
    explanation: Seq<char>,
    left: Seq<char>,
    left_value: Option<Seq<char>>,
    right: Seq<char>,
    right_value: Option<Seq<char>>,
    result: Option<Seq<char>>,
) -> Seq<char> {
    "**Composition** — "@ + explanation + "\n\n1. `"@ + left + seq!['`'] + arrow(left_value) + "\n2. `"@
        + right + seq!['`'] + arrow(right_value) + "\n\n"@ + match result {
        Some(p) => "Result:\n\n```\n"@ + p + "\n```"@,
        None => if left_value is Some && right_value is Some {
            "_These inputs do not combine under this operator; see the compiler's error._"@
        } else {
            Seq::empty()
        },
    }
}

pub open spec fn opt_view(s: Option<String>) -> Option<Seq<char>> {
    match s {
        Some(t) => Some(t@),
        None => None,
    }
}

fn push_arrow(out: &mut String, preview: &Option<String>)
    ensures
        final(out)@ == old(out)@ + arrow(opt_view(*preview)),
{
    match preview {
        Some(p) => {
            let ghost start = out@;
            push_str(out, " → ");
            push_str(out, p.as_str());
            assert(out@ =~= start + (" → "@ + p@));
        },
        None => {
            assert(out@ =~= out@ + Seq::<char>::empty());
        },
    }
}

/// Writes the hover over a composition of two inputs: `left` and `right`
/// are the inputs as written, `left_value` and `right_value` previews of
/// what they evaluate to, and `result` a preview of the composed value.
pub fn binary_summary(
    explanation: &str,
    left: &str,
    left_value: &Option<String>,
    right: &str,
    right_value: &Option<String>,
    result: &Option<String>,
) -> (out: String)
    ensures
        out@ == binary_summary_of(
            explanation@,
            left@,
            opt_view(*left_value),
            right@,
            opt_view(*right_value),
            opt_view(*result),
        ),
{
    let mut out = String::new();
    push_str(&mut out, "**Composition** — ");
    push_str(&mut out, explanation);
    push_str(&mut out, "\n\n1. `");
    push_str(&mut out, left);
    push_char(&mut out, '`');
    push_arrow(&mut out, left_value);
    push_str(&mut out, "\n2. `");
    push_str(&mut out, right);
    push_char(&mut out, '`');
    push_arrow(&mut out, right_value);
    push_str(&mut out, "\n\n");
    match result {
        Some(p) => {
            push_str(&mut out, "Result:\n\n```\n");
            push_str(&mut out, p.as_str());
            push_str(&mut out, "\n```");
        },
        None => {
            if left_value.is_some() && right_value.is_some() {
                push_str(&mut out, "_These inputs do not combine under this operator; see the compiler's error._");
            }
        },
    }
    assert(out@ =~= binary_summary_of(
        explanation@,
        left@,
        opt_view(*left_value),
        right@,
        opt_view(*right_value),
        opt_view(*result),
    ));
    out
}

/// One line of a block, as its hover reports it.
pub struct StepSummary {
    /// The line as written.
    pub snippet: String,
    /// What its operator does with the block above it and its own value.
    pub rule: Rule,
    /// A preview of the block above it, when there is one.
    pub before: Option<String>,
    /// A preview of the line's own value.
    pub operand: String,
    /// A preview of the block once the line is combined in.
    pub after: String,
    /// Whether the line leaves the block exactly as it was.
    pub unchanged: bool,
}

/// How the hover over a block opens.
pub open spec fn block_head(name: Seq<char>) -> Seq<char> {
    "**Composition** — `"@ + name
        + "` is built from top to bottom: each `+` or `++` line combines everything above it with its own value.\n\n"@
}

/// Line `k` of a block, counted from one, in its hover.
pub open spec fn step_text(k: nat, step: StepSummary) -> Seq<char> {
    decimal(k + 1) + ". `"@ + step.snippet@ + "` — "@ + step.rule.explanation@ + seq!['\n'] + match step.before {
        Some(b) => "   above: "@ + b@ + " · this line: "@ + step.operand@ + " → "@ + step.after@ + seq!['\n'],
        None => "   this line: "@ + step.operand@ + seq!['\n'],
    }
}

/// The first `k` lines of a block in its hover.
pub open spec fn steps_text(steps: Seq<StepSummary>, k: nat) -> Seq<char>
    decreases k,
{
    if k == 0 || k > steps.len() {
        Seq::empty()
    } else {
        steps_text(steps, (k - 1) as nat) + step_text((k - 1) as nat, steps[k - 1])
    }
}

/// The hover over a block: how it is built, each line with its rule and what
/// it combined, then a preview of the result when there is one.
pub open spec fn block_summary_of(name: Seq<char>, steps: Seq<StepSummary>, result: Option<Seq<char>>) -> Seq<char> {
    block_head(name) + steps_text(steps, steps.len()) + match result {
        Some(p) => "\nResult:\n\n```\n"@ + p + "\n```"@,
        None => Seq::empty(),
    }
}

/// The inlays of the first `k` lines, each once, in the order they first
/// appear.
pub open spec fn step_hints(steps: Seq<StepSummary>, k: nat) -> Seq<Seq<char>>
    decreases k,
{
    if k == 0 || k > steps.len() {
        Seq::empty()
    } else {
        let before = step_hints(steps, (k - 1) as nat);
        let hint = steps[k - 1].rule.hint@;
        if before.contains(hint) {
            before
        } else {
            before.push(hint)
        }
    }
}

/// The indices, among the first `k`, of the lines that leave the block as it
/// was.
pub open spec fn redundant_steps(steps: Seq<StepSummary>, k: nat) -> Seq<int>
    decreases k,
{
    if k == 0 || k > steps.len() {
        Seq::empty()
    } else {
        let before = redundant_steps(steps, (k - 1) as nat);
        if steps[k - 1].unchanged {
            before.push(k - 1)
        } else {
            before
        }
    }
}

fn push_step(out: &mut String, k: usize, step: &StepSummary)
    requires
        k < usize::MAX,
    ensures
        final(out)@ == old(out)@ + step_text(k as nat, *step),
{
    let ghost start = out@;
    push_decimal(out, k + 1);
    push_str(out, ". `");
    push_str(out, step.snippet.as_str());
    push_str(out, "` — ");
    push_str(out, step.rule.explanation.as_str());
    push_char(out, '\n');
    match &step.before {
        Some(b) => {
            push_str(out, "   above: ");
            push_str(out, b.as_str());
            push_str(out, " · this line: ");
            push_str(out, step.operand.as_str());
            push_str(out, " → ");
            push_str(out, step.after.as_str());
            push_char(out, '\n');
        },
        None => {
            push_str(out, "   this line: ");
            push_str(out, step.operand.as_str());
            push_char(out, '\n');
        },
    }
    assert(out@ =~= start + step_text(k as nat, *step));
}

/// Writes the hover over a block of `+`/`++` lines named `name`, with a
/// preview of its result; with it come the lines' inlays, each once and
/// joined by commas, and the indices of the lines that change nothing.
pub fn block_summary(name: &str, steps: &Vec<StepSummary>, result: &Option<String>) -> (r: (String, String, Vec<usize>))
    ensures
        r.0@ == block_summary_of(name@, steps@, opt_view(*result)),
        r.1@ == join_sep(step_hints(steps@, steps@.len()), ", "@),
        r.2@.map_values(|i: usize| i as int) == redundant_steps(steps@, steps@.len()),
{
    let mut out = String::new();
    push_str(&mut out, "**Composition** — `");
    push_str(&mut out, name);
    push_str(&mut out, "` is built from top to bottom: each `+` or `++` line combines everything above it with its own value.\n\n");
    let ghost head = out@;
    assert(head =~= block_head(name@));
    let mut hints: Vec<String> = Vec::new();
    let mut redundant: Vec<usize> = Vec::new();
    let mut k: usize = 0;
    while k < steps.len()
        invariant
            k <= steps@.len(),
            head == block_head(name@),
            out@ == head + steps_text(steps@, k as nat),
            texts(hints@) == step_hints(steps@, k as nat),
            redundant@.map_values(|i: usize| i as int) == redundant_steps(steps@, k as nat),
        decreases steps@.len() - k,
    {
        let step = &steps[k];
        push_step(&mut out, k, step);
        let mut seen = false;
        let mut j: usize = 0;
        while j < hints.len()
            invariant
                j <= hints@.len(),
                seen == (exists|i: int| 0 <= i < j && hints@[i]@ == step.rule.hint@),
            decreases hints@.len() - j,
        {
            if str_eq(hints[j].as_str(), step.rule.hint.as_str()) {
                seen = true;
            }
            j = j + 1;
        }
        let ghost before_hints = texts(hints@);
        proof {
            if seen {
                let i = choose|i: int| 0 <= i < j && hints@[i]@ == step.rule.hint@;
                assert(before_hints[i] == step.rule.hint@);
            } else {
                assert forall|i: int| 0 <= i < before_hints.len() implies before_hints[i] != step.rule.hint@ by {
                    assert(before_hints[i] == hints@[i]@);
                }
            }
        }
        if !seen {
            hints.push(string_of(&chars_of(step.rule.hint.as_str())));
            proof {
                assert(texts(hints@) =~= before_hints.push(step.rule.hint@));
            }
        }
        let ghost before_redundant = redundant@.map_values(|i: usize| i as int);
        if step.unchanged {
            redundant.push(k);
            proof {
                assert(redundant@.map_values(|i: usize| i as int) =~= before_redundant.push(k as int));
            }
        }
        k = k + 1;
    }
    match result {
        Some(p) => {
            push_str(&mut out, "\nResult:\n\n```\n");
            push_str(&mut out, p.as_str());
            push_str(&mut out, "\n```");
        },
        None => {},
    }
    assert(out@ =~= block_summary_of(name@, steps@, opt_view(*result)));
    let mut joined = String::new();
    push_joined(&mut joined, &hints, ", ");
    assert(joined@ =~= join_sep(step_hints(steps@, steps@.len()), ", "@));
    (out, joined, redundant)
}

/// What a line that changes nothing is told, by its operator.
pub fn redundant_help(op: MergeOp) -> (help: &'static str)
    ensures
        help@ == match op {
            MergeOp::Merge => "everything it adds is already there once `+` has combined them"@,
            MergeOp::Concat => "combining with it leaves the value as it was"@,
        },
{
    match op {
        MergeOp::Merge => "everything it adds is already there once `+` has combined them",
        MergeOp::Concat => "combining with it leaves the value as it was",
    }
}


// ---- previews and compositions -----------------------------------------------------------

/// How many characters of rendered Markdown a hover previews.
pub const PREVIEW_LIMIT: usize = 400;

/// A rendered value in a hover: without trailing whitespace, and clipped
/// after 400 characters with `…` on a line of its own.
pub open spec fn clipped_of(rendered: Seq<char>) -> Seq<char> {
    let t = crate::text::trim_end(rendered);
    if t.len() <= 400 {
        t
    } else {
        t.take(400) + seq!['\n', '…']
    }
}

/// Clips a rendered value for a hover.
pub fn clip_preview(rendered: &str) -> (out: String)
    ensures
        out@ == clipped_of(rendered@),
{
    let cs = chars_of(rendered);
    let end = crate::text::end_of_text(&cs, 0);
    proof {
        assert(cs@.subrange(0, cs@.len() as int) =~= cs@);
    }
    if end <= PREVIEW_LIMIT {
        return string_of(&crate::text::slice_chars(&cs, 0, end));
    }
    let mut out = string_of(&crate::text::slice_chars(&cs, 0, PREVIEW_LIMIT));
    push_char(&mut out, '\n');
    push_char(&mut out, '…');
    proof {
        assert(cs@.subrange(0, end as int).take(400) =~= cs@.subrange(0, 400));
    }
    out
}

/// The anchors a value copies in with `{X}`, added to `found` in the order
/// they first appear, each once.
pub open spec fn embedded_of(v: Value, found: Seq<usize>) -> Seq<usize>
    decreases v, 0nat,
{
    match v {
        Value::Anchor(a) => if found.contains(a) { found } else { found.push(a) },
        Value::List(items) => embedded_items(items@, found, items@.len()),
        Value::Mixed(items) => embedded_items(items@, found, items@.len()),
        Value::Dict(entries) => embedded_entries(entries@, found, entries@.len()),
        _ => found,
    }
}

/// The anchors the first `k` items copy in, added to `found`.
pub open spec fn embedded_items(items: Seq<Value>, found: Seq<usize>, k: nat) -> Seq<usize>
    decreases items, k,
{
    if k == 0 || k > items.len() {
        found
    } else {
        embedded_of(items[k - 1], embedded_items(items, found, (k - 1) as nat))
    }
}

/// The anchors the first `k` entries copy in, added to `found`.
pub open spec fn embedded_entries(entries: Seq<(String, Value)>, found: Seq<usize>, k: nat) -> Seq<usize>
    decreases entries, k,
{
    if k == 0 || k > entries.len() {
        found
    } else {
        embedded_of(entries[k - 1].1, embedded_entries(entries, found, (k - 1) as nat))
    }
}

fn collect_embedded(v: &Value, found: &mut Vec<usize>)
    ensures
        final(found)@ == embedded_of(*v, old(found)@),
    decreases *v, 0nat,
{
    match v {
        Value::Anchor(a) => {
            let mut seen = false;
            let mut j: usize = 0;
            while j < found.len()
                invariant
                    j <= found@.len(),
                    seen == (exists|m: int| 0 <= m < j && found@[m] == *a),
                decreases found@.len() - j,
            {
                if found[j] == *a {
                    seen = true;
                }
                j = j + 1;
            }
            if !seen {
                found.push(*a);
            } else {
                proof {
                    let m = choose|m: int| 0 <= m < j && found@[m] == *a;
                    assert(found@.contains(*a));
                }
            }
        },
        Value::List(items) => collect_items(items, found),
        Value::Mixed(items) => collect_items(items, found),
        Value::Dict(entries) => collect_entries(entries, found),
        _ => {},
    }
}

fn collect_items(items: &Vec<Value>, found: &mut Vec<usize>)
    ensures
        final(found)@ == embedded_items(items@, old(found)@, items@.len()),
    decreases items@, 1nat,
{
    let ghost start = found@;
    let mut k: usize = 0;
    while k < items.len()
        invariant
            k <= items@.len(),
            found@ == embedded_items(items@, start, k as nat),
        decreases items@.len() - k,
    {
        collect_embedded(&items[k], found);
        k = k + 1;
    }
}

fn collect_entries(entries: &Vec<(String, Value)>, found: &mut Vec<usize>)
    ensures
        final(found)@ == embedded_entries(entries@, old(found)@, entries@.len()),
    decreases entries@, 1nat,
{
    let ghost start = found@;
    let mut k: usize = 0;
    while k < entries.len()
        invariant
            k <= entries@.len(),
            found@ == embedded_entries(entries@, start, k as nat),
        decreases entries@.len() - k,
    {
        collect_embedded(&entries[k].1, found);
        k = k + 1;
    }
}

/// Every anchor but `this`.
pub open spec fn other_than(this: usize) -> spec_fn(usize) -> bool {
    |a: usize| a != this
}

/// The anchors the values an anchor writes itself copy in with `{X}`, each
/// once in the order they first appear, leaving out the anchor itself.
pub open spec fn embedded_anchors_of(values: Seq<Value>, this: usize) -> Seq<usize> {
    embedded_items(values, Seq::empty(), values.len()).filter(other_than(this))
}

/// Which anchors an anchor copies in, from the values it writes itself.
pub fn embedded_anchors(values: &Vec<Value>, this: usize) -> (out: Vec<usize>)
    ensures
        out@ == embedded_anchors_of(values@, this),
{
    let mut found: Vec<usize> = Vec::new();
    collect_items(values, &mut found);
    let ghost all = found@;
    let mut out: Vec<usize> = Vec::new();
    let mut k: usize = 0;
    proof {
        assert(all.take(0).filter(other_than(this)) =~= Seq::<usize>::empty());
    }
    while k < found.len()
        invariant
            k <= found@.len(),
            found@ == all,
            out@ == all.take(k as int).filter(other_than(this)),
        decreases found@.len() - k,
    {
        proof {
            assert(all.take(k + 1).drop_last() =~= all.take(k as int));
            all.take(k as int).lemma_filter_push(all[k as int], other_than(this));
            assert(all.take(k as int).push(all[k as int]) =~= all.take(k + 1));
        }
        if found[k] != this {
            out.push(found[k]);
        }
        k = k + 1;
    }
    proof {
        assert(all.take(k as int) =~= all);
    }
    out
}


// ---- import diagnostics ------------------------------------------------------------------

/// One name of a `from PATH import ...` list, with what the compiler and the
/// index say of it: whether it resolves, and whether the file references it.
pub struct ImportItem {
    pub name: String,
    pub at: Span,
    pub resolves: bool,
    pub referenced: bool,
}

/// What an import list is warned about.
#[derive(Debug, PartialEq, Eq)]
pub enum ImportFinding {
    /// A name imported a second time, with where it was first imported.
    Duplicate { name: String, at: Span, first: Span },
    /// A name imported and never referenced.
    Unused { name: String, at: Span },
    /// The list names `unused` symbols the file does not reference, beside
    /// some it does.
    Broad { unused: usize },
}

pub enum ImportFindingView {
    Duplicate { name: Seq<char>, at: Span, first: Span },
    Unused { name: Seq<char>, at: Span },
    Broad { unused: nat },
}

impl View for ImportFinding {
    type V = ImportFindingView;

    open spec fn view(&self) -> ImportFindingView {
        match self {
            ImportFinding::Duplicate { name, at, first } => ImportFindingView::Duplicate {
                name: name@,
                at: *at,
                first: *first,
            },
            ImportFinding::Unused { name, at } => ImportFindingView::Unused { name: name@, at: *at },
            ImportFinding::Broad { unused } => ImportFindingView::Broad { unused: *unused as nat },
        }
    }
}

/// The first of the items from `j` to before `k` named `name`.
pub open spec fn first_named(items: Seq<ImportItem>, name: Seq<char>, j: int, k: int) -> Option<int>
    decreases k - j,
{
    if j < 0 || j >= k || k > items.len() {
        None
    } else if items[j].name@ == name {
        Some(j)
    } else {
        first_named(items, name, j + 1, k)
    }
}

/// What the first `k` items of an import list are warned about, with how
/// many resolve and are referenced and how many resolve and are not. A name
/// imported again is a duplicate of where it first was, and nothing more;
/// a name that does not resolve is the compiler's to report.
pub open spec fn list_findings(items: Seq<ImportItem>, k: nat) -> (Seq<ImportFindingView>, nat, nat)
    decreases k,
{
    if k == 0 || k > items.len() {
        (Seq::empty(), 0, 0)
    } else {
        let (found, used, unused) = list_findings(items, (k - 1) as nat);
        let it = items[k - 1];
        match first_named(items, it.name@, 0, k - 1) {
            Some(j) => (found.push(ImportFindingView::Duplicate { name: it.name@, at: it.at, first: items[j].at }), used, unused),
            None => if !it.resolves {
                (found, used, unused)
            } else if it.referenced {
                (found, used + 1, unused)
            } else {
                (found.push(ImportFindingView::Unused { name: it.name@, at: it.at }), used, unused + 1)
            },
        }
    }
}

/// What an import list is warned about, in order: each duplicate and each
/// unused name, then, when it names both symbols the file references and
/// symbols it does not, that it is broader than it needs to be.
pub open spec fn import_findings_of(items: Seq<ImportItem>) -> Seq<ImportFindingView> {
    let (found, used, unused) = list_findings(items, items.len());
    if used > 0 && unused > 0 {
        found.push(ImportFindingView::Broad { unused })
    } else {
        found
    }
}

proof fn lemma_first_named(items: Seq<ImportItem>, name: Seq<char>, j: int, k: int)
    ensures
        match first_named(items, name, j, k) {
            Some(m) => j <= m < k && items[m].name@ == name,
            None => true,
        },
    decreases k - j,
{
    if !(j < 0 || j >= k || k > items.len()) && items[j].name@ != name {
        lemma_first_named(items, name, j + 1, k);
    }
}

fn first_named_exec(items: &Vec<ImportItem>, k: usize) -> (r: Option<usize>)
    requires
        k < items@.len(),
    ensures
        r == match first_named(items@, items@[k as int].name@, 0, k as int) {
            Some(j) => Some(j as usize),
            None => None::<usize>,
        },
        match r {
            Some(j) => j < k,
            None => true,
        },
{
    let mut j: usize = 0;
    while j < k
        invariant
            j <= k < items@.len(),
            first_named(items@, items@[k as int].name@, 0, k as int) == first_named(items@, items@[k as int].name@, j as int, k as int),
        decreases k - j,
    {
        if str_eq(items[j].name.as_str(), items[k].name.as_str()) {
            return Some(j);
        }
        j = j + 1;
    }
    None
}

/// What an import list is warned about, from what the compiler and the
/// index say of each of its names.
pub fn import_findings(items: &Vec<ImportItem>) -> (found: Vec<ImportFinding>)
    ensures
        found@.map_values(|f: ImportFinding| f@) == import_findings_of(items@),
{
    let mut found: Vec<ImportFinding> = Vec::new();
    let mut used: usize = 0;
    let mut unused: usize = 0;
    let mut k: usize = 0;
    while k < items.len()
        invariant
            k <= items@.len(),
            (found@.map_values(|f: ImportFinding| f@), used as nat, unused as nat) == list_findings(items@, k as nat),
            used + unused <= k,
        decreases items@.len() - k,
    {
        let ghost before = found@.map_values(|f: ImportFinding| f@);
        let it = &items[k];
        proof {
            lemma_first_named(items@, items@[k as int].name@, 0, k as int);
        }
        match first_named_exec(items, k) {
            Some(j) => {
                let f = ImportFinding::Duplicate {
                    name: string_of(&chars_of(it.name.as_str())),
                    at: it.at,
                    first: items[j].at,
                };
                found.push(f);
                assert(found@.map_values(|f: ImportFinding| f@) =~= before.push(f@));
            },
            None => {
                if it.resolves {
                    if it.referenced {
                        used = used + 1;
                    } else {
                        unused = unused + 1;
                        let f = ImportFinding::Unused { name: string_of(&chars_of(it.name.as_str())), at: it.at };
                        found.push(f);
                        assert(found@.map_values(|f: ImportFinding| f@) =~= before.push(f@));
                    }
                }
            },
        }
        k = k + 1;
    }
    if used > 0 && unused > 0 {
        let ghost before = found@.map_values(|f: ImportFinding| f@);
        let f = ImportFinding::Broad { unused };
        found.push(f);
        assert(found@.map_values(|f: ImportFinding| f@) =~= before.push(f@));
    }
    found
}

/// What an import finding says, for the declaration `from path import ...`.
pub open spec fn import_message_of(f: ImportFindingView, path: Seq<char>) -> Seq<char> {
    match f {
        ImportFindingView::Duplicate { name, .. } => seq!['`'] + name + "` is imported more than once"@,
        ImportFindingView::Unused { name, .. } => seq!['`'] + name + "` is imported but never referenced"@,
        ImportFindingView::Broad { unused } => "`from "@ + path + " import` names "@ + decimal(unused) + " symbol"@
            + (if unused == 1 { Seq::empty() } else { seq!['s'] }) + " this file does not reference"@,
    }
}

/// Writes what an import finding says.
pub fn import_message(f: &ImportFinding, path: &str) -> (message: String)
    ensures
        message@ == import_message_of(f@, path@),
{
    let mut m = String::new();
    match f {
        ImportFinding::Duplicate { name, .. } => {
            push_char(&mut m, '`');
            push_str(&mut m, name.as_str());
            push_str(&mut m, "` is imported more than once");
        },
        ImportFinding::Unused { name, .. } => {
            push_char(&mut m, '`');
            push_str(&mut m, name.as_str());
            push_str(&mut m, "` is imported but never referenced");
        },
        ImportFinding::Broad { unused } => {
            push_str(&mut m, "`from ");
            push_str(&mut m, path);
            push_str(&mut m, " import` names ");
            push_decimal(&mut m, *unused);
            push_str(&mut m, " symbol");
            if *unused != 1 {
                push_char(&mut m, 's');
            }
            push_str(&mut m, " this file does not reference");
        },
    }
    assert(m@ =~= import_message_of(f@, path@));
    m
}


/// A `use PATH` line, with what the index says of it: whether the file
/// references a keyword it brings in, and whether the module declares any.
pub struct UseItem {
    pub path: String,
    pub at: Span,
    pub referenced: bool,
    pub declares_keywords: bool,
}

/// What a `use` line is warned about.
#[derive(Debug, PartialEq, Eq)]
pub enum UseFinding {
    /// The path was used before, with where.
    Duplicate { path: String, at: Span, first: Span },
    /// None of its keywords are referenced, or the module declares none.
    Unused { path: String, at: Span, declares_keywords: bool },
}

pub enum UseFindingView {
    Duplicate { path: Seq<char>, at: Span, first: Span },
    Unused { path: Seq<char>, at: Span, declares_keywords: bool },
}

impl View for UseFinding {
    type V = UseFindingView;

    open spec fn view(&self) -> UseFindingView {
        match self {
            UseFinding::Duplicate { path, at, first } => UseFindingView::Duplicate { path: path@, at: *at, first: *first },
            UseFinding::Unused { path, at, declares_keywords } => UseFindingView::Unused {
                path: path@,
                at: *at,
                declares_keywords: *declares_keywords,
            },
        }
    }
}

/// The first of the lines from `j` to before `k` that use `path`.
pub open spec fn first_use(uses: Seq<UseItem>, path: Seq<char>, j: int, k: int) -> Option<int>
    decreases k - j,
{
    if j < 0 || j >= k || k > uses.len() {
        None
    } else if uses[j].path@ == path {
        Some(j)
    } else {
        first_use(uses, path, j + 1, k)
    }
}

/// What the first `k` `use` lines of a file are warned about, in order: a
/// line that repeats an earlier one is a duplicate and nothing more; one
/// whose keywords the file never references is unused.
pub open spec fn use_findings_of(uses: Seq<UseItem>, k: nat) -> Seq<UseFindingView>
    decreases k,
{
    if k == 0 || k > uses.len() {
        Seq::empty()
    } else {
        let found = use_findings_of(uses, (k - 1) as nat);
        let u = uses[k - 1];
        match first_use(uses, u.path@, 0, k - 1) {
            Some(j) => found.push(UseFindingView::Duplicate { path: u.path@, at: u.at, first: uses[j].at }),
            None => if u.referenced {
                found
            } else {
                found.push(UseFindingView::Unused { path: u.path@, at: u.at, declares_keywords: u.declares_keywords })
            },
        }
    }
}

proof fn lemma_first_use(uses: Seq<UseItem>, path: Seq<char>, j: int, k: int)
    ensures
        match first_use(uses, path, j, k) {
            Some(m) => j <= m < k,
            None => true,
        },
    decreases k - j,
{
    if !(j < 0 || j >= k || k > uses.len()) && uses[j].path@ != path {
        lemma_first_use(uses, path, j + 1, k);
    }
}

fn first_use_exec(uses: &Vec<UseItem>, k: usize) -> (r: Option<usize>)
    requires
        k < uses@.len(),
    ensures
        r == match first_use(uses@, uses@[k as int].path@, 0, k as int) {
            Some(j) => Some(j as usize),
            None => None::<usize>,
        },
{
    let mut j: usize = 0;
    while j < k
        invariant
            j <= k < uses@.len(),
            first_use(uses@, uses@[k as int].path@, 0, k as int) == first_use(uses@, uses@[k as int].path@, j as int, k as int),
        decreases k - j,
    {
        if str_eq(uses[j].path.as_str(), uses[k].path.as_str()) {
            return Some(j);
        }
        j = j + 1;
    }
    None
}

/// What a file's `use` lines are warned about, from what the index says of
/// each.
pub fn use_findings(uses: &Vec<UseItem>) -> (found: Vec<UseFinding>)
    ensures
        found@.map_values(|f: UseFinding| f@) == use_findings_of(uses@, uses@.len()),
{
    let mut found: Vec<UseFinding> = Vec::new();
    let mut k: usize = 0;
    while k < uses.len()
        invariant
            k <= uses@.len(),
            found@.map_values(|f: UseFinding| f@) == use_findings_of(uses@, k as nat),
        decreases uses@.len() - k,
    {
        let ghost before = found@.map_values(|f: UseFinding| f@);
        let u = &uses[k];
        proof {
            lemma_first_use(uses@, u.path@, 0, k as int);
        }
        let first = first_use_exec(uses, k);
        match first {
            Some(j) => {
                let f = UseFinding::Duplicate { path: string_of(&chars_of(u.path.as_str())), at: u.at, first: uses[j].at };
                found.push(f);
                assert(found@.map_values(|f: UseFinding| f@) =~= before.push(f@));
            },
            None => {
                if !u.referenced {
                    let f = UseFinding::Unused {
                        path: string_of(&chars_of(u.path.as_str())),
                        at: u.at,
                        declares_keywords: u.declares_keywords,
                    };
                    found.push(f);
                    assert(found@.map_values(|f: UseFinding| f@) =~= before.push(f@));
                }
            },
        }
        k = k + 1;
    }
    found
}

/// What a `use` finding says.
pub open spec fn use_message_of(f: UseFindingView) -> Seq<char> {
    match f {
        UseFindingView::Duplicate { path, .. } => "`use "@ + path + "` repeats an earlier declaration"@,
        UseFindingView::Unused { path, declares_keywords, .. } => if declares_keywords {
            "`use "@ + path + "` is unused; none of its keywords are referenced"@
        } else {
            "`use "@ + path + "` imports keywords, and that module declares none"@
        },
    }
}

/// Writes what a `use` finding says.
pub fn use_message(f: &UseFinding) -> (message: String)
    ensures
        message@ == use_message_of(f@),
{
    let mut m = String::new();
    push_str(&mut m, "`use ");
    match f {
        UseFinding::Duplicate { path, .. } => {
            push_str(&mut m, path.as_str());
            push_str(&mut m, "` repeats an earlier declaration");
        },
        UseFinding::Unused { path, declares_keywords, .. } => {
            push_str(&mut m, path.as_str());
            if *declares_keywords {
                push_str(&mut m, "` is unused; none of its keywords are referenced");
            } else {
                push_str(&mut m, "` imports keywords, and that module declares none");
            }
        },
    }
    assert(m@ =~= use_message_of(f@));
    m
}

} // verus!
