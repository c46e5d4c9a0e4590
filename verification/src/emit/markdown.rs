//! Markdown serialization: headings, paragraphs, and the lines of a value
//! that continue under a list item or map entry.
use vstd::prelude::*;

use crate::text::{chars_of, lines, lines_of, push_char, push_chars, push_str, spaces};

verus! {

/// A resolver that produces no links; references fall back to their name.
pub struct NoLinks;

impl NoLinks {
    /// The link target for the reference named `target`: never one.
    pub fn link(&self, target: &str) -> (r: Option<String>)
        ensures
            r is None,
    {
        None
    }
}

/// How a reference is written: a Markdown link to where its target was
/// rendered, with the target's name as the link text, or the bare name when
/// the resolver gave no link.
pub open spec fn reference_markup_of(name: Seq<char>, link: Option<Seq<char>>) -> Seq<char> {
    match link {
        Some(l) => seq!['['] + name + seq![']', '('] + l + seq![')'],
        None => name,
    }
}

/// Writes a reference from its name and what the link resolver gave for it.
pub fn reference_markup(name: &str, link: Option<String>) -> (out: String)
    ensures
        out@ == reference_markup_of(name@, match link { Some(l) => Some(l@), None => None }),
{
    let mut out = String::new();
    match link {
        Some(l) => {
            push_char(&mut out, '[');
            push_str(&mut out, name);
            push_char(&mut out, ']');
            push_char(&mut out, '(');
            push_str(&mut out, l.as_str());
            push_char(&mut out, ')');
            assert(out@ =~= seq!['['] + name@ + seq![']', '('] + l@ + seq![')']);
        },
        None => {
            push_str(&mut out, name);
            assert(out@ =~= name@);
        },
    }
    out
}

/// Markdown has six heading levels; past that a title becomes a bold label.
pub open spec fn heading_text(level: nat, title: Seq<char>) -> Seq<char> {
    if level <= 6 {
        Seq::new(level, |i: int| '#') + seq![' '] + title + seq!['\n']
    } else {
        "**"@ + title + "**"@ + seq!['\n']
    }
}

/// A heading at `level`, or a bold label past the sixth.
pub fn heading(level: usize, title: &str) -> (h: String)
    ensures
        h@ == heading_text(level as nat, title@),
{
    let mut out = String::new();
    if level <= 6 {
        let mut i: usize = 0;
        while i < level
            invariant
                i <= level,
                out@ == Seq::new(i as nat, |k: int| '#'),
            decreases level - i,
        {
            push_char(&mut out, '#');
            i = i + 1;
            assert(out@ =~= Seq::new(i as nat, |k: int| '#'));
        }
        push_char(&mut out, ' ');
        push_str(&mut out, title);
        push_char(&mut out, '\n');
    } else {
        push_str(&mut out, "**");
        push_str(&mut out, title);
        push_str(&mut out, "**");
        push_char(&mut out, '\n');
    }
    out
}

/// `cs` without any line breaks at its end.
pub open spec fn without_trailing_breaks(cs: Seq<char>) -> Seq<char>
    decreases cs.len(),
{
    if cs.len() > 0 && cs.last() == '\n' {
        without_trailing_breaks(cs.drop_last())
    } else {
        cs
    }
}

/// Ends a document with exactly one line break.
pub fn finish(out: String) -> (done: String)
    ensures
        done@ == without_trailing_breaks(out@).push('\n'),
{
    let cs = chars_of(out.as_str());
    let mut end = cs.len();
    assert(cs@.take(cs@.len() as int) =~= cs@);
    while end > 0 && cs[end - 1] == '\n'
        invariant
            end <= cs.len(),
            cs@ == out@,
            without_trailing_breaks(cs@) == without_trailing_breaks(cs@.take(end as int)),
        decreases end,
    {
        assert(cs@.take(end as int).drop_last() =~= cs@.take(end - 1));
        end = end - 1;
    }
    assert(cs@.take(cs@.len() as int) =~= cs@);
    let mut done = crate::text::string_of(&crate::text::slice_chars(&cs, 0, end));
    assert(cs@.subrange(0, end as int) =~= cs@.take(end as int));
    push_char(&mut done, '\n');
    done
}

/// Appends `text` and a blank line, unless there is no text.
pub fn paragraph(text: &str, out: &mut String)
    ensures
        final(out)@ == if text@.len() == 0 {
            old(out)@
        } else {
            old(out)@ + text@ + seq!['\n', '\n']
        },
{
    if text.is_empty() {
        return;
    }
    push_str(out, text);
    push_char(out, '\n');
    push_char(out, '\n');
    assert(old(out)@ + text@ + seq!['\n', '\n'] =~= (old(out)@ + text@).push('\n').push('\n'));
}

/// Each line after the first, on a line of its own, behind `pad`.
pub open spec fn continuation_lines(ls: Seq<Seq<char>>, pad: Seq<char>) -> Seq<char>
    decreases ls.len(),
{
    if ls.len() == 0 {
        Seq::empty()
    } else {
        continuation_lines(ls.drop_last(), pad) + seq!['\n'] + pad + ls.last()
    }
}

/// A multi-line value with every line after the first indented by `indent`,
/// so it stays inside its list item or map entry.
pub open spec fn indented_continuations(text: Seq<char>, indent: nat) -> Seq<char> {
    let ls = lines_of(text);
    if ls.len() == 0 {
        Seq::empty()
    } else {
        ls[0] + continuation_lines(ls.drop_first(), spaces(indent))
    }
}

/// Indents every line after the first so a multi-line value stays inside its
/// list item or map entry.
pub fn indent_continuations(text: &str, indent: usize) -> (out: String)
    ensures
        out@ == indented_continuations(text@, indent as nat),
{
    let cs = chars_of(text);
    let ls = lines(&cs);
    let mut out = String::new();
    if ls.len() == 0 {
        return out;
    }
    push_chars(&mut out, &ls[0]);
    let ghost rest = lines_of(text@).drop_first();
    let mut i: usize = 1;
    while i < ls.len()
        invariant
            1 <= i <= ls.len(),
            cs@ == text@,
            ls@.len() == lines_of(text@).len(),
            forall|k: int| 0 <= k < ls@.len() ==> #[trigger] ls@[k]@ == lines_of(text@)[k],
            rest == lines_of(text@).drop_first(),
            out@ == lines_of(text@)[0] + continuation_lines(rest.take(i - 1), spaces(indent as nat)),
        decreases ls.len() - i,
    {
        push_char(&mut out, '\n');
        let mut k: usize = 0;
        while k < indent
            invariant
                k <= indent,
                out@ == lines_of(text@)[0] + continuation_lines(rest.take(i - 1), spaces(indent as nat))
                    + seq!['\n'] + spaces(k as nat),
            decreases indent - k,
        {
            push_char(&mut out, ' ');
            k = k + 1;
            assert(spaces(k as nat) =~= spaces((k - 1) as nat).push(' '));
        }
        push_chars(&mut out, &ls[i]);
        proof {
            assert(rest.take(i as int).drop_last() =~= rest.take(i - 1));
            assert(rest.take(i as int).last() == ls@[i as int]@);
        }
        i = i + 1;
    }
    assert(rest.take(i - 1) =~= rest);
    out
}

} // verus!
