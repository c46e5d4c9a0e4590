//! What hovering shows: over a built-in type, and over a symbol, from what
//! the compiler knows of it.
use vstd::prelude::*;

use crate::emit::{name_of, Adapter};
use crate::fmt::{join_sep, push_joined, texts};
use crate::lsp::features::{truncate, truncated};
use crate::text::{chars_of, lines, lines_of, push_char, push_chars, push_str, str_eq, trim, trimmed_chars};

verus! {

/// What each built-in type is, in a sentence.
pub open spec fn builtin_description(name: Seq<char>) -> Seq<char> {
    if name == "string"@ {
        "A Unicode string. Written unquoted; quote it to defeat coercion."@
    } else if name == "number"@ {
        "A single numeric type; integers and floats are not distinguished."@
    } else if name == "boolean"@ {
        "`true` or `false`."@
    } else if name == "null"@ {
        "The absence of a value. `null == null`."@
    } else if name == "list"@ {
        "An ordered collection. `+` deduplicates, `++` does not."@
    } else if name == "dictionary"@ {
        "Ordered key/value pairs. `+` merges shallowly, `++` deeply."@
    } else if name == "anchor"@ {
        "A named structural declaration."@
    } else if name == "any"@ {
        "Accepts every type."@
    } else if name == "simple"@ {
        "Accepts `string`, `number`, `boolean`, and `null`."@
    } else if name == "complex"@ {
        "Accepts `list`, `dictionary`, and `anchor`."@
    } else {
        "A built-in Piton type."@
    }
}

fn description(name: &str) -> (d: &'static str)
    ensures
        d@ == builtin_description(name@),
{
    if str_eq(name, "string") {
        "A Unicode string. Written unquoted; quote it to defeat coercion."
    } else if str_eq(name, "number") {
        "A single numeric type; integers and floats are not distinguished."
    } else if str_eq(name, "boolean") {
        "`true` or `false`."
    } else if str_eq(name, "null") {
        "The absence of a value. `null == null`."
    } else if str_eq(name, "list") {
        "An ordered collection. `+` deduplicates, `++` does not."
    } else if str_eq(name, "dictionary") {
        "Ordered key/value pairs. `+` merges shallowly, `++` deeply."
    } else if str_eq(name, "anchor") {
        "A named structural declaration."
    } else if str_eq(name, "any") {
        "Accepts every type."
    } else if str_eq(name, "simple") {
        "Accepts `string`, `number`, `boolean`, and `null`."
    } else if str_eq(name, "complex") {
        "Accepts `list`, `dictionary`, and `anchor`."
    } else {
        "A built-in Piton type."
    }
}

/// The hover for a built-in type: its name as code, then what it is.
pub fn builtin_hover(name: &str) -> (text: String)
    ensures
        text@ == "```piton\n"@ + name@ + "\n```\n\n"@ + builtin_description(name@) + "\n"@,
{
    let mut out = String::from_str("```piton\n");
    push_str(&mut out, name);
    push_str(&mut out, "\n```\n\n");
    push_str(&mut out, description(name));
    push_str(&mut out, "\n");
    out
}


// ---- symbols -----------------------------------------------------------------------------

/// What a hover reads of the symbol under the cursor. `rendered` is the
/// compiled value as the hover shows it, where there is one to show.
pub enum HoverTarget {
    Anchor {
        exported: bool,
        is_abstract: bool,
        keyword: String,
        name: String,
        alias: Option<String>,
        summary: Option<String>,
        /// The names of the anchors it inherits from, nearest first.
        chain: Vec<String>,
        declared_in: String,
        /// Shown when it has properties and is not abstract.
        rendered: Option<String>,
    },
    Variable { exported: bool, name: String, constraints: Vec<String>, rendered: Option<String> },
    Property {
        name: String,
        anchor: String,
        /// The base it is inherited from, when another anchor owns it.
        inherited_from: Option<String>,
        /// The base whose declaration its own replaces, when it owns it.
        overrides: Option<String>,
        constraints: Vec<String>,
        has_value: bool,
        rendered: Option<String>,
    },
    Key { anchor: String, path: Vec<String>, rendered: Option<String> },
    /// A keyword, with the anchor it stands for and where that is declared,
    /// when it is in scope.
    Keyword { keyword: String, anchor: Option<(String, String)> },
    Module { path: String },
    Unresolved { name: String },
}

pub open spec fn opt_text(s: Option<String>) -> Seq<char> {
    match s {
        Some(t) => t@,
        None => Seq::empty(),
    }
}

/// `text` then a blank line, when there is text.
pub open spec fn paragraph_of(s: Option<String>) -> Seq<char> {
    match s {
        Some(t) => t@ + "\n\n"@,
        None => Seq::empty(),
    }
}

/// `Constrained to: a or b`, when there are constraints.
pub open spec fn constraints_of(cs: Seq<String>) -> Seq<char> {
    if cs.len() == 0 {
        Seq::empty()
    } else {
        "Constrained to: "@ + join_sep(texts(cs), " or "@) + "\n\n"@
    }
}

/// The hover over an anchor.
pub open spec fn anchor_hover_of(
    exported: bool,
    is_abstract: bool,
    keyword: Seq<char>,
    name: Seq<char>,
    alias: Option<String>,
    summary: Option<String>,
    chain: Seq<String>,
    declared_in: Seq<char>,
    rendered: Option<String>,
) -> Seq<char> {
    "```piton\n"@ + (if exported { "export "@ } else { Seq::empty() }) + (if is_abstract {
        "abstract "@
    } else {
        Seq::empty()
    }) + keyword + seq![' '] + name + (match alias {
        Some(a) => " as "@ + a@,
        None => Seq::empty(),
    }) + "\n```\n\n"@ + paragraph_of(summary) + (if chain.len() == 0 {
        Seq::empty()
    } else {
        "Inherits: "@ + join_sep(texts(chain), " → "@) + "\n\n"@
    }) + "Declared in `"@ + declared_in + "`\n\n"@ + (if exported {
        Seq::empty()
    } else {
        "_Not exported; only this file can use it._\n\n"@
    }) + opt_text(rendered)
}

/// The hover over a symbol; a key with no path has none.
pub open spec fn hover_of(t: HoverTarget) -> Option<Seq<char>> {
    match t {
        HoverTarget::Anchor { exported, is_abstract, keyword, name, alias, summary, chain, declared_in, rendered } => Some(
            anchor_hover_of(exported, is_abstract, keyword@, name@, alias, summary, chain@, declared_in@, rendered),
        ),
        HoverTarget::Variable { exported, name, constraints, rendered } => Some(
            "```piton\n"@ + (if exported { "export "@ } else { Seq::empty() }) + name@ + "\n```\n\n"@
                + constraints_of(constraints@) + opt_text(rendered),
        ),
        HoverTarget::Property { name, anchor, inherited_from, overrides, constraints, has_value, rendered } => Some(
            seq!['`'] + name@ + "` on `"@ + anchor@ + "`\n\n"@ + (match inherited_from {
                Some(base) => "Inherited from `"@ + base@ + "`\n\n"@,
                None => match overrides {
                    Some(base) => "Overrides `"@ + base@ + seq!['.'] + name@ + "`\n\n"@,
                    None => Seq::empty(),
                },
            }) + constraints_of(constraints@) + (if has_value {
                Seq::empty()
            } else {
                "_Abstract: an implementing anchor must define it._\n\n"@
            }) + opt_text(rendered),
        ),
        HoverTarget::Key { anchor, path, rendered } => if path@.len() == 0 {
            None
        } else {
            Some(
                seq!['`'] + path@.last()@ + "` in `"@ + anchor@ + seq!['.'] + join_sep(
                    texts(path@.drop_last()),
                    seq!['.'],
                ) + "`\n\n_A key of that dictionary, not a property of `"@ + anchor@ + "`._\n\n"@
                    + opt_text(rendered),
            )
        },
        HoverTarget::Keyword { keyword, anchor } => Some(
            "Keyword `"@ + keyword@ + "`\n\n"@ + match anchor {
                Some((name, path)) => "Shorthand for `extends "@ + name@ + "`, declared in `"@ + path@
                    + "`.\n\nA user keyword's anchor is always the last base, so it wins any collision with what is in `extends`."@,
                None => "Not in scope. Add a `use` declaration for the module that exports it."@,
            },
        ),
        HoverTarget::Module { path } => Some("Module `"@ + path@ + seq!['`']),
        HoverTarget::Unresolved { name } => Some(seq!['`'] + name@ + "` is not in scope."@),
    }
}

fn push_opt(out: &mut String, s: &Option<String>)
    ensures
        final(out)@ == old(out)@ + opt_text(*s),
{
    match s {
        Some(t) => push_str(out, t.as_str()),
        None => {
            assert(out@ =~= out@ + Seq::<char>::empty());
        },
    }
}

fn push_constraints(out: &mut String, cs: &Vec<String>)
    ensures
        final(out)@ == old(out)@ + constraints_of(cs@),
{
    let ghost start = out@;
    if cs.len() == 0 {
        assert(out@ =~= out@ + Seq::<char>::empty());
    } else {
        push_str(out, "Constrained to: ");
        push_joined(out, cs, " or ");
        push_str(out, "\n\n");
        assert(out@ =~= start + constraints_of(cs@));
    }
}

#[verifier::rlimit(40)]
fn anchor_hover(
    exported: bool,
    is_abstract: bool,
    keyword: &str,
    name: &str,
    alias: &Option<String>,
    summary: &Option<String>,
    chain: &Vec<String>,
    declared_in: &str,
    rendered: &Option<String>,
) -> (out: String)
    ensures
        out@ == anchor_hover_of(exported, is_abstract, keyword@, name@, *alias, *summary, chain@, declared_in@, *rendered),
{
    let mut out = String::new();
    push_str(&mut out, "```piton\n");
    if exported {
        push_str(&mut out, "export ");
    }
    if is_abstract {
        push_str(&mut out, "abstract ");
    }
    push_str(&mut out, keyword);
    push_char(&mut out, ' ');
    push_str(&mut out, name);
    match alias {
        Some(a) => {
            push_str(&mut out, " as ");
            push_str(&mut out, a.as_str());
        },
        None => {},
    }
    push_str(&mut out, "\n```\n\n");
    match summary {
        Some(text) => {
            push_str(&mut out, text.as_str());
            push_str(&mut out, "\n\n");
        },
        None => {},
    }
    if chain.len() > 0 {
        push_str(&mut out, "Inherits: ");
        push_joined(&mut out, chain, " → ");
        push_str(&mut out, "\n\n");
    }
    push_str(&mut out, "Declared in `");
    push_str(&mut out, declared_in);
    push_str(&mut out, "`\n\n");
    if !exported {
        push_str(&mut out, "_Not exported; only this file can use it._\n\n");
    }
    push_opt(&mut out, rendered);
    assert(out@ =~= anchor_hover_of(exported, is_abstract, keyword@, name@, *alias, *summary, chain@, declared_in@, *rendered));
    out
}

/// The hover over a symbol, from what the compiler knows of it.
pub fn describe(t: &HoverTarget) -> (r: Option<String>)
    ensures
        match r {
            Some(text) => hover_of(*t) == Some(text@),
            None => hover_of(*t) is None,
        },
{
    match t {
        HoverTarget::Anchor { exported, is_abstract, keyword, name, alias, summary, chain, declared_in, rendered } => Some(
            anchor_hover(*exported, *is_abstract, keyword.as_str(), name.as_str(), alias, summary, chain, declared_in.as_str(), rendered),
        ),
        HoverTarget::Variable { exported, name, constraints, rendered } => {
            let mut out = String::new();
            push_str(&mut out, "```piton\n");
            if *exported {
                push_str(&mut out, "export ");
            }
            push_str(&mut out, name.as_str());
            push_str(&mut out, "\n```\n\n");
            push_constraints(&mut out, constraints);
            push_opt(&mut out, rendered);
            assert(Some(out@) =~= hover_of(*t));
            Some(out)
        },
        HoverTarget::Property { name, anchor, inherited_from, overrides, constraints, has_value, rendered } => {
            let mut out = String::new();
            push_char(&mut out, '`');
            push_str(&mut out, name.as_str());
            push_str(&mut out, "` on `");
            push_str(&mut out, anchor.as_str());
            push_str(&mut out, "`\n\n");
            match inherited_from {
                Some(base) => {
                    push_str(&mut out, "Inherited from `");
                    push_str(&mut out, base.as_str());
                    push_str(&mut out, "`\n\n");
                },
                None => match overrides {
                    Some(base) => {
                        push_str(&mut out, "Overrides `");
                        push_str(&mut out, base.as_str());
                        push_char(&mut out, '.');
                        push_str(&mut out, name.as_str());
                        push_str(&mut out, "`\n\n");
                    },
                    None => {},
                },
            }
            push_constraints(&mut out, constraints);
            if !*has_value {
                push_str(&mut out, "_Abstract: an implementing anchor must define it._\n\n");
            }
            push_opt(&mut out, rendered);
            assert(Some(out@) =~= hover_of(*t));
            Some(out)
        },
        HoverTarget::Key { anchor, path, rendered } => {
            if path.len() == 0 {
                return None;
            }
            let last = path.len() - 1;
            let mut parents: Vec<String> = Vec::new();
            let mut k: usize = 0;
            while k < last
                invariant
                    k <= last < path@.len(),
                    texts(parents@) == texts(path@.drop_last()).take(k as int),
                decreases last - k,
            {
                let ghost before = texts(parents@);
                let ghost all = texts(path@.drop_last());
                parents.push(crate::text::string_of(&crate::text::chars_of(path[k].as_str())));
                proof {
                    assert(texts(parents@) =~= before.push(path@[k as int]@));
                    assert(all[k as int] == path@[k as int]@);
                    assert(all.take(k + 1) =~= all.take(k as int).push(all[k as int]));
                }
                k = k + 1;
            }
            assert(texts(parents@) =~= texts(path@.drop_last()));
            let mut out = String::new();
            push_char(&mut out, '`');
            push_str(&mut out, path[last].as_str());
            push_str(&mut out, "` in `");
            push_str(&mut out, anchor.as_str());
            push_char(&mut out, '.');
            push_joined(&mut out, &parents, ".");
            push_str(&mut out, "`\n\n_A key of that dictionary, not a property of `");
            push_str(&mut out, anchor.as_str());
            push_str(&mut out, "`._\n\n");
            push_opt(&mut out, rendered);
            proof {
                reveal_strlit(".");
                assert("."@ =~= seq!['.']);
            }
            assert(Some(out@) =~= hover_of(*t));
            Some(out)
        },
        HoverTarget::Keyword { keyword, anchor } => {
            let mut out = String::new();
            push_str(&mut out, "Keyword `");
            push_str(&mut out, keyword.as_str());
            push_str(&mut out, "`\n\n");
            match anchor {
                Some((name, path)) => {
                    push_str(&mut out, "Shorthand for `extends ");
                    push_str(&mut out, name.as_str());
                    push_str(&mut out, "`, declared in `");
                    push_str(&mut out, path.as_str());
                    push_str(
                        &mut out,
                        "`.\n\nA user keyword's anchor is always the last base, so it wins any collision with what is in `extends`.",
                    );
                },
                None => push_str(&mut out, "Not in scope. Add a `use` declaration for the module that exports it."),
            }
            assert(Some(out@) =~= hover_of(*t));
            Some(out)
        },
        HoverTarget::Module { path } => {
            let mut out = String::new();
            push_str(&mut out, "Module `");
            push_str(&mut out, path.as_str());
            push_char(&mut out, '`');
            assert(Some(out@) =~= hover_of(*t));
            Some(out)
        },
        HoverTarget::Unresolved { name } => {
            let mut out = String::new();
            push_char(&mut out, '`');
            push_str(&mut out, name.as_str());
            push_str(&mut out, "` is not in scope.");
            assert(Some(out@) =~= hover_of(*t));
            Some(out)
        },
    }
}


// ---- inlay hints -------------------------------------------------------------------------

/// The labels of a property's inlay: its value's kind, which is what the
/// source does not show, then the base it comes from, or else the base whose
/// declaration it replaces.
pub open spec fn hint_labels(kind: Option<String>, inherited_from: Option<String>, overrides: Option<String>) -> Seq<Seq<char>> {
    (match kind {
        Some(k) => seq![k@],
        None => Seq::empty(),
    }) + match inherited_from {
        Some(base) => seq!["from "@ + base@],
        None => match overrides {
            Some(base) => seq!["overrides "@ + base@],
            None => Seq::empty(),
        },
    }
}

/// A property's inlay after its name, or none when there is nothing to say.
/// `overrides` is given only for a property an anchor owns and writes with no
/// constraint of its own.
pub fn property_hint(kind: &Option<String>, inherited_from: &Option<String>, overrides: &Option<String>) -> (hint: Option<String>)
    ensures
        match hint {
            Some(h) => hint_labels(*kind, *inherited_from, *overrides).len() > 0 && h@ == ": "@ + join_sep(
                hint_labels(*kind, *inherited_from, *overrides),
                ", "@,
            ),
            None => hint_labels(*kind, *inherited_from, *overrides).len() == 0,
        },
{
    let mut labels: Vec<String> = Vec::new();
    match kind {
        Some(k) => labels.push(crate::text::string_of(&crate::text::chars_of(k.as_str()))),
        None => {},
    }
    let second = match inherited_from {
        Some(base) => {
            let mut l = String::new();
            push_str(&mut l, "from ");
            push_str(&mut l, base.as_str());
            Some(l)
        },
        None => match overrides {
            Some(base) => {
                let mut l = String::new();
                push_str(&mut l, "overrides ");
                push_str(&mut l, base.as_str());
                Some(l)
            },
            None => None,
        },
    };
    match second {
        Some(l) => labels.push(l),
        None => {},
    }
    assert(texts(labels@) =~= hint_labels(*kind, *inherited_from, *overrides));
    if labels.len() == 0 {
        return None;
    }
    let mut hint = String::new();
    push_str(&mut hint, ": ");
    push_joined(&mut hint, &labels, ", ");
    Some(hint)
}


// ---- summaries and notes ---------------------------------------------------------------

/// The first of the lines from `i` on with something on it, trimmed.
pub open spec fn first_filled(ls: Seq<Seq<char>>, i: int) -> Option<Seq<char>>
    decreases ls.len() - i,
{
    if i < 0 || i >= ls.len() {
        None
    } else if trim(ls[i]).len() > 0 {
        Some(trim(ls[i]))
    } else {
        first_filled(ls, i + 1)
    }
}

/// Where the first `. ` from index `i` on is.
pub open spec fn sentence_end(t: Seq<char>, i: int) -> Option<int>
    decreases t.len() - i,
{
    if i < 0 || i + 1 >= t.len() {
        None
    } else if t[i] == '.' && t[i + 1] == ' ' {
        Some(i)
    } else {
        sentence_end(t, i + 1)
    }
}

/// The first sentence or line of a description, clipped after 80
/// characters with `…`; none when it has nothing on any line.
pub open spec fn summary_of(plain: Seq<char>) -> Option<Seq<char>> {
    match first_filled(lines_of(plain), 0) {
        None => None,
        Some(first) => {
            let sentence = match sentence_end(first, 0) {
                Some(i) => first.take(i + 1),
                None => first,
            };
            Some(if sentence.len() > 80 { sentence.take(80) + seq!['…'] } else { sentence })
        },
    }
}

proof fn lemma_sentence_end(t: Seq<char>, i: int)
    ensures
        match sentence_end(t, i) {
            Some(j) => i <= j && j + 1 < t.len(),
            None => true,
        },
    decreases t.len() - i,
{
    if !(i < 0 || i + 1 >= t.len()) && !(t[i] == '.' && t[i + 1] == ' ') {
        lemma_sentence_end(t, i + 1);
    }
}

/// The first sentence or line of an anchor's description, for places that
/// have room for a summary: symbol search, hierarchy items, outlines. The
/// description is given as plain text.
pub fn summary(plain: &str) -> (r: Option<String>)
    ensures
        match r {
            Some(s) => summary_of(plain@) == Some(s@),
            None => summary_of(plain@) is None,
        },
{
    let cs = chars_of(plain);
    let ls = lines(&cs);
    let mut i: usize = 0;
    let mut found: Option<Vec<char>> = None;
    while i < ls.len() && found.is_none()
        invariant
            i <= ls@.len(),
            cs@ == plain@,
            ls@.len() == lines_of(cs@).len(),
            forall|k: int| 0 <= k < ls@.len() ==> #[trigger] ls@[k]@ == lines_of(cs@)[k],
            match found {
                None => first_filled(lines_of(cs@), 0) == first_filled(lines_of(cs@), i as int),
                Some(t) => first_filled(lines_of(cs@), 0) == Some(t@) && t@.len() > 0,
            },
        decreases ls@.len() - i + (if found is None { 1int } else { 0int }),
    {
        let t = trimmed_chars(string_of_chars(&ls[i]).as_str());
        if t.len() > 0 {
            found = Some(t);
        } else {
            i = i + 1;
        }
    }
    let first = match found {
        None => return None,
        Some(t) => t,
    };
    let n = first.len();
    let mut end: Option<usize> = None;
    let mut j: usize = 0;
    while j + 1 < n && end.is_none()
        invariant
            n == first@.len(),
            j < n,
            match end {
                None => sentence_end(first@, 0) == sentence_end(first@, j as int),
                Some(e) => sentence_end(first@, 0) == Some(e as int),
            },
        decreases first@.len() - j + (if end is None { 1int } else { 0int }),
    {
        if first[j] == '.' && first[j + 1] == ' ' {
            end = Some(j);
        } else {
            j = j + 1;
        }
    }
    proof {
        lemma_sentence_end(first@, 0);
    }
    let sentence = match end {
        Some(k) => crate::text::slice_chars(&first, 0, k + 1),
        None => crate::text::slice_chars(&first, 0, first.len()),
    };
    let mut out = String::new();
    if sentence.len() > 80 {
        push_chars(&mut out, &crate::text::slice_chars(&sentence, 0, 80));
        push_char(&mut out, '…');
        assert(sentence@.subrange(0, 80) =~= sentence@.take(80));
    } else {
        push_chars(&mut out, &sentence);
    }
    proof {
        assert(first@.subrange(0, first@.len() as int) =~= first@);
    }
    Some(out)
}

fn string_of_chars(cs: &Vec<char>) -> (s: String)
    ensures
        s@ == cs@,
{
    crate::text::string_of(cs)
}

/// The distinct labels among the first `k`, in the order they first appear.
pub open spec fn distinct_labels(labels: Seq<Seq<char>>, k: nat) -> Seq<Seq<char>>
    decreases k,
{
    if k == 0 || k > labels.len() {
        Seq::empty()
    } else {
        let before = distinct_labels(labels, (k - 1) as nat);
        if before.contains(labels[k - 1]) {
            before
        } else {
            before.push(labels[k - 1])
        }
    }
}

/// The note on what a place in the source was compiled to: each output's
/// label once, under a heading; none when nothing was compiled from it.
pub open spec fn mapping_note_of(labels: Seq<Seq<char>>) -> Option<Seq<char>> {
    if labels.len() == 0 {
        None
    } else {
        Some(join_sep(seq!["Compiled to:"@] + distinct_labels(labels, labels.len()).map_values(|l: Seq<char>| "- "@ + l), seq!['\n']))
    }
}

/// The note on what a place in the source was compiled to, from the labels
/// of the outputs written from it.
pub fn mapping_note(labels: &Vec<String>) -> (r: Option<String>)
    ensures
        match r {
            Some(s) => mapping_note_of(texts(labels@)) == Some(s@),
            None => mapping_note_of(texts(labels@)) is None,
        },
{
    if labels.len() == 0 {
        return None;
    }
    let ghost ls = texts(labels@);
    let mut seen: Vec<String> = Vec::new();
    let mut lines_out: Vec<String> = Vec::new();
    lines_out.push(string_of_chars(&chars_of("Compiled to:")));
    let mut k: usize = 0;
    while k < labels.len()
        invariant
            k <= labels@.len(),
            ls == texts(labels@),
            texts(seen@) == distinct_labels(ls, k as nat),
            texts(lines_out@) == seq!["Compiled to:"@] + distinct_labels(ls, k as nat).map_values(|l: Seq<char>| "- "@ + l),
        decreases labels@.len() - k,
    {
        let mut known = false;
        let mut j: usize = 0;
        while j < seen.len()
            invariant
                j <= seen@.len(),
                k < labels@.len(),
                known == (exists|m: int| 0 <= m < j && seen@[m]@ == labels@[k as int]@),
            decreases seen@.len() - j,
        {
            if str_eq(seen[j].as_str(), labels[k].as_str()) {
                known = true;
            }
            j = j + 1;
        }
        let ghost before_seen = texts(seen@);
        let ghost before_lines = texts(lines_out@);
        proof {
            if known {
                let m = choose|m: int| 0 <= m < j && seen@[m]@ == labels@[k as int]@;
                assert(before_seen[m] == ls[k as int]);
            } else {
                assert forall|m: int| 0 <= m < before_seen.len() implies before_seen[m] != ls[k as int] by {
                    assert(before_seen[m] == seen@[m]@);
                }
            }
        }
        if !known {
            seen.push(string_of_chars(&chars_of(labels[k].as_str())));
            let mut line = String::new();
            push_str(&mut line, "- ");
            push_str(&mut line, labels[k].as_str());
            lines_out.push(line);
            proof {
                assert(texts(seen@) =~= before_seen.push(ls[k as int]));
                assert(texts(lines_out@) =~= before_lines.push("- "@ + ls[k as int]));
                assert(distinct_labels(ls, (k + 1) as nat).map_values(|l: Seq<char>| "- "@ + l) =~= distinct_labels(ls, k as nat).map_values(|l: Seq<char>| "- "@ + l).push("- "@ + ls[k as int]));
            }
        }
        k = k + 1;
    }
    let mut note = String::new();
    push_joined(&mut note, &lines_out, "\n");
    proof {
        reveal_strlit("\n");
        assert("\n"@ =~= seq!['\n']);
    }
    Some(note)
}

/// What a hover says a value resolves to: fenced as the configured adapter
/// writes it, cut to 2000 characters.
pub open spec fn resolves_to_of(adapter: Seq<char>, text: Seq<char>) -> Seq<char> {
    "Resolves to ("@ + adapter + "):\n\n```"@ + adapter + seq!['\n'] + truncated(text, 2000) + "\n```"@
}

/// Writes what a hover says a value resolves to, from the value as the
/// configured adapter wrote it.
pub fn resolves_to(adapter: Adapter, text: &str) -> (out: String)
    ensures
        out@ == resolves_to_of(name_of(adapter), text@),
{
    let name = adapter.as_str();
    let mut out = String::new();
    push_str(&mut out, "Resolves to (");
    push_str(&mut out, name);
    push_str(&mut out, "):\n\n```");
    push_str(&mut out, name);
    push_char(&mut out, '\n');
    let cut = truncate(text, 2000);
    push_str(&mut out, cut.as_str());
    push_str(&mut out, "\n```");
    assert(out@ =~= resolves_to_of(name_of(adapter), text@));
    out
}

} // verus!
