//! Documentation of what the registered frameworks contribute.
//!
//! Each framework describes itself; this renders those descriptions as the
//! "Frameworks" part of the language reference.
use vstd::prelude::*;

use crate::fmt::{join_sep, push_joined};
use crate::grammar::texts;
use crate::order::{lemma_sorted_texts_unique, same_texts, sorted_distinct, string_texts, strictly_sorted};
use crate::text::{chars_of, concat, push_char, push_chars, push_str};

verus! {

/// One anchor a framework exports.
#[derive(Clone, Debug)]
pub struct AnchorDoc {
    pub name: String,
    pub keyword: Option<String>,
    pub is_abstract: bool,
    pub doc: Option<String>,
    /// Property name and its declared constraint, when it has one.
    pub properties: Vec<(String, Option<String>)>,
}

/// One variable a framework exports.
#[derive(Clone, Debug)]
pub struct VarDoc {
    pub name: String,
    pub doc: Option<String>,
}

/// Everything one framework contributes.
#[derive(Clone, Debug)]
pub struct FrameworkDoc {
    pub name: String,
    pub module: String,
    pub sigils: Vec<String>,
    pub anchors: Vec<AnchorDoc>,
    pub vars: Vec<VarDoc>,
}

/// The keywords of the anchors that have one, in order.
pub open spec fn keywords_of(anchors: Seq<AnchorDoc>) -> Seq<Seq<char>>
    decreases anchors.len(),
{
    if anchors.len() == 0 {
        Seq::empty()
    } else {
        match anchors.last().keyword {
            Some(k) => keywords_of(anchors.drop_last()).push(k@),
            None => keywords_of(anchors.drop_last()),
        }
    }
}

impl FrameworkDoc {
    /// The keywords this framework makes available through `use`.
    pub fn keywords(&self) -> (words: Vec<String>)
        ensures
            texts(words@) == keywords_of(self.anchors@),
    {
        let mut out: Vec<String> = Vec::new();
        let mut i: usize = 0;
        while i < self.anchors.len()
            invariant
                i <= self.anchors.len(),
                texts(out@) == keywords_of(self.anchors@.take(i as int)),
            decreases self.anchors.len() - i,
        {
            let ghost prev = out@;
            match &self.anchors[i].keyword {
                Some(keyword) => {
                    out.push(keyword.clone());
                    assert(texts(out@) =~= texts(prev).push(keyword@));
                },
                None => {},
            }
            assert(self.anchors@.take(i + 1).drop_last() =~= self.anchors@.take(i as int));
            i = i + 1;
        }
        assert(self.anchors@.take(i as int) =~= self.anchors@);
        out
    }
}

/// A text with each line break turned into a space.
pub open spec fn one_line(cs: Seq<char>) -> Seq<char> {
    cs.map_values(|c: char| if c == '\n' { ' ' } else { c })
}

/// The line listing one property, with its constraint when it has one.
pub open spec fn property_line(p: (String, Option<String>)) -> Seq<char> {
    match p.1 {
        Some(constraint) => "  - `"@ + p.0@ + ":: "@ + constraint@ + "`\n"@,
        None => "  - `"@ + p.0@ + "`\n"@,
    }
}

/// The lines listing one anchor: its name, kind, keyword, and summary, then
/// one line per property.
pub open spec fn anchor_lines(a: AnchorDoc) -> Seq<char> {
    let keyword = match a.keyword {
        Some(k) => " — keyword `"@ + k@ + "`"@,
        None => Seq::empty(),
    };
    let kind = if a.is_abstract { "abstract anchor"@ } else { "anchor"@ };
    let summary = match a.doc {
        Some(d) => ": "@ + one_line(d@),
        None => Seq::empty(),
    };
    "- **"@ + a.name@ + "** ("@ + kind + ")"@ + keyword + summary + "\n"@ + concat(
        a.properties@.map_values(|p: (String, Option<String>)| property_line(p)),
    )
}

/// The line listing one variable.
pub open spec fn var_line(v: VarDoc) -> Seq<char> {
    "- **"@ + v.name@ + "** (variable)\n"@
}

/// How a sigil is shown: itself, pressed against a pair of braces.
pub open spec fn sigil_text(s: Seq<char>) -> Seq<char> {
    "`"@ + s + "{}`"@
}

/// The sigils, shown and separated by commas.
pub open spec fn sigil_list(sigils: Seq<Seq<char>>) -> Seq<char>
    decreases sigils.len(),
{
    if sigils.len() == 0 {
        Seq::empty()
    } else if sigils.len() == 1 {
        sigil_text(sigils[0])
    } else {
        sigil_list(sigils.drop_last()) + ", "@ + sigil_text(sigils.last())
    }
}

/// One framework's section of the reference.
pub open spec fn framework_section(doc: FrameworkDoc) -> Seq<char> {
    let m = doc.module@;
    let head = "### `"@ + m + "` (framework `"@ + doc.name@ + "`)\n\n`use "@ + m
        + "` for its keywords, `from "@ + m + " import ...` for its anchors.\n\n"@;
    let sigils = if doc.sigils@.len() == 0 {
        Seq::empty()
    } else {
        "Interpolation sigils: "@ + sigil_list(texts(doc.sigils@)) + "\n\n"@
    };
    head + sigils + concat(doc.anchors@.map_values(|a: AnchorDoc| anchor_lines(a))) + concat(
        doc.vars@.map_values(|v: VarDoc| var_line(v)),
    ) + "\n"@
}

/// The "Frameworks" part of the reference: nothing when no framework is
/// registered.
pub open spec fn framework_reference_text(docs: Seq<FrameworkDoc>) -> Seq<char> {
    if docs.len() == 0 {
        Seq::empty()
    } else {
        "## Frameworks\n\n"@ + concat(docs.map_values(|d: FrameworkDoc| framework_section(d)))
    }
}

proof fn lemma_concat_step<T>(xs: Seq<T>, f: spec_fn(T) -> Seq<char>, i: int)
    requires
        0 <= i < xs.len(),
    ensures
        concat(xs.take(i + 1).map_values(f)) == concat(xs.take(i).map_values(f)) + f(xs[i]),
{
    assert(xs.take(i + 1).map_values(f).drop_last() =~= xs.take(i).map_values(f));
}

fn push_one_line(out: &mut String, text: &str)
    ensures
        final(out)@ == old(out)@ + one_line(text@),
{
    let cs = chars_of(text);
    let mut i: usize = 0;
    while i < cs.len()
        invariant
            i <= cs.len(),
            cs@ == text@,
            out@ == old(out)@ + one_line(cs@.take(i as int)),
        decreases cs.len() - i,
    {
        push_char(out, if cs[i] == '\n' { ' ' } else { cs[i] });
        assert(one_line(cs@.take(i + 1)) =~= one_line(cs@.take(i as int)).push(
            if cs@[i as int] == '\n' { ' ' } else { cs@[i as int] },
        ));
        i = i + 1;
    }
    assert(cs@.take(i as int) =~= cs@);
}

/// The keyword an anchor declares, as its listing names it.
pub open spec fn keyword_part(a: AnchorDoc) -> Seq<char> {
    match a.keyword {
        Some(k) => " — keyword `"@ + k@ + "`"@,
        None => Seq::empty(),
    }
}

/// An anchor's summary, on the listing's line.
pub open spec fn summary_part(a: AnchorDoc) -> Seq<char> {
    match a.doc {
        Some(d) => ": "@ + one_line(d@),
        None => Seq::empty(),
    }
}

/// The first line listing an anchor, before its properties.
pub open spec fn anchor_head(a: AnchorDoc) -> Seq<char> {
    let kind = if a.is_abstract { "abstract anchor"@ } else { "anchor"@ };
    "- **"@ + a.name@ + "** ("@ + kind + ")"@ + keyword_part(a) + summary_part(a) + "\n"@
}

fn push_anchor_head(out: &mut String, a: &AnchorDoc)
    ensures
        final(out)@ == old(out)@ + anchor_head(*a),
{
    push_str(out, "- **");
    push_str(out, a.name.as_str());
    push_str(out, "** (");
    push_str(out, if a.is_abstract { "abstract anchor" } else { "anchor" });
    push_str(out, ")");
    let ghost mid = out@;
    match &a.keyword {
        Some(keyword) => {
            push_str(out, " — keyword `");
            push_str(out, keyword.as_str());
            push_str(out, "`");
        },
        None => {},
    }
    let ghost mid2 = out@;
    match &a.doc {
        Some(summary) => {
            push_str(out, ": ");
            push_one_line(out, summary.as_str());
        },
        None => {},
    }
    push_str(out, "\n");
    let ghost kind = if a.is_abstract { "abstract anchor"@ } else { "anchor"@ };
    assert(mid =~= old(out)@ + ("- **"@ + a.name@ + "** ("@ + kind + ")"@));
    assert(mid2 =~= mid + keyword_part(*a));
    assert(out@ =~= mid2 + summary_part(*a) + "\n"@);
}

fn push_properties(out: &mut String, props: &Vec<(String, Option<String>)>)
    ensures
        final(out)@ == old(out)@ + concat(
            props@.map_values(|p: (String, Option<String>)| property_line(p)),
        ),
{
    let mut i: usize = 0;
    while i < props.len()
        invariant
            i <= props.len(),
            out@ == old(out)@ + concat(
                props@.take(i as int).map_values(|p: (String, Option<String>)| property_line(p)),
            ),
        decreases props.len() - i,
    {
        let ghost prev = out@;
        let (name, constraint) = &props[i];
        push_str(out, "  - `");
        push_str(out, name.as_str());
        match constraint {
            Some(c) => {
                push_str(out, ":: ");
                push_str(out, c.as_str());
            },
            None => {},
        }
        push_str(out, "`\n");
        proof {
            lemma_concat_step(props@, |p: (String, Option<String>)| property_line(p), i as int);
            assert(out@ =~= prev + property_line(props@[i as int]));
        }
        i = i + 1;
    }
    assert(props@.take(i as int) =~= props@);
}

fn push_anchor(out: &mut String, a: &AnchorDoc)
    ensures
        final(out)@ == old(out)@ + anchor_lines(*a),
{
    push_anchor_head(out, a);
    push_properties(out, &a.properties);
    assert(anchor_lines(*a) =~= anchor_head(*a) + concat(
        a.properties@.map_values(|p: (String, Option<String>)| property_line(p)),
    ));
}

/// The head of a framework's section: its module and name, and how to use it.
pub open spec fn section_head(doc: FrameworkDoc) -> Seq<char> {
    let m = doc.module@;
    "### `"@ + m + "` (framework `"@ + doc.name@ + "`)\n\n`use "@ + m
        + "` for its keywords, `from "@ + m + " import ...` for its anchors.\n\n"@
}

/// The line listing a framework's sigils, if it has any.
pub open spec fn section_sigils(doc: FrameworkDoc) -> Seq<char> {
    if doc.sigils@.len() == 0 {
        Seq::empty()
    } else {
        "Interpolation sigils: "@ + sigil_list(texts(doc.sigils@)) + "\n\n"@
    }
}

fn push_section_head(out: &mut String, doc: &FrameworkDoc)
    ensures
        final(out)@ == old(out)@ + section_head(*doc),
{
    push_str(out, "### `");
    push_str(out, doc.module.as_str());
    push_str(out, "` (framework `");
    push_str(out, doc.name.as_str());
    push_str(out, "`)\n\n`use ");
    push_str(out, doc.module.as_str());
    push_str(out, "` for its keywords, `from ");
    push_str(out, doc.module.as_str());
    push_str(out, " import ...` for its anchors.\n\n");
    assert(out@ =~= old(out)@ + section_head(*doc));
}

fn push_sigils(out: &mut String, doc: &FrameworkDoc)
    ensures
        final(out)@ == old(out)@ + section_sigils(*doc),
{
    if doc.sigils.len() == 0 {
        assert(out@ =~= old(out)@ + section_sigils(*doc));
        return;
    }
    push_str(out, "Interpolation sigils: ");
    let ghost start = out@;
    let ghost ss = texts(doc.sigils@);
    let mut i: usize = 0;
    while i < doc.sigils.len()
        invariant
            i <= doc.sigils.len(),
            ss == texts(doc.sigils@),
            out@ == start + sigil_list(ss.take(i as int)),
        decreases doc.sigils.len() - i,
    {
        let ghost prev = out@;
        if i > 0 {
            push_str(out, ", ");
        }
        push_str(out, "`");
        push_str(out, doc.sigils[i].as_str());
        push_str(out, "{}`");
        proof {
            assert(ss.take(i + 1).drop_last() =~= ss.take(i as int));
            if i == 0 {
                assert(ss.take(1).len() == 1);
                assert(out@ =~= prev + sigil_text(ss[0]));
            } else {
                assert(out@ =~= prev + ", "@ + sigil_text(ss[i as int]));
            }
        }
        i = i + 1;
    }
    assert(ss.take(i as int) =~= ss);
    push_str(out, "\n\n");
}

fn push_anchors(out: &mut String, anchors: &Vec<AnchorDoc>)
    ensures
        final(out)@ == old(out)@ + concat(anchors@.map_values(|a: AnchorDoc| anchor_lines(a))),
{
    let mut i: usize = 0;
    while i < anchors.len()
        invariant
            i <= anchors.len(),
            out@ == old(out)@ + concat(anchors@.take(i as int).map_values(|a: AnchorDoc| anchor_lines(a))),
        decreases anchors.len() - i,
    {
        let ghost prev = out@;
        push_anchor(out, &anchors[i]);
        proof {
            lemma_concat_step(anchors@, |a: AnchorDoc| anchor_lines(a), i as int);
            assert(out@ =~= prev + anchor_lines(anchors@[i as int]));
        }
        i = i + 1;
    }
    assert(anchors@.take(i as int) =~= anchors@);
}

fn push_vars(out: &mut String, vars: &Vec<VarDoc>)
    ensures
        final(out)@ == old(out)@ + concat(vars@.map_values(|v: VarDoc| var_line(v))),
{
    let mut j: usize = 0;
    while j < vars.len()
        invariant
            j <= vars.len(),
            out@ == old(out)@ + concat(vars@.take(j as int).map_values(|v: VarDoc| var_line(v))),
        decreases vars.len() - j,
    {
        let ghost prev = out@;
        push_str(out, "- **");
        push_str(out, vars[j].name.as_str());
        push_str(out, "** (variable)\n");
        proof {
            lemma_concat_step(vars@, |v: VarDoc| var_line(v), j as int);
            assert(out@ =~= prev + var_line(vars@[j as int]));
        }
        j = j + 1;
    }
    assert(vars@.take(j as int) =~= vars@);
}

fn push_section(out: &mut String, doc: &FrameworkDoc)
    ensures
        final(out)@ == old(out)@ + framework_section(*doc),
{
    push_section_head(out, doc);
    push_sigils(out, doc);
    push_anchors(out, &doc.anchors);
    push_vars(out, &doc.vars);
    push_str(out, "\n");
    assert(framework_section(*doc) =~= section_head(*doc) + section_sigils(*doc) + concat(
        doc.anchors@.map_values(|a: AnchorDoc| anchor_lines(a)),
    ) + concat(doc.vars@.map_values(|v: VarDoc| var_line(v))) + "\n"@);
}

/// The parts of the reference that come from each framework's own module.
pub fn framework_reference(docs: &Vec<FrameworkDoc>) -> (text: String)
    ensures
        text@ == framework_reference_text(docs@),
{
    if docs.len() == 0 {
        return String::new();
    }
    let mut out = String::from_str("## Frameworks\n\n");
    let ghost start = out@;
    let mut i: usize = 0;
    while i < docs.len()
        invariant
            i <= docs.len(),
            out@ == start + concat(docs@.take(i as int).map_values(|d: FrameworkDoc| framework_section(d))),
        decreases docs.len() - i,
    {
        push_section(&mut out, &docs[i]);
        proof {
            lemma_concat_step(docs@, |d: FrameworkDoc| framework_section(d), i as int);
            assert(out@ =~= start + (concat(docs@.take(i as int).map_values(|d: FrameworkDoc| framework_section(d))) + framework_section(docs@[i as int])));
        }
        i = i + 1;
    }
    assert(docs@.take(i as int) =~= docs@);
    out
}


// ---- the documents -----------------------------------------------------------------------

/// How the brief opens.
pub const HEADER: &'static str = "\
# Piton fluency

Piton is a declarative, whitespace-structured language for describing agentic
skills, agents, commands, and reference documents. It has no runtime: it
compiles to data (JSON, YAML) or, through a framework, to Markdown. Source
files use the `.pi` extension.

";

/// How the long-form reference opens.
pub const LONG_INTRO: &'static str = "\
Piton is a declarative, whitespace-structured language for describing systems in
a mix of prose and structure. It has no runtime; a Piton program compiles to
data or, through a framework, to documents.

";

/// How to work with a project, and write Piton well.
pub const WORKFLOW: &'static str = "\
## Working with a Piton project

- `piton check <glob>` reports errors without writing anything.
- `piton compile <glob>` writes JSON or YAML next to each input.
- `piton build` builds the project described by `piton.config.pi`.
- `piton build check` builds and reports without writing.
- `piton format <glob>` applies the canonical style: four spaces, one space
  after `//`, sorted and wrapped import lists.
- `piton lsp` runs the language server.

## Writing Piton well

- Prefer an abstract anchor exported `as` a keyword for anything that will be
  implemented repeatedly; it documents intent and prevents a concrete anchor
  from implementing two abstracts.
- Reach for `+ {super.x}` rather than repeating a base's list.
- Use `this` when a base wants its own value and `self` when it wants the
  most-derived one.
- Keep prose as prose. Only reach for `{ }` when a value genuinely needs to be
  computed or referenced.
";

/// A tour of the syntax.
pub const SYNTAX: &'static str = "```piton\n\
         // A comment. Comments are line-only.\n\
         myVariable: 42                       // a number\n\
         myString: Strings are unquoted       // a string\n\
         myQuoted: \"false\"                    // quoting forces a string\n\
         myTyped:: string:: number: 42        // constraints, first match wins\n\
         \n\
         myList:\n\
         \x20   - one\n\
         \x20   - two\n\
         myInlineList: [one, two, three]\n\
         \n\
         myDictionary:\n\
         \x20   nested:\n\
         \x20       deep: value\n\
         \n\
         computed: {1 + 2}                    // `{ }` evaluates; bare text does not\n\
         interpolated: Hello, ${myString}\n\
         \n\
         anchor Base:\n\
         \x20   name: Base\n\
         \x20   summary: This is ${this.name}  // `this` pins to Base\n\
         \n\
         anchor Child extends Base:\n\
         \x20   name: Child\n\
         \x20   detail: This is ${self.name}   // `self` follows the child\n\
         \x20   summary: ${super.summary} and more\n\
         \n\
         abstract anchor Shape as shape:      // `as` registers a keyword\n\
         \x20   description:: string\n\
         \n\
         shape Concrete:                      // same as `extends Shape`\n\
         \x20   description: Implemented\n\
         \n\
         from ./other import Thing, Other Alias\n\
         from ./other export *\n\
         use ./keywords\n\
         export anchor Published:\n\
         \x20   value: 1\n\
         ```\n\n";

/// The rules worth memorising.
pub const RULES: &'static str = "\
## Rules worth memorising

- A value is an expression only when the *whole* value parses as one over
  literal atoms. `1 + 2` is `3`; `a + b` is the string `a + b`; use `{a + b}`
  to reference names.
- `+` on lists concatenates and deduplicates, right operand winning:
  `[1,2,3,4] + [1,2,3]` is `[4,1,2,3]`. `++` keeps duplicates.
- `+` merges dictionaries shallowly; `++` merges them deeply.
- Mixing unrelated types with `+` produces a mixed list, not an error.
- A block that mixes prose, `- ` items, and `key:` pairs becomes an implicit
  list; the keys written directly in it stay addressable.
- Inheritance is left to right with the right-most base winning; a child always
  wins over its bases; a declaring keyword is the left-most base.
- A concrete anchor may implement at most one abstract anchor, and must supply
  every abstract property left without a value.
- Strings never coerce to `boolean` or `number`; simple values do coerce to
  `string`.
- Modulo uses floor semantics; division by zero and comparing mismatched types
  are compile errors.
- Two files may import from each other. A circular reference is an error only
  when it cannot settle: `${A}` and `${B}` naming each other is fine, because an
  interpolated anchor renders as its name, while `A: {B}` and `B: {A}` is not.
- Prose lines join with a space and a blank line starts a new line. A fenced
  code block, opened on an indented line by three or more backticks or tildes
  and closed by a line of at least as many of the same, is taken exactly as
  written instead: no comments, escapes, keys, or interpolations inside, its
  line breaks and relative indentation kept, its fences part of the string.
- Indentation must be consistent within a file; the canonical style is four
  spaces.

";

/// Words as the reference lists them: each in backticks, separated by commas.
pub open spec fn listed(words: Seq<Seq<char>>) -> Seq<char> {
    seq!['`'] + join_sep(words, "`, `"@) + seq!['`']
}

/// The parts of the reference that come from the compiler's tables: its
/// reserved words, its built-in types and its literals.
pub open spec fn core_reference_of(reserved: Seq<Seq<char>>, types: Seq<Seq<char>>, literals: Seq<Seq<char>>) -> Seq<char> {
    "## Syntax\n\n"@ + SYNTAX@ + "## Reserved words\n\n"@ + listed(reserved) + "\n\n"@ + "## Types\n\n"@ + listed(types)
        + "\n\n"@ + "Literals: "@ + listed(literals) + "\n\n"@ + RULES@
}

fn push_listed(out: &mut String, words: &Vec<String>)
    ensures
        final(out)@ == old(out)@ + listed(texts(words@)),
{
    let ghost start = out@;
    push_char(out, '`');
    push_joined(out, words, "`, `");
    push_char(out, '`');
    proof {
        assert(crate::fmt::texts(words@) =~= texts(words@));
    }
    assert(out@ =~= start + listed(texts(words@)));
}

/// The parts of the reference that come from the compiler's tables.
pub fn core_reference(reserved: &Vec<String>, types: &Vec<String>, literals: &Vec<String>) -> (out: String)
    ensures
        out@ == core_reference_of(texts(reserved@), texts(types@), texts(literals@)),
{
    let mut out = String::new();
    push_str(&mut out, "## Syntax\n\n");
    push_str(&mut out, SYNTAX);
    push_str(&mut out, "## Reserved words\n\n");
    push_listed(&mut out, reserved);
    push_str(&mut out, "\n\n");
    push_str(&mut out, "## Types\n\n");
    push_listed(&mut out, types);
    push_str(&mut out, "\n\n");
    push_str(&mut out, "Literals: ");
    push_listed(&mut out, literals);
    push_str(&mut out, "\n\n");
    push_str(&mut out, RULES);
    assert(out@ =~= core_reference_of(texts(reserved@), texts(types@), texts(literals@)));
    out
}

/// A compact brief suitable for appending to an agent's system prompt.
pub open spec fn fluency_brief_of(docs: Seq<FrameworkDoc>, reserved: Seq<Seq<char>>, types: Seq<Seq<char>>, literals: Seq<Seq<char>>) -> Seq<char> {
    HEADER@ + core_reference_of(reserved, types, literals) + framework_reference_text(docs) + WORKFLOW@
}

/// A compact brief suitable for appending to an agent's system prompt, from
/// what the registered frameworks describe and the compiler's tables.
pub fn fluency_brief(docs: &Vec<FrameworkDoc>, reserved: &Vec<String>, types: &Vec<String>, literals: &Vec<String>) -> (out: String)
    ensures
        out@ == fluency_brief_of(docs@, texts(reserved@), texts(types@), texts(literals@)),
{
    let mut out = String::new();
    push_str(&mut out, HEADER);
    let core = core_reference(reserved, types, literals);
    push_str(&mut out, core.as_str());
    let frameworks = framework_reference(docs);
    push_str(&mut out, frameworks.as_str());
    push_str(&mut out, WORKFLOW);
    assert(out@ =~= fluency_brief_of(docs@, texts(reserved@), texts(types@), texts(literals@)));
    out
}

/// The long-form language reference.
pub open spec fn language_reference_of(docs: Seq<FrameworkDoc>, reserved: Seq<Seq<char>>, types: Seq<Seq<char>>, literals: Seq<Seq<char>>) -> Seq<char> {
    "# The Piton Language\n\n"@ + LONG_INTRO@ + core_reference_of(reserved, types, literals) + framework_reference_text(docs)
}

/// The long-form language reference, for `docs/language.md`.
pub fn language_reference(docs: &Vec<FrameworkDoc>, reserved: &Vec<String>, types: &Vec<String>, literals: &Vec<String>) -> (out: String)
    ensures
        out@ == language_reference_of(docs@, texts(reserved@), texts(types@), texts(literals@)),
{
    let mut out = String::new();
    push_str(&mut out, "# The Piton Language\n\n");
    push_str(&mut out, LONG_INTRO);
    let core = core_reference(reserved, types, literals);
    push_str(&mut out, core.as_str());
    let frameworks = framework_reference(docs);
    push_str(&mut out, frameworks.as_str());
    assert(out@ =~= language_reference_of(docs@, texts(reserved@), texts(types@), texts(literals@)));
    out
}

/// Every keyword the first `k` frameworks make available, in order.
pub open spec fn all_keywords(docs: Seq<FrameworkDoc>, k: nat) -> Seq<Seq<char>>
    decreases k,
{
    if k == 0 || k > docs.len() {
        Seq::empty()
    } else {
        all_keywords(docs, (k - 1) as nat) + keywords_of(docs[k - 1].anchors@)
    }
}

/// The skill's front matter names the keywords the frameworks add, when they
/// add any.
pub open spec fn skill_document_of(keywords: Seq<Seq<char>>, brief: Seq<char>) -> Seq<char> {
    "---\nname: piton\ndescription: Write, read, and compile Piton (.pi) source. Use when working with .pi files, piton.config.pi, anchors, or Piton frameworks."@
        + (if keywords.len() == 0 {
        Seq::empty()
    } else {
        " Also use for the `"@ + join_sep(keywords, "`, `"@) + "` keywords."@
    }) + "\n---\n\n"@ + brief
}

/// A skill wrapping the same brief. Its description names the keywords of
/// whichever frameworks are registered, each once and in order, so the skill
/// describes the compiler the user actually has.
pub fn skill_document(docs: &Vec<FrameworkDoc>, reserved: &Vec<String>, types: &Vec<String>, literals: &Vec<String>) -> (out: String)
    ensures
        forall|ks: Seq<Seq<char>>|
            strictly_sorted(ks) && same_texts(ks, all_keywords(docs@, docs@.len())) ==> out@ == skill_document_of(
                ks,
                fluency_brief_of(docs@, texts(reserved@), texts(types@), texts(literals@)),
            ),
{
    let mut words: Vec<String> = Vec::new();
    let mut k: usize = 0;
    while k < docs.len()
        invariant
            k <= docs@.len(),
            string_texts(words@) == all_keywords(docs@, k as nat),
        decreases docs@.len() - k,
    {
        let mut more = docs[k].keywords();
        let ghost before = string_texts(words@);
        let ghost added = texts(more@);
        proof {
            assert(string_texts(more@) =~= added);
        }
        words.append(&mut more);
        proof {
            assert(string_texts(words@) =~= before + added);
        }
        k = k + 1;
    }
    let sorted = sorted_distinct(&words);
    let mut out = String::new();
    push_str(&mut out, "---\nname: piton\ndescription: Write, read, and compile Piton (.pi) source. Use when working with .pi files, piton.config.pi, anchors, or Piton frameworks.");
    if sorted.len() > 0 {
        push_str(&mut out, " Also use for the `");
        push_joined(&mut out, &sorted, "`, `");
        push_str(&mut out, "` keywords.");
    }
    push_str(&mut out, "\n---\n\n");
    let brief = fluency_brief(docs, reserved, types, literals);
    push_str(&mut out, brief.as_str());
    proof {
        assert(crate::fmt::texts(sorted@) =~= string_texts(sorted@));
        assert(out@ =~= skill_document_of(string_texts(sorted@), brief@));
        assert forall|ks: Seq<Seq<char>>|
            strictly_sorted(ks) && same_texts(ks, all_keywords(docs@, docs@.len())) implies out@ == skill_document_of(
                ks,
                fluency_brief_of(docs@, texts(reserved@), texts(types@), texts(literals@)),
            ) by {
            lemma_sorted_texts_unique(ks, string_texts(sorted@));
        }
    }
    out
}

} // verus!
