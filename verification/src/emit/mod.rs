//! Output adapters: JSON, YAML, and Markdown.
//!
//! An adapter turns resolved values into one concrete representation. What is
//! here is the part of that which works on names and text alone: which adapter
//! a name selects, how a title becomes a heading fragment, and how one output
//! file links to another.
use vstd::prelude::*;

use crate::text::{
    alphanumeric, chars_eq, chars_of, flat_map, is_alphanumeric, lowercase_of, push_char,
    push_chars, push_str, to_lowercase, trim, trimmed_chars,
};

pub mod json;
pub mod value;
pub mod markdown;
pub mod yaml;

pub use crate::path::{relative_file, relative_link};

verus! {

/// The output formats `piton compile` can select.
#[derive(Clone, Copy, Debug, PartialEq, Eq, Structural)]
pub enum Adapter {
    Json,
    Yaml,
    Markdown,
}

/// The file extension each adapter writes.
pub open spec fn extension_of(adapter: Adapter) -> Seq<char> {
    match adapter {
        Adapter::Json => "json"@,
        Adapter::Yaml => "yaml"@,
        Adapter::Markdown => "md"@,
    }
}

/// The name each adapter is selected by.
pub open spec fn name_of(adapter: Adapter) -> Seq<char> {
    match adapter {
        Adapter::Json => "json"@,
        Adapter::Yaml => "yaml"@,
        Adapter::Markdown => "markdown"@,
    }
}

/// ASCII letters in lower case, everything else as it is.
pub open spec fn ascii_lower(c: char) -> char {
    if 'A' <= c <= 'Z' {
        ((c as u32) + 32) as char
    } else {
        c
    }
}

/// `str::to_ascii_lowercase`.
pub open spec fn ascii_lowercase(cs: Seq<char>) -> Seq<char> {
    cs.map_values(|c: char| ascii_lower(c))
}

/// Which adapter a name selects, ignoring ASCII case: `json`; `yaml` or `yml`;
/// `markdown` or `md`.
pub open spec fn adapter_named(text: Seq<char>) -> Option<Adapter> {
    let lower = ascii_lowercase(text);
    if lower == "json"@ {
        Some(Adapter::Json)
    } else if lower == "yaml"@ || lower == "yml"@ {
        Some(Adapter::Yaml)
    } else if lower == "markdown"@ || lower == "md"@ {
        Some(Adapter::Markdown)
    } else {
        None
    }
}

/// The message for a name that selects no adapter.
pub open spec fn unknown_adapter_message(text: Seq<char>) -> Seq<char> {
    "unknown adapter `"@ + ascii_lowercase(text) + "`; valid options are json, yaml, markdown"@
}

impl Adapter {
    pub fn extension(self) -> (r: &'static str)
        ensures
            r@ == extension_of(self),
    {
        match self {
            Adapter::Json => "json",
            Adapter::Yaml => "yaml",
            Adapter::Markdown => "md",
        }
    }

    pub fn as_str(self) -> (r: &'static str)
        ensures
            r@ == name_of(self),
    {
        match self {
            Adapter::Json => "json",
            Adapter::Yaml => "yaml",
            Adapter::Markdown => "markdown",
        }
    }

    /// Every adapter, in the order they are offered.
    pub fn all() -> (r: [Adapter; 3])
        ensures
            r@ == seq![Adapter::Json, Adapter::Yaml, Adapter::Markdown],
    {
        [Adapter::Json, Adapter::Yaml, Adapter::Markdown]
    }

    /// Selects an adapter by name, ignoring ASCII case.
    pub fn from_str(text: &str) -> (r: Result<Adapter, String>)
        ensures
            match adapter_named(text@) {
                Some(adapter) => r == Ok::<Adapter, String>(adapter),
                None => r matches Err(message) && message@ == unknown_adapter_message(text@),
            },
    {
        let cs = chars_of(text);
        let mut lower: Vec<char> = Vec::new();
        let mut i: usize = 0;
        while i < cs.len()
            invariant
                i <= cs.len(),
                cs@ == text@,
                lower@ == ascii_lowercase(cs@.take(i as int)),
            decreases cs.len() - i,
        {
            let c = cs[i];
            let l = if 'A' <= c && c <= 'Z' { ((c as u8) + 32) as char } else { c };
            lower.push(l);
            i = i + 1;
            assert(lower@ =~= ascii_lowercase(cs@.take(i as int)));
        }
        assert(cs@.take(i as int) =~= cs@);
        let json = chars_of("json");
        let yaml = chars_of("yaml");
        let yml = chars_of("yml");
        let markdown = chars_of("markdown");
        let md = chars_of("md");
        if chars_eq(&lower, &json) {
            Ok(Adapter::Json)
        } else if chars_eq(&lower, &yaml) || chars_eq(&lower, &yml) {
            Ok(Adapter::Yaml)
        } else if chars_eq(&lower, &markdown) || chars_eq(&lower, &md) {
            Ok(Adapter::Markdown)
        } else {
            let mut message = String::new();
            push_str(&mut message, "unknown adapter `");
            push_chars(&mut message, &lower);
            push_str(&mut message, "`; valid options are json, yaml, markdown");
            Err(message)
        }
    }
}


/// Where a document is being written, so references can be made relative.
#[derive(Clone, Debug)]
pub struct MarkdownContext {
    pub from_directory: String,
    pub source_root: String,
}

// ---- headings ------------------------------------------------------------------

/// What one character of a title becomes in its heading fragment.
pub open spec fn slug_char(c: char) -> Seq<char> {
    if alphanumeric(c) || c == '_' || c == '-' {
        lowercase_of(c)
    } else if c == ' ' {
        seq!['-']
    } else {
        Seq::empty()
    }
}

/// What std's documentation says `char::is_alphanumeric` and
/// `char::to_lowercase` do with ASCII characters: the letters and digits are
/// the alphanumeric ones, and lowering changes only `A` to `Z`.
pub open spec fn std_ascii_classes() -> bool {
    forall|c: char|
        #![trigger alphanumeric(c)]
        #![trigger lowercase_of(c)]
        (c as u32) < 0x80 ==> {
            &&& (alphanumeric(c) <==> ('a' <= c <= 'z' || 'A' <= c <= 'Z' || '0' <= c <= '9'))
            &&& lowercase_of(c) == if 'A' <= c <= 'Z' { seq![((c as u32) + 32) as char] } else { seq![c] }
        }
}

/// A character a slug is made of: a lower-case letter, a digit, `_` or `-`.
pub open spec fn slug_safe(c: char) -> bool {
    'a' <= c <= 'z' || '0' <= c <= '9' || c == '_' || c == '-'
}

/// A character below 0x80.
pub open spec fn ascii_char(c: char) -> bool {
    (c as u32) < 0x80
}

proof fn lemma_trim_keeps_ascii(cs: Seq<char>)
    requires
        forall|i: int| 0 <= i < cs.len() ==> ascii_char(#[trigger] cs[i]),
    ensures
        forall|i: int| 0 <= i < trim(cs).len() ==> ascii_char(#[trigger] trim(cs)[i]),
{
    lemma_trim_start_ascii(cs);
    lemma_trim_end_ascii(crate::text::trim_start(cs));
}

proof fn lemma_trim_start_ascii(cs: Seq<char>)
    requires
        forall|i: int| 0 <= i < cs.len() ==> ascii_char(#[trigger] cs[i]),
    ensures
        forall|i: int| 0 <= i < crate::text::trim_start(cs).len() ==> ascii_char(#[trigger] crate::text::trim_start(cs)[i]),
    decreases cs.len(),
{
    if cs.len() > 0 && crate::text::is_space(cs[0]) {
        assert forall|i: int| 0 <= i < cs.drop_first().len() implies ascii_char(#[trigger] cs.drop_first()[i]) by {
            assert(cs.drop_first()[i] == cs[i + 1]);
        }
        lemma_trim_start_ascii(cs.drop_first());
        assert(crate::text::trim_start(cs) == crate::text::trim_start(cs.drop_first()));
    } else {
        assert(crate::text::trim_start(cs) == cs);
    }
}

proof fn lemma_trim_end_ascii(cs: Seq<char>)
    requires
        forall|i: int| 0 <= i < cs.len() ==> ascii_char(#[trigger] cs[i]),
    ensures
        forall|i: int| 0 <= i < crate::text::trim_end(cs).len() ==> ascii_char(#[trigger] crate::text::trim_end(cs)[i]),
    decreases cs.len(),
{
    if cs.len() > 0 && crate::text::is_space(cs.last()) {
        assert forall|i: int| 0 <= i < cs.drop_last().len() implies ascii_char(#[trigger] cs.drop_last()[i]) by {
            assert(cs.drop_last()[i] == cs[i]);
        }
        lemma_trim_end_ascii(cs.drop_last());
        assert(crate::text::trim_end(cs) == crate::text::trim_end(cs.drop_last()));
    } else {
        assert(crate::text::trim_end(cs) == cs);
    }
}

proof fn lemma_slug_chars(cs: Seq<char>)
    requires
        std_ascii_classes(),
        forall|i: int| 0 <= i < cs.len() ==> ascii_char(#[trigger] cs[i]),
    ensures
        forall|i: int| 0 <= i < slugged(cs).len() ==> slug_safe(
            #[trigger] slugged(cs)[i],
        ),
    decreases cs.len(),
{
    if cs.len() > 0 {
        let c = cs.last();
        assert(cs[cs.len() - 1] == c);
        assert forall|i: int| 0 <= i < cs.drop_last().len() implies ascii_char(#[trigger] cs.drop_last()[i]) by {
            assert(cs.drop_last()[i] == cs[i]);
        }
        lemma_slug_chars(cs.drop_last());
        let before = slugged(cs.drop_last());
        let piece = slug_char(c);
        assert(alphanumeric(c) <==> ('a' <= c <= 'z' || 'A' <= c <= 'Z' || '0' <= c <= '9'));
        assert(lowercase_of(c) == if 'A' <= c <= 'Z' { seq![((c as u32) + 32) as char] } else { seq![c] });
        assert forall|i: int| 0 <= i < piece.len() implies slug_safe(#[trigger] piece[i]) by {
            if 'A' <= c <= 'Z' {
                assert(piece[i] == ((c as u32) + 32) as char);
            }
        }
        let all = slugged(cs);
        assert(all == before + piece);
        assert forall|i: int| 0 <= i < all.len() implies slug_safe(#[trigger] all[i]) by {
            if i < before.len() {
                assert(all[i] == before[i]);
            } else {
                assert(all[i] == piece[i - before.len()]);
            }
        }
    }
}

proof fn lemma_slug_fixed(cs: Seq<char>)
    requires
        std_ascii_classes(),
        forall|i: int| 0 <= i < cs.len() ==> slug_safe(#[trigger] cs[i]),
    ensures
        slugged(cs) == cs,
    decreases cs.len(),
{
    if cs.len() > 0 {
        let c = cs.last();
        assert(cs[cs.len() - 1] == c);
        assert forall|i: int| 0 <= i < cs.drop_last().len() implies slug_safe(#[trigger] cs.drop_last()[i]) by {
            assert(cs.drop_last()[i] == cs[i]);
        }
        lemma_slug_fixed(cs.drop_last());
        assert(alphanumeric(c) <==> ('a' <= c <= 'z' || 'A' <= c <= 'Z' || '0' <= c <= '9'));
        assert(lowercase_of(c) == seq![c]);
        assert(slug_char(c) == seq![c]);
        assert(cs.drop_last() + seq![c] =~= cs);
    } else {
        assert(slugged(cs) =~= cs);
    }
}

proof fn lemma_no_space_trim(cs: Seq<char>)
    requires
        forall|i: int| 0 <= i < cs.len() ==> slug_safe(#[trigger] cs[i]),
    ensures
        trim(cs) == cs,
{
    if cs.len() > 0 {
        assert(slug_safe(cs[0]));
        assert(slug_safe(cs[cs.len() - 1]));
    }
}

/// Slugging a slug changes nothing, for an ASCII title, given what std's
/// documentation says of ASCII letters, digits and lower case.
pub proof fn lemma_slug_of_slug(title: Seq<char>)
    requires
        std_ascii_classes(),
        forall|i: int| 0 <= i < title.len() ==> ascii_char(#[trigger] title[i]),
    ensures
        slugged(trim(slugged(trim(title)))) == slugged(trim(title)),
{
    lemma_trim_keeps_ascii(title);
    let slug = slugged(trim(title));
    lemma_slug_chars(trim(title));
    lemma_no_space_trim(slug);
    lemma_slug_fixed(slug);
}

/// Each character of `cs` as a slug writes it.
pub open spec fn slugged(cs: Seq<char>) -> Seq<char>
    decreases cs.len(),
{
    if cs.len() == 0 {
        Seq::empty()
    } else {
        slugged(cs.drop_last()) + slug_char(cs.last())
    }
}

/// The fragment a Markdown heading gets, the way GitHub builds it: lowercase,
/// spaces become hyphens, and punctuation is dropped.
pub fn heading_slug(title: &str) -> (slug: String)
    ensures
        slug@ == slugged(trim(title@)),
{
    let cs = trimmed_chars(title);
    let mut out = String::new();
    let mut i: usize = 0;
    while i < cs.len()
        invariant
            i <= cs.len(),
            out@ == slugged(cs@.take(i as int)),
        decreases cs.len() - i,
    {
        let c = cs[i];
        if is_alphanumeric(c) || c == '_' || c == '-' {
            let lower = to_lowercase(c);
            push_chars(&mut out, &lower);
        } else if c == ' ' {
            push_char(&mut out, '-');
        }
        proof {
            assert(cs@.take(i + 1).drop_last() =~= cs@.take(i as int));
        }
        i = i + 1;
    }
    assert(cs@.take(i as int) =~= cs@);
    out
}

} // verus!
