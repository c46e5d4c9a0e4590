//! Editor grammars, generated from a vocabulary.
//!
//! Every word list in every generated grammar comes from the vocabulary, so a
//! keyword added to the language reaches every editor the next time the
//! grammars are generated. Framework keywords are passed in by the caller.
use vstd::prelude::*;

use crate::order::{lemma_lex_trichotomy, lex_less, lex_lt, strictly_sorted};
use crate::path::join;
use crate::text::{byte_len, chars_of, flat_map, push_char, push_chars, push_str, str_eq, str_len};

pub mod extensions;
pub mod textmate;

verus! {

/// The git remote a publish pushes the grammar to.
pub const GRAMMAR_REMOTE_NAME: &'static str = "grammar";

/// Written until the grammar has actually been published somewhere.
///
/// `.invalid` is reserved, so nothing can mistake this for a real home.
pub const UNPUBLISHED_REPOSITORY: &'static str = "https://example.invalid/tree-sitter-piton.git";

/// Written until a real commit has been published.
pub const UNPUBLISHED_REV: &'static str = "0000000000000000000000000000000000000000";

/// Where the published Tree-sitter grammar lives.
#[derive(Clone, Debug)]
pub struct GrammarSource {
    pub repository: String,
    /// A full commit SHA. Zed will not accept a branch name.
    pub rev: String,
}

/// Whether a grammar source names a real home and a real commit.
pub open spec fn published(source: GrammarSource) -> bool {
    source.repository@ != UNPUBLISHED_REPOSITORY@ && source.rev@ != UNPUBLISHED_REV@
}

impl GrammarSource {
    /// The placeholders, until the grammar has been published.
    pub fn unpublished() -> (source: GrammarSource)
        ensures
            source.repository@ == UNPUBLISHED_REPOSITORY@,
            source.rev@ == UNPUBLISHED_REV@,
    {
        GrammarSource {
            repository: String::from_str(UNPUBLISHED_REPOSITORY),
            rev: String::from_str(UNPUBLISHED_REV),
        }
    }

    /// True once the grammar has been pushed somewhere and the commit recorded.
    pub fn is_published(&self) -> (r: bool)
        ensures
            r == published(*self),
    {
        !str_eq(self.repository.as_str(), UNPUBLISHED_REPOSITORY) && !str_eq(
            self.rev.as_str(),
            UNPUBLISHED_REV,
        )
    }
}

impl Default for GrammarSource {
    fn default() -> (source: GrammarSource)
        ensures
            source.repository@ == UNPUBLISHED_REPOSITORY@,
            source.rev@ == UNPUBLISHED_REV@,
    {
        GrammarSource::unpublished()
    }
}

/// A file the generator produced: where it goes, and what it holds.
#[derive(Clone, Debug)]
pub struct GeneratedFile {
    pub path: String,
    pub contents: String,
}

impl GeneratedFile {
    pub fn new(path: &str, contents: String) -> (file: GeneratedFile)
        ensures
            file.path@ == path@,
            file.contents == contents,
    {
        GeneratedFile { path: String::from_str(path), contents }
    }
}

/// The texts of a list of strings.
pub open spec fn texts(words: Seq<String>) -> Seq<Seq<char>> {
    words.map_values(|w: String| w@)
}

/// The vocabulary every grammar is built from.
#[derive(Clone, Debug)]
pub struct Vocabulary {
    /// Words that introduce or modify a declaration.
    pub declaration: Vec<String>,
    /// `this`, `self`, `super`.
    pub self_words: Vec<String>,
    /// `true`, `false`, `null`.
    pub literals: Vec<String>,
    /// Built-in constraint names.
    pub types: Vec<String>,
    /// Keywords contributed by registered frameworks.
    pub framework: Vec<String>,
    /// Interpolation sigils registered by frameworks, without `$`.
    pub sigils: Vec<String>,
}

/// The same words sorted, each once.
pub open spec fn sorted_set_of(result: Seq<Seq<char>>, words: Seq<Seq<char>>) -> bool {
    &&& strictly_sorted(result)
    &&& forall|w: Seq<char>| result.contains(w) <==> words.contains(w)
}

proof fn lemma_push_contains(s: Seq<Seq<char>>, x: Seq<char>, w: Seq<char>)
    ensures
        s.push(x).contains(w) <==> (s.contains(w) || w == x),
{
    if s.push(x).contains(w) {
        let k = choose|k: int| 0 <= k < s.push(x).len() && s.push(x)[k] == w;
        if k < s.len() {
            assert(s[k] == w);
        }
    }
    if s.contains(w) {
        let k = choose|k: int| 0 <= k < s.len() && s[k] == w;
        assert(s.push(x)[k] == w);
    }
    if w == x {
        assert(s.push(x)[s.len() as int] == w);
    }
}

/// The words sorted in `String`'s order, with duplicates dropped.
pub fn sorted_unique(words: &Vec<String>) -> (out: Vec<String>)
    ensures
        sorted_set_of(texts(out@), texts(words@)),
{
    let mut out: Vec<String> = Vec::new();
    let mut i: usize = 0;
    while i < words.len()
        invariant
            i <= words.len(),
            strictly_sorted(texts(out@)),
            forall|w: Seq<char>| texts(out@).contains(w) <==> texts(words@.take(i as int)).contains(w),
        decreases words.len() - i,
    {
        let word = words[i].clone();
        let wc = chars_of(word.as_str());
        let mut p: usize = 0;
        while p < out.len() && lex_less(&chars_of(out[p].as_str()), &wc)
            invariant
                p <= out.len(),
                wc@ == word@,
                forall|k: int| 0 <= k < p ==> lex_lt(#[trigger] texts(out@)[k], word@),
            decreases out.len() - p,
        {
            p = p + 1;
        }
        let ghost before = texts(out@);
        let present = p < out.len() && str_eq(out[p].as_str(), word.as_str());
        proof {
            assert(words@.take(i + 1) =~= words@.take(i as int).push(words@[i as int]));
            assert(texts(words@.take(i + 1)) =~= texts(words@.take(i as int)).push(word@));
        }
        if !present {
            out.insert(p, word);
            proof {
                let after = texts(out@);
                assert(after =~= before.insert(p as int, word@));
                assert forall|a: int, b: int| 0 <= a < b < after.len() implies lex_lt(
                    #[trigger] after[a],
                    #[trigger] after[b],
                ) by {
                    if p < before.len() {
                        lemma_lex_trichotomy(before[p as int], word@);
                    }
                    if b == p {
                    } else if a == p {
                        // everything from `p` on sorts after the word
                        lemma_lex_trichotomy(before[p as int], word@);
                        if b - 1 > p {
                            assert(lex_lt(before[p as int], before[b - 1]));
                            crate::order::lemma_lex_transitive(word@, before[p as int], before[b - 1]);
                        }
                    } else if a < p && b > p {
                        assert(lex_lt(before[a], before[b - 1]));
                    } else if a > p {
                        assert(lex_lt(before[a - 1], before[b - 1]));
                    }
                }
                assert forall|w: Seq<char>| after.contains(w) <==> texts(words@.take(i + 1)).contains(w) by {
                    lemma_push_contains(texts(words@.take(i as int)), word@, w);
                    if after.contains(w) {
                        let k = choose|k: int| 0 <= k < after.len() && after[k] == w;
                        if k < p {
                            assert(before[k] == w);
                        } else if k > p {
                            assert(before[k - 1] == w);
                        }
                    }
                    if before.contains(w) {
                        let k = choose|k: int| 0 <= k < before.len() && before[k] == w;
                        if k < p {
                            assert(after[k] == w);
                        } else {
                            assert(after[k + 1] == w);
                        }
                    }
                    assert(after[p as int] == word@);
                }
            }
        } else {
            proof {
                assert(before[p as int] == word@);
                assert(before.contains(word@));
                assert forall|w: Seq<char>| before.contains(w) <==> texts(words@.take(i + 1)).contains(w) by {
                    lemma_push_contains(texts(words@.take(i as int)), word@, w);
                }
            }
        }
        i = i + 1;
    }
    assert(words@.take(i as int) =~= words@);
    out
}

impl Vocabulary {
    /// Adds the keywords and sigils a set of frameworks contributes, each list
    /// sorted with duplicates dropped.
    pub fn with_framework(self, keywords: Vec<String>, sigils: Vec<String>) -> (v: Vocabulary)
        ensures
            sorted_set_of(texts(v.framework@), texts(keywords@)),
            sorted_set_of(texts(v.sigils@), texts(sigils@)),
            v.declaration == self.declaration,
            v.self_words == self.self_words,
            v.literals == self.literals,
            v.types == self.types,
    {
        let framework = sorted_unique(&keywords);
        let sigils = sorted_unique(&sigils);
        Vocabulary { framework, sigils, ..self }
    }
}


/// The words whose UTF-8 length is `n`, in their order.
pub open spec fn of_length(words: Seq<Seq<char>>, n: nat) -> Seq<Seq<char>>
    decreases words.len(),
{
    if words.len() == 0 {
        Seq::empty()
    } else if byte_len(words.last()) == n {
        of_length(words.drop_last(), n).push(words.last())
    } else {
        of_length(words.drop_last(), n)
    }
}

/// The words of each length from `n` down to zero, longest first, keeping
/// their order within a length.
pub open spec fn lengths_down_from(words: Seq<Seq<char>>, n: int) -> Seq<Seq<char>>
    decreases n + 1,
{
    if n < 0 {
        Seq::empty()
    } else {
        of_length(words, n as nat) + lengths_down_from(words, n - 1)
    }
}

/// The longest UTF-8 length among the words.
pub open spec fn longest(words: Seq<Seq<char>>) -> nat
    decreases words.len(),
{
    if words.len() == 0 {
        0
    } else {
        let rest = longest(words.drop_last());
        if byte_len(words.last()) > rest {
            byte_len(words.last())
        } else {
            rest
        }
    }
}

/// The words ordered longest first, as a stable sort by descending length
/// leaves them.
pub open spec fn longest_first(words: Seq<Seq<char>>) -> Seq<Seq<char>> {
    lengths_down_from(words, longest(words) as int)
}

/// A regex alternation of the words, longest first so greedy matching works.
pub fn alternation(words: &Vec<String>) -> (pattern: String)
    ensures
        pattern@ == join(longest_first(texts(words@)), seq!['|']),
{
    let ghost ws = texts(words@);
    let mut lens: Vec<usize> = Vec::new();
    let mut max: usize = 0;
    let mut i: usize = 0;
    while i < words.len()
        invariant
            i <= words.len(),
            ws == texts(words@),
            lens@.len() == i,
            forall|k: int| 0 <= k < i ==> #[trigger] lens@[k] == byte_len(ws[k]),
            max == longest(ws.take(i as int)),
        decreases words.len() - i,
    {
        let n = str_len(words[i].as_str());
        lens.push(n);
        proof {
            assert(ws.take(i + 1).drop_last() =~= ws.take(i as int));
        }
        if n > max {
            max = n;
        }
        i = i + 1;
    }
    assert(ws.take(i as int) =~= ws);
    let mut out = String::new();
    let ghost mut done: Seq<Seq<char>> = Seq::empty();
    let mut n = max;
    let mut finished = false;
    let mut any = false;
    while !finished
        invariant
            lens@.len() == words@.len(),
            ws == texts(words@),
            forall|k: int| 0 <= k < lens@.len() ==> #[trigger] lens@[k] == byte_len(ws[k]),
            n <= max,
            max == longest(ws),
            !finished ==> done == lengths_down_from(ws, max as int).take(
                lengths_down_from(ws, max as int).len() - lengths_down_from(ws, n as int).len(),
            ),
            finished ==> done == lengths_down_from(ws, max as int),
            out@ == join(done, seq!['|']),
            any == (done.len() > 0),
        decreases n, if finished { 0int } else { 1int },
    {
        let mut j: usize = 0;
        let ghost start = done;
        while j < words.len()
            invariant
                j <= words.len(),
                lens@.len() == words@.len(),
                ws == texts(words@),
                forall|k: int| 0 <= k < lens@.len() ==> #[trigger] lens@[k] == byte_len(ws[k]),
                done == start + of_length(ws.take(j as int), n as nat),
                out@ == join(done, seq!['|']),
                any == (done.len() > 0),
            decreases words.len() - j,
        {
            if lens[j] == n {
                if any {
                    push_char(&mut out, '|');
                }
                any = true;
                push_str(&mut out, words[j].as_str());
                proof {
                    let next = done.push(ws[j as int]);
                    assert(next.drop_last() =~= done);
                    if done.len() == 0 {
                        assert(next.len() == 1);
                    }
                    done = next;
                }
            }
            proof {
                assert(ws.take(j + 1).drop_last() =~= ws.take(j as int));
            }
            j = j + 1;
        }
        proof {
            assert(ws.take(j as int) =~= ws);
            crate::grammar::lemma_lengths_split(ws, max as int, n as int);
        }
        if n == 0 {
            finished = true;
        } else {
            n = n - 1;
        }
    }
    out
}

/// Splitting the runs at `n`: what comes before the runs from `n` down,
/// followed by the run of length `n`, is everything before those from `n - 1`.
pub proof fn lemma_lengths_split(ws: Seq<Seq<char>>, max: int, n: int)
    requires
        0 <= n <= max,
    ensures
        lengths_down_from(ws, max).take(lengths_down_from(ws, max).len() - lengths_down_from(ws, n).len())
            + of_length(ws, n as nat) == lengths_down_from(ws, max).take(
            lengths_down_from(ws, max).len() - lengths_down_from(ws, n - 1).len(),
        ),
        n == 0 ==> lengths_down_from(ws, max).take(lengths_down_from(ws, max).len() - lengths_down_from(ws, n).len())
            + of_length(ws, n as nat) == lengths_down_from(ws, max),
    decreases max - n,
{
    if n == max {
        assert(lengths_down_from(ws, max) == of_length(ws, max as nat) + lengths_down_from(ws, max - 1));
        assert(lengths_down_from(ws, max).take(0) =~= Seq::<Seq<char>>::empty());
        assert(lengths_down_from(ws, max).take(of_length(ws, max as nat).len() as int) =~= of_length(ws, max as nat));
        if n == 0 {
            assert(lengths_down_from(ws, -1) =~= Seq::<Seq<char>>::empty());
            assert(lengths_down_from(ws, max) =~= of_length(ws, max as nat));
        }
    } else {
        lemma_lengths_split(ws.take(ws.len() as int), max, n + 1);
        assert(ws.take(ws.len() as int) =~= ws);
        lemma_lengths_suffix(ws, max, n);
        let all = lengths_down_from(ws, max);
        let from_n = lengths_down_from(ws, n);
        let below = lengths_down_from(ws, n - 1);
        assert(from_n == of_length(ws, n as nat) + below);
        let cut = all.len() - from_n.len();
        assert(all.skip(cut) == from_n);
        assert(all =~= all.take(cut) + from_n);
        assert(all.take(cut) + of_length(ws, n as nat) =~= all.take(all.len() - below.len()));
        if n == 0 {
            assert(below =~= Seq::<Seq<char>>::empty());
        }
    }
}

/// The runs from `n` down are the tail of the runs from any larger length.
pub proof fn lemma_lengths_suffix(ws: Seq<Seq<char>>, max: int, n: int)
    requires
        -1 <= n <= max,
    ensures
        lengths_down_from(ws, max).len() >= lengths_down_from(ws, n).len(),
        lengths_down_from(ws, max).skip(
            lengths_down_from(ws, max).len() - lengths_down_from(ws, n).len(),
        ) == lengths_down_from(ws, n),
    decreases max - n,
{
    if n == max {
        assert(lengths_down_from(ws, max).skip(0) =~= lengths_down_from(ws, max));
    } else {
        lemma_lengths_suffix(ws, max - 1, n);
        let all = lengths_down_from(ws, max);
        let rest = lengths_down_from(ws, max - 1);
        assert(all == of_length(ws, max as nat) + rest);
        let k = rest.len() - lengths_down_from(ws, n).len();
        assert(all.skip(of_length(ws, max as nat).len() + k) =~= rest.skip(k));
    }
}

/// The characters a sigil may contain: anything a run of prose may.
pub const SIGIL_CHARS: &'static str = "[^\\s{}\\[\\](),\"\\\\]";

/// The regex for a sigil: any run of prose pressed against a `{`.
pub fn sigil_pattern() -> (pattern: String)
    ensures
        pattern@ == SIGIL_CHARS@ + seq!['+'],
{
    let mut out = String::from_str(SIGIL_CHARS);
    push_char(&mut out, '+');
    out
}

/// A regex character as a JSON string holds it: a backslash or a double
/// quote behind a backslash, anything else as it is.
pub open spec fn json_escaped(c: char) -> Seq<char> {
    if c == '\\' {
        seq!['\\', '\\']
    } else if c == '"' {
        seq!['\\', '"']
    } else {
        seq![c]
    }
}

/// Escapes a regex for embedding in a JSON string, so that the grammar file
/// parses and the regex reads back unchanged.
pub fn json_regex(pattern: &str) -> (escaped: String)
    ensures
        escaped@ == flat_map(pattern@, |c: char| json_escaped(c)),
{
    let cs = chars_of(pattern);
    let mut out = String::new();
    let mut i: usize = 0;
    while i < cs.len()
        invariant
            i <= cs.len(),
            out@ == flat_map(cs@.take(i as int), |c: char| json_escaped(c)),
        decreases cs.len() - i,
    {
        if cs[i] == '\\' || cs[i] == '"' {
            push_char(&mut out, '\\');
        }
        push_char(&mut out, cs[i]);
        assert(cs@.take(i + 1).drop_last() =~= cs@.take(i as int));
        assert(out@ =~= flat_map(cs@.take(i as int), |c: char| json_escaped(c)) + json_escaped(cs@[i as int]));
        i = i + 1;
    }
    assert(cs@.take(i as int) =~= cs@);
    out
}


/// What the directory of generated editor support is, and how to install each
/// editor's part of it.
pub const README: &'static str = r#"# Piton editor support

Everything in this directory is generated by `piton grammar`. The word lists
come from the compiler's own token tables and from the frameworks registered in
the `piton` binary, so regenerating after a language change updates every
editor at once. Edit `crates/piton-grammar`, not these files.

| Directory | Editor | Install |
| --- | --- | --- |
| `vscode/` | VS Code, Cursor, Windsurf | `cd vscode && npm install && npx vsce package && code --install-extension piton-*.vsix` |
| `zed/` | Zed | `zed: install dev extension` and pick this directory |
| `jetbrains/` | IntelliJ, WebStorm, PyCharm, ... | Build with Gradle, or import `bundles/piton` as a TextMate bundle |
| `vim/` | Vim, Neovim | Copy into `~/.vim` / `~/.config/nvim`, or point a plugin manager at it |
| `emacs/` | Emacs | `(add-to-list 'load-path "…/emacs") (require 'piton-mode)` |
| `sublime/` | Sublime Text | Copy into `Packages/Piton` |
| `helix/` | Helix | Merge `languages.toml` into `~/.config/helix/languages.toml` |
| `kate/` | Kate, KWrite | Copy `piton.xml` into `~/.local/share/org.kde.syntax-highlighting/syntax` |
| `tree-sitter-piton/` | Tree-sitter grammar | `npm install && npx tree-sitter generate` |
| `shared/` | The TextMate grammar and language configuration everything else reuses | |

Every integration launches the same language server: `piton lsp`.

Installation instructions for each editor are in
[`docs/editors.md`](../docs/editors.md).
"#;

fn readme() -> (text: String)
    ensures
        text@ == README@,
{
    String::from_str(README)
}

/// A copy of each file.
fn copies(files: &Vec<GeneratedFile>) -> (out: Vec<GeneratedFile>)
    ensures
        extensions::entries(out@) == extensions::entries(files@),
{
    let mut out: Vec<GeneratedFile> = Vec::new();
    let mut i: usize = 0;
    while i < files.len()
        invariant
            i <= files.len(),
            extensions::entries(out@) == extensions::entries(files@).take(i as int),
        decreases files.len() - i,
    {
        let ghost prev = out@;
        let file = GeneratedFile { path: files[i].path.clone(), contents: files[i].contents.clone() };
        out.push(file);
        assert(out@ =~= prev.push(file));
        assert(extensions::entries(out@) =~= extensions::entries(prev).push((files@[i as int].path@, files@[i as int].contents@)));
        assert(extensions::entries(out@) =~= extensions::entries(files@).take(i + 1));
        i = i + 1;
    }
    assert(extensions::entries(files@).take(i as int) =~= extensions::entries(files@));
    out
}

/// Appends a copy of each file.
fn push_copies(out: &mut Vec<GeneratedFile>, files: &Vec<GeneratedFile>)
    ensures
        extensions::entries(final(out)@) == extensions::entries(old(out)@) + extensions::entries(files@),
{
    let mut more = copies(files);
    out.append(&mut more);
    assert(extensions::entries(out@) =~= extensions::entries(old(out)@) + extensions::entries(files@));
}

/// Every grammar and editor integration: the shared TextMate grammar and
/// language configuration, the Tree-sitter grammar's files and those of the
/// classic editors as their own generators made them, the installable
/// extensions, and a README.
pub open spec fn generated(
    v: Vocabulary,
    source: GrammarSource,
    tree_sitter: Seq<(Seq<char>, Seq<char>)>,
    classic: Seq<(Seq<char>, Seq<char>)>,
) -> Seq<(Seq<char>, Seq<char>)> {
    seq![
        ("shared/piton.tmLanguage.json"@, textmate::grammar_for(v)),
        ("shared/language-configuration.json"@, textmate::LANGUAGE_CONFIGURATION@),
    ] + tree_sitter + classic + extensions::extension_files(v, source, tree_sitter) + seq![
        ("README.md"@, README@),
    ]
}

/// Generates every grammar and editor integration.
pub fn generate(
    vocabulary: &Vocabulary,
    source: &GrammarSource,
    tree_sitter: &Vec<GeneratedFile>,
    classic: &Vec<GeneratedFile>,
) -> (files: Vec<GeneratedFile>)
    ensures
        extensions::entries(files@) == generated(
            *vocabulary,
            *source,
            extensions::entries(tree_sitter@),
            extensions::entries(classic@),
        ),
{
    let mut files: Vec<GeneratedFile> = Vec::new();
    files.push(GeneratedFile::new("shared/piton.tmLanguage.json", textmate::grammar(vocabulary)));
    files.push(
        GeneratedFile::new("shared/language-configuration.json", textmate::language_configuration()),
    );
    push_copies(&mut files, tree_sitter);
    push_copies(&mut files, classic);
    let mut ext = extensions::files(vocabulary, source, tree_sitter);
    let ghost before = extensions::entries(files@);
    files.append(&mut ext);
    assert(extensions::entries(files@) =~= before + extensions::extension_files(
        *vocabulary,
        *source,
        extensions::entries(tree_sitter@),
    ));
    let ghost before2 = extensions::entries(files@);
    files.push(GeneratedFile::new("README.md", readme()));
    assert(extensions::entries(files@) =~= before2.push(("README.md"@, README@)));
    files
}

} // verus!
