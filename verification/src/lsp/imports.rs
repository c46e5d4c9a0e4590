//! Where import lines go, and which imports a file does not use.
use vstd::prelude::*;

use crate::lsp::line_index::TextRange;
use crate::path::{components, components_of, file_name_of};
use crate::lsp::refactor::is_prefix;
use crate::lsp::convert::{boundary_index, char_index, on_boundary};
use crate::lsp::features::{bytes_before, find_from, index_from};
use crate::text::{byte_len, chars_of, push_char, push_chars, push_str, slice_chars, str_eq, str_len};

verus! {

/// Which import a file does not use: one item of an import declaration, or a
/// whole `use` line.
#[derive(Clone, Copy, Debug, PartialEq, Eq, Structural)]
pub enum UnusedKind {
    Item { decl: usize, item: usize },
    Use { index: usize },
}

/// `Path::parent`: every component but the last, unless the path is empty or
/// the root alone.
pub open spec fn parent_components(cs: Seq<char>) -> Option<Seq<Seq<char>>> {
    let c = components(cs);
    if c.len() == 0 || (c.len() == 1 && c[0] == seq!['/']) {
        None
    } else {
        Some(c.drop_last())
    }
}

/// Whether `module` is the `index.pi` of a directory that holds `file`.
pub open spec fn index_of(module: Seq<char>, file: Seq<char>) -> bool {
    file_name_of(module) == Some("index.pi"@) && match parent_components(module) {
        Some(dir) => is_prefix(dir, components(file)),
        None => false,
    }
}

/// Whether `module` is the `index.pi` of a directory that holds `file`.
pub fn contains_as_index(module: &str, file: &str) -> (r: bool)
    ensures
        r == index_of(module@, file@),
{
    let name = crate::path::file_name(module);
    let is_index = match &name {
        Some(n) => crate::text::chars_eq(n, &chars_of("index.pi")),
        None => false,
    };
    if !is_index {
        return false;
    }
    let mc = components_of(module);
    if mc.len() == 0 || (mc.len() == 1 && mc[0].len() == 1 && mc[0][0] == '/') {
        proof {
            if mc@.len() == 1 && mc@[0]@.len() == 1 && mc@[0]@[0] == '/' {
                assert(mc@[0]@ =~= seq!['/']);
            }
        }
        return false;
    }
    proof {
        if mc@.len() == 1 {
            assert(components(module@)[0] == mc@[0]@);
            if components(module@)[0] == seq!['/'] {
                assert(mc@[0]@.len() == 1 && mc@[0]@[0] == '/');
            }
        }
    }
    let mut dir = mc;
    dir.pop();
    let fc = components_of(file);
    proof {
        assert(dir@.map_values(|x: Vec<char>| x@) =~= components(module@).drop_last());
        assert(fc@.map_values(|x: Vec<char>| x@) =~= components(file@));
    }
    crate::lsp::refactor::prefix_matches(&dir, &fc)
}

/// An import line written at the top of a file: followed by a blank line
/// unless the file is empty.
pub fn top_line(text: &str, line: &str) -> (inserted: String)
    ensures
        inserted@ == if text@.len() == 0 {
            line@ + "\n"@
        } else {
            line@ + "\n\n"@
        },
{
    let mut out = String::from_str(line);
    if text.is_empty() {
        push_str(&mut out, "\n");
    } else {
        push_str(&mut out, "\n\n");
    }
    out
}

/// An import line written after the one ending at `end`: on a line of its own
/// whether or not that one ended with a line break.
pub fn after_line(text: &str, end: usize, line: &str) -> (inserted: String)
    requires
        crate::lsp::convert::on_boundary(text@, end as int),
        end <= byte_len(text@),
    ensures
        ({
            let before = text@.take(crate::lsp::convert::boundary_index(text@, end as int) as int);
            inserted@ == if before.len() > 0 && before.last() == '\n' {
                line@ + "\n"@
            } else {
                "\n"@ + line@ + "\n"@
            }
        }),
{
    let cs = chars_of(text);
    let mut i: usize = 0;
    let mut bytes: usize = 0;
    while i < cs.len()
        invariant
            cs@ == text@,
            i <= cs.len(),
            bytes == byte_len(text@.take(i as int)),
            bytes <= end,
        ensures
            i == cs.len() || bytes + crate::text::utf8_width(text@[i as int]) > end,
        decreases cs.len() - i,
    {
        let w = crate::text::len_utf8(cs[i]);
        if w > end - bytes {
            break;
        }
        proof {
            crate::lsp::convert::lemma_take_step(text@, i as int);
        }
        bytes = bytes + w;
        i = i + 1;
    }
    proof {
        if i < cs.len() {
            crate::lsp::convert::lemma_take_step(text@, i as int);
        }
        crate::lsp::convert::lemma_boundary_index(text@, end as int, i as int);
    }
    let ends_with_break = i > 0 && cs[i - 1] == '\n';
    let mut out = String::new();
    if ends_with_break {
        push_str(&mut out, line);
        push_str(&mut out, "\n");
    } else {
        push_str(&mut out, "\n");
        push_str(&mut out, line);
        push_str(&mut out, "\n");
    }
    out
}

// ---- where an import goes, and how it is written ------------------------------------------

/// Where a new import declaration goes, given the byte offset at which the
/// last existing one ends (0 when there is none): just past the line break
/// after it, or at the end of the text; at the very start when there is none.
pub open spec fn insertion_point_of(cs: Seq<char>, last: int) -> int {
    if last == 0 {
        0
    } else {
        match index_from(cs, '\n', boundary_index(cs, last) as int) {
            Some(j) => byte_len(cs.take(j + 1)) as int,
            None => byte_len(cs) as int,
        }
    }
}

/// Where a new import declaration goes in `text`, after the last existing one,
/// which ends at byte `last_import_end` (0 when there is none).
pub fn insertion_point(text: &str, last_import_end: usize) -> (at: usize)
    requires
        last_import_end <= byte_len(text@),
        on_boundary(text@, last_import_end as int),
    ensures
        at == insertion_point_of(text@, last_import_end as int),
{
    let cs = chars_of(text);
    let n = str_len(text);
    if last_import_end == 0 {
        return 0;
    }
    let k = char_index(&cs, last_import_end);
    match find_from(&cs, '\n', k) {
        Some(j) => {
            proof {
                crate::lsp::features::lemma_index_from(cs@, '\n', k as int);
            }
            bytes_before(&cs, j + 1)
        },
        None => n,
    }
}

/// A path with each `\\` written as `/`.
pub open spec fn forward_slashes(cs: Seq<char>) -> Seq<char> {
    cs.map_values(|c: char| if c == '\\' { '/' } else { c })
}

/// Whether a path ends in `/index`.
pub open spec fn index_suffixed(cs: Seq<char>) -> bool {
    cs.len() >= 6 && cs.subrange(cs.len() - 6, cs.len() as int) == "/index"@
}

/// A path without every `/index` at its end.
pub open spec fn without_index_suffixes(cs: Seq<char>) -> Seq<char>
    decreases cs.len(),
{
    if index_suffixed(cs) {
        without_index_suffixes(cs.take(cs.len() - 6))
    } else {
        cs
    }
}

/// How a module inside an installed package is imported, from the package's
/// name and the module's path inside the package without its extension: the
/// name alone for the package's index, else the name and the path under it.
pub open spec fn package_written_of(name: Seq<char>, inside: Seq<char>) -> Seq<char> {
    let rest = without_index_suffixes(forward_slashes(inside));
    if rest.len() == 0 || rest == "index"@ {
        name
    } else {
        name + "/"@ + rest
    }
}

/// How the path of an import is written, from the target's path and the
/// target's path relative to the importing file's directory, without its
/// extension: a package path (`@...`) as it is; else the relative path with
/// forward slashes, an `index` module as its directory, and `./` in front
/// unless it already starts with a dot.
pub open spec fn import_written_of(target: Seq<char>, relative: Seq<char>) -> Seq<char> {
    if target.len() > 0 && target[0] == '@' {
        target
    } else {
        let text = forward_slashes(relative);
        let text = if index_suffixed(text) { text.take(text.len() - 6) } else { text };
        if text.len() > 0 && text[0] == '.' {
            text
        } else {
            "./"@ + text
        }
    }
}

fn slashes_forward(cs: &[char]) -> (out: Vec<char>)
    ensures
        out@ == forward_slashes(cs@),
{
    let mut out: Vec<char> = Vec::new();
    let mut i: usize = 0;
    while i < cs.len()
        invariant
            i <= cs.len(),
            out@ == forward_slashes(cs@.take(i as int)),
        decreases cs.len() - i,
    {
        let c = if cs[i] == '\\' { '/' } else { cs[i] };
        out.push(c);
        proof {
            assert(forward_slashes(cs@.take(i + 1)) =~= forward_slashes(cs@.take(i as int)).push(c));
        }
        i = i + 1;
    }
    proof {
        assert(cs@.take(cs@.len() as int) =~= cs@);
    }
    out
}

fn ends_in_index(cs: &[char], end: usize) -> (r: bool)
    requires
        end <= cs.len(),
    ensures
        r == index_suffixed(cs@.take(end as int)),
{
    proof {
        reveal_strlit("/index");
    }
    if end < 6 {
        return false;
    }
    let r = cs[end - 6] == '/' && cs[end - 5] == 'i' && cs[end - 4] == 'n' && cs[end - 3] == 'd'
        && cs[end - 2] == 'e' && cs[end - 1] == 'x';
    proof {
        let t = cs@.take(end as int);
        let tail = t.subrange(t.len() - 6, t.len() as int);
        if r {
            assert(tail =~= "/index"@);
        } else {
            assert(tail != "/index"@) by {
                if tail == "/index"@ {
                    assert(tail[0] == '/' && tail[1] == 'i' && tail[2] == 'n');
                    assert(tail[3] == 'd' && tail[4] == 'e' && tail[5] == 'x');
                }
            }
        }
    }
    r
}

fn strip_index_suffixes(cs: &Vec<char>) -> (out: Vec<char>)
    ensures
        out@ == without_index_suffixes(cs@),
{
    let mut end = cs.len();
    proof {
        assert(cs@.take(end as int) =~= cs@);
    }
    while ends_in_index(cs, end)
        invariant
            end <= cs.len(),
            without_index_suffixes(cs@.take(end as int)) == without_index_suffixes(cs@),
        decreases end,
    {
        proof {
            assert(cs@.take(end as int).take(end - 6) =~= cs@.take(end - 6));
        }
        end = end - 6;
    }
    let out = slice_chars(cs, 0, end);
    proof {
        assert(out@ =~= cs@.take(end as int));
    }
    out
}

/// How a module inside an installed package is imported, and the detail a
/// completion shows for it, from the package's name and the module's path
/// inside the package without its extension.
pub fn package_import_path(name: &str, inside: &str) -> (r: (String, String))
    ensures
        r.0@ == package_written_of(name@, inside@),
        r.1@ == "in package "@ + name@,
{
    let slashed = slashes_forward(&chars_of(inside));
    let rest = strip_index_suffixes(&slashed);
    let mut written = String::new();
    push_str(&mut written, name);
    proof {
        reveal_strlit("index");
    }
    let is_index = rest.len() == 5 && rest[0] == 'i' && rest[1] == 'n' && rest[2] == 'd' && rest[3] == 'e'
        && rest[4] == 'x';
    proof {
        if is_index {
            assert(rest@ =~= "index"@);
        } else if rest@ == "index"@ {
            assert(rest@[0] == 'i' && rest@[1] == 'n' && rest@[2] == 'd' && rest@[3] == 'e' && rest@[4] == 'x');
        }
    }
    if !(rest.len() == 0 || is_index) {
        push_char(&mut written, '/');
        push_chars(&mut written, &rest);
        proof {
            reveal_strlit("/");
            assert(written@ =~= name@ + "/"@ + rest@);
        }
    }
    let mut detail = String::new();
    push_str(&mut detail, "in package ");
    push_str(&mut detail, name);
    (written, detail)
}

/// The path text an import uses to reach `target`, given `relative`, the
/// target's path relative to the importing file's directory without its
/// extension.
pub fn import_path(target: &str, relative: &str) -> (r: String)
    ensures
        r@ == import_written_of(target@, relative@),
{
    let t = chars_of(target);
    if t.len() > 0 && t[0] == '@' {
        return crate::text::string_of(&t);
    }
    let slashed = slashes_forward(&chars_of(relative));
    let text = if ends_in_index(&slashed, slashed.len()) {
        slice_chars(&slashed, 0, slashed.len() - 6)
    } else {
        slice_chars(&slashed, 0, slashed.len())
    };
    proof {
        assert(slashed@.take(slashed@.len() as int) =~= slashed@);
        assert(slashed@.subrange(0, slashed@.len() as int) =~= slashed@);
    }
    let mut out = String::new();
    if !(text.len() > 0 && text[0] == '.') {
        push_str(&mut out, "./");
    }
    push_chars(&mut out, &text);
    out
}

// ---- removing unused items from an import list --------------------------------------------

/// The indices below `k` that `removed` holds, each once, in increasing order.
pub open spec fn removed_below(removed: Seq<usize>, k: nat) -> Seq<int>
    decreases k,
{
    if k == 0 {
        Seq::empty()
    } else {
        let before = removed_below(removed, (k - 1) as nat);
        if removed.contains((k - 1) as usize) {
            before.push(k - 1)
        } else {
            before
        }
    }
}

/// Where the run of consecutive indices that starts at position `i` of `s`
/// ends.
pub open spec fn run_end(s: Seq<int>, i: int) -> int
    decreases s.len() - i,
{
    if 0 <= i && i + 1 < s.len() && s[i + 1] == s[i] + 1 {
        run_end(s, i + 1)
    } else {
        i
    }
}

/// What goes for the runs of removed items from position `start` of `s` on:
/// each run with the separator after it, or, when it reaches the end of the
/// list, with the separator before it.
pub open spec fn removal_runs(items: Seq<TextRange>, s: Seq<int>, start: int) -> Seq<TextRange>
    decreases s.len() - start,
{
    if start < 0 || start >= s.len() {
        Seq::empty()
    } else {
        let e = run_end(s, start);
        proof {
            lemma_run_end(s, start);
        }
        let first = s[start];
        let last = s[e];
        let range = if last + 1 < items.len() {
            TextRange { start: items[first].start, end: items[last + 1].start }
        } else {
            TextRange { start: items[first - 1].end, end: items[last].end }
        };
        seq![range] + removal_runs(items, s, e + 1)
    }
}

/// What goes when the items at `removed` leave an import list whose items
/// span `items`: the whole declaration when none is left, else each run of
/// removed items, so that what stays reads exactly as it was written.
pub open spec fn list_removal_of(items: Seq<TextRange>, removed: Seq<usize>, whole: TextRange) -> Seq<TextRange> {
    let s = removed_below(removed, items.len());
    if s.len() >= items.len() {
        seq![whole]
    } else {
        removal_runs(items, s, 0)
    }
}

proof fn lemma_removed_below(removed: Seq<usize>, k: nat)
    ensures
        removed_below(removed, k).len() <= k,
        forall|i: int| 0 <= i < removed_below(removed, k).len() ==> 0 <= #[trigger] removed_below(removed, k)[i] < k,
        forall|i: int, j: int| 0 <= i < j < removed_below(removed, k).len() ==> #[trigger] removed_below(removed, k)[i] < #[trigger] removed_below(removed, k)[j],
    decreases k,
{
    if k > 0 {
        lemma_removed_below(removed, (k - 1) as nat);
    }
}

/// A run ends at or after where it starts, inside the list, and climbs by one
/// at each step.
pub proof fn lemma_run_end(s: Seq<int>, i: int)
    requires
        0 <= i < s.len(),
    ensures
        i <= run_end(s, i) < s.len(),
        s[run_end(s, i)] == s[i] + (run_end(s, i) - i),
    decreases s.len() - i,
{
    if i + 1 < s.len() && s[i + 1] == s[i] + 1 {
        lemma_run_end(s, i + 1);
    }
}

/// A strictly increasing run of indices below `n` that ends at `n - 1` and
/// starts at 0 holds every index below `n`.
proof fn lemma_full_run(s: Seq<int>, start: int, e: int, n: int)
    requires
        0 <= start <= e < s.len(),
        s[e] == s[start] + (e - start),
        s[start] == 0,
        s[e] == n - 1,
    ensures
        s.len() >= n,
{
}

fn sorted_removed(removed: &Vec<usize>, n: usize) -> (s: Vec<usize>)
    ensures
        s@.map_values(|x: usize| x as int) == removed_below(removed@, n as nat),
{
    let mut s: Vec<usize> = Vec::new();
    let mut k: usize = 0;
    while k < n
        invariant
            k <= n,
            s@.map_values(|x: usize| x as int) == removed_below(removed@, k as nat),
        decreases n - k,
    {
        let mut found = false;
        let mut j: usize = 0;
        while j < removed.len() && !found
            invariant
                j <= removed@.len(),
                found ==> removed@.contains(k),
                !found ==> forall|m: int| 0 <= m < j ==> removed@[m] != k,
            decreases removed@.len() - j + (if found { 0int } else { 1int }),
        {
            if removed[j] == k {
                proof {
                    assert(removed@[j as int] == k);
                }
                found = true;
            } else {
                j = j + 1;
            }
        }
        let ghost before = s@;
        if found {
            s.push(k);
            proof {
                assert(s@.map_values(|x: usize| x as int) =~= before.map_values(|x: usize| x as int).push(k as int));
            }
        }
        k = k + 1;
    }
    s
}

/// The ranges that go when the items at `removed` (indices into `items`)
/// leave an import list: the whole declaration, `whole`, when none is left;
/// else each run of consecutive removed items with the separator after it,
/// or, when the run reaches the end of the list, the separator before it.
pub fn list_removal(items: &Vec<TextRange>, removed: &Vec<usize>, whole: TextRange) -> (out: Vec<TextRange>)
    requires
        forall|i: int| 0 <= i < removed@.len() ==> #[trigger] removed@[i] < items@.len(),
    ensures
        out@ == list_removal_of(items@, removed@, whole),
{
    let s = sorted_removed(removed, items.len());
    let ghost sv = removed_below(removed@, items@.len());
    proof {
        lemma_removed_below(removed@, items@.len());
        assert(s@.len() == sv.len());
        assert forall|i: int| 0 <= i < s@.len() implies s@[i] as int == #[trigger] sv[i] by {
            assert(s@.map_values(|x: usize| x as int)[i] == s@[i] as int);
        }
    }
    let n = items.len();
    if s.len() >= n {
        return vec![whole];
    }
    let mut out: Vec<TextRange> = Vec::new();
    let mut start: usize = 0;
    while start < s.len()
        invariant
            sv == removed_below(removed@, items@.len()),
            n == items@.len(),
            s@.len() == sv.len(),
            sv.len() < items@.len(),
            forall|i: int| 0 <= i < s@.len() ==> s@[i] as int == #[trigger] sv[i],
            forall|i: int| 0 <= i < sv.len() ==> 0 <= #[trigger] sv[i] < items@.len(),
            forall|i: int, j: int| 0 <= i < j < sv.len() ==> #[trigger] sv[i] < #[trigger] sv[j],
            start <= s@.len(),
            out@ + removal_runs(items@, sv, start as int) == removal_runs(items@, sv, 0),
        decreases s@.len() - start,
    {
        let mut end = start;
        while end + 1 < s.len() && s[end + 1] == s[end] + 1
            invariant
                start <= end < s@.len(),
                n == items@.len(),
                s@.len() == sv.len(),
                forall|i: int| 0 <= i < s@.len() ==> s@[i] as int == #[trigger] sv[i],
                forall|i: int| 0 <= i < sv.len() ==> 0 <= #[trigger] sv[i] < items@.len(),
                sv.len() < items@.len(),
                run_end(sv, end as int) == run_end(sv, start as int),
            decreases s@.len() - end,
        {
            proof {
                assert(sv[end + 1] == sv[end as int] + 1);
            }
            end = end + 1;
        }
        proof {
            assert(sv[end as int] == s@[end as int] as int);
            if end + 1 < s@.len() {
                assert(sv[end + 1] == s@[end + 1] as int);
            }
            assert(run_end(sv, end as int) == end);
            lemma_run_end(sv, start as int);
        }
        let first = s[start];
        let last = s[end];
        let range = if last + 1 < n {
            TextRange { start: items[first].start, end: items[last + 1].start }
        } else {
            proof {
                if first == 0 {
                    assert(sv[start as int] == 0 && sv[end as int] == items@.len() - 1);
                    lemma_full_run(sv, start as int, end as int, items@.len() as int);
                }
            }
            TextRange { start: items[first - 1].end, end: items[last].end }
        };
        let ghost before = out@;
        out.push(range);
        proof {
            assert(removal_runs(items@, sv, start as int) == seq![range] + removal_runs(items@, sv, end + 1));
            assert(out@ + removal_runs(items@, sv, end + 1) =~= before + removal_runs(items@, sv, start as int));
        }
        start = end + 1;
    }
    proof {
        assert(out@ + removal_runs(items@, sv, start as int) =~= out@);
    }
    out
}

// ---- unused imports -----------------------------------------------------------------------

/// One item of an import list: the name it binds, where it is written (the
/// name through the alias), whether the module it comes from exports the
/// name, and whether the file refers to what it binds.
pub struct ImportedItem {
    pub local: String,
    pub range: TextRange,
    pub exported: bool,
    pub used: bool,
}

/// An import list: whether its path resolves to a module, and its items.
pub struct ImportList {
    pub resolves: bool,
    pub items: Vec<ImportedItem>,
}

/// A `use` line: its path, whether the path resolves to a module, the
/// keywords of the anchors that module exports, and where the line is
/// written, without its line break.
pub struct UseLine {
    pub path: String,
    pub resolves: bool,
    pub keywords: Vec<String>,
    pub range: TextRange,
}

/// An import that nothing in its file uses: what to fade, which import it is,
/// how the diagnostic names it, and the code action that removes it.
#[derive(Clone, Debug, PartialEq, Eq)]
pub struct Unused {
    pub range: TextRange,
    pub kind: UnusedKind,
    pub label: String,
    pub title: String,
}

pub struct UnusedView {
    pub range: TextRange,
    pub kind: UnusedKind,
    pub label: Seq<char>,
    pub title: Seq<char>,
}

impl View for Unused {
    type V = UnusedView;

    open spec fn view(&self) -> UnusedView {
        UnusedView { range: self.range, kind: self.kind, label: self.label@, title: self.title@ }
    }
}

/// What is said of an unused item of an import list.
pub open spec fn item_unused(decl: int, item: int, it: ImportedItem) -> UnusedView {
    UnusedView {
        range: it.range,
        kind: UnusedKind::Item { decl: decl as usize, item: item as usize },
        label: "`"@ + it.local@ + "` is imported but never used"@,
        title: "Remove unused import `"@ + it.local@ + "`"@,
    }
}

/// The unused items among the first `k` of import list `decl`: those the
/// module exports and the file never refers to.
pub open spec fn unused_items(decl: int, items: Seq<ImportedItem>, k: nat) -> Seq<UnusedView>
    decreases k,
{
    if k == 0 || k > items.len() {
        Seq::empty()
    } else {
        let before = unused_items(decl, items, (k - 1) as nat);
        let it = items[k - 1];
        if it.exported && !it.used {
            before.push(item_unused(decl, k - 1, it))
        } else {
            before
        }
    }
}

/// The unused items of the first `k` import lists, list by list; a list
/// whose path does not resolve is the compiler's to report.
pub open spec fn unused_in_lists(lists: Seq<ImportList>, k: nat) -> Seq<UnusedView>
    decreases k,
{
    if k == 0 || k > lists.len() {
        Seq::empty()
    } else {
        let before = unused_in_lists(lists, (k - 1) as nat);
        let l = lists[k - 1];
        if l.resolves {
            before + unused_items(k - 1, l.items@, l.items@.len())
        } else {
            before
        }
    }
}

/// Whether a `use` line brings in `keyword`: its path resolves and the
/// module exports an anchor with that keyword.
pub open spec fn provides(u: UseLine, keyword: Seq<char>) -> bool {
    u.resolves && exists|j: int| #![trigger u.keywords@[j]] 0 <= j < u.keywords@.len() && u.keywords@[j]@ == keyword
}

/// Which of the first `k` `use` lines `keyword` comes from: the last that
/// brings it in, a later one replacing an earlier one as the compiler builds
/// the keywords.
pub open spec fn provider(uses: Seq<UseLine>, keyword: Seq<char>, k: int) -> Option<int>
    decreases k,
{
    if k <= 0 || k > uses.len() {
        None
    } else if provides(uses[k - 1], keyword) {
        Some(k - 1)
    } else {
        provider(uses, keyword, k - 1)
    }
}

/// Whether the `use` line at `position` is what some anchor of the file
/// gets its keyword from.
pub open spec fn use_needed(uses: Seq<UseLine>, wanted: Seq<Seq<char>>, position: int) -> bool {
    exists|v: int| 0 <= v < wanted.len() && provider(uses, #[trigger] wanted[v], uses.len() as int) == Some(position)
}

/// What is said of a `use` line that brings in no keyword the file uses.
pub open spec fn use_unused(position: int, u: UseLine) -> UnusedView {
    UnusedView {
        range: u.range,
        kind: UnusedKind::Use { index: position as usize },
        label: "`use "@ + u.path@ + "` brings in no keyword this file uses"@,
        title: "Remove unused `use "@ + u.path@ + "`"@,
    }
}

/// The unused lines among the first `k` `use` lines: those whose path
/// resolves and that no anchor of the file gets its keyword from.
pub open spec fn unused_uses(uses: Seq<UseLine>, wanted: Seq<Seq<char>>, k: nat) -> Seq<UnusedView>
    decreases k,
{
    if k == 0 || k > uses.len() {
        Seq::empty()
    } else {
        let before = unused_uses(uses, wanted, (k - 1) as nat);
        if uses[k - 1].resolves && !use_needed(uses, wanted, k - 1) {
            before.push(use_unused(k - 1, uses[k - 1]))
        } else {
            before
        }
    }
}

/// Every import item and `use` line of a file that nothing in the file uses,
/// items first; nothing for a file that is virtual or does not parse.
pub open spec fn unused_of(
    unchecked: bool,
    lists: Seq<ImportList>,
    uses: Seq<UseLine>,
    wanted: Seq<Seq<char>>,
) -> Seq<UnusedView> {
    if unchecked {
        Seq::empty()
    } else {
        unused_in_lists(lists, lists.len()) + unused_uses(uses, wanted, uses.len())
    }
}

fn item_report(decl: usize, item: usize, it: &ImportedItem) -> (r: Unused)
    ensures
        r@ == item_unused(decl as int, item as int, *it),
{
    let mut label = String::new();
    push_str(&mut label, "`");
    push_str(&mut label, it.local.as_str());
    push_str(&mut label, "` is imported but never used");
    let mut title = String::new();
    push_str(&mut title, "Remove unused import `");
    push_str(&mut title, it.local.as_str());
    push_str(&mut title, "`");
    Unused { range: it.range, kind: UnusedKind::Item { decl, item }, label, title }
}

fn use_report(position: usize, u: &UseLine) -> (r: Unused)
    ensures
        r@ == use_unused(position as int, *u),
{
    let mut label = String::new();
    push_str(&mut label, "`use ");
    push_str(&mut label, u.path.as_str());
    push_str(&mut label, "` brings in no keyword this file uses");
    let mut title = String::new();
    push_str(&mut title, "Remove unused `use ");
    push_str(&mut title, u.path.as_str());
    push_str(&mut title, "`");
    Unused { range: u.range, kind: UnusedKind::Use { index: position }, label, title }
}

fn brings_in(u: &UseLine, keyword: &str) -> (r: bool)
    ensures
        r == provides(*u, keyword@),
{
    if !u.resolves {
        return false;
    }
    let mut j: usize = 0;
    while j < u.keywords.len()
        invariant
            u.resolves,
            j <= u.keywords@.len(),
            forall|m: int| 0 <= m < j ==> u.keywords@[m]@ != keyword@,
        decreases u.keywords@.len() - j,
    {
        if str_eq(u.keywords[j].as_str(), keyword) {
            proof {
                let w = j as int;
                assert(0 <= w < u.keywords@.len() && u.keywords@[w]@ == keyword@);
            }
            return true;
        }
        j = j + 1;
    }
    false
}

fn provider_of(uses: &Vec<UseLine>, keyword: &str) -> (r: Option<usize>)
    ensures
        match r {
            Some(p) => provider(uses@, keyword@, uses@.len() as int) == Some(p as int),
            None => provider(uses@, keyword@, uses@.len() as int) is None,
        },
{
    let mut k = uses.len();
    while k > 0
        invariant
            k <= uses@.len(),
            provider(uses@, keyword@, k as int) == provider(uses@, keyword@, uses@.len() as int),
        decreases k,
    {
        if brings_in(&uses[k - 1], keyword) {
            return Some(k - 1);
        }
        k = k - 1;
    }
    None
}

fn needed_use(uses: &Vec<UseLine>, wanted: &Vec<String>, position: usize) -> (r: bool)
    ensures
        r == use_needed(uses@, string_views(wanted@), position as int),
{
    let ghost vs = string_views(wanted@);
    let mut v: usize = 0;
    while v < wanted.len()
        invariant
            v <= wanted@.len(),
            vs == string_views(wanted@),
            forall|m: int| 0 <= m < v ==> provider(uses@, #[trigger] vs[m], uses@.len() as int) != Some(position as int),
        decreases wanted@.len() - v,
    {
        match provider_of(uses, wanted[v].as_str()) {
            Some(p) => {
                if p == position {
                    proof {
                        assert(vs[v as int] == wanted@[v as int]@);
                    }
                    return true;
                }
            },
            None => {},
        }
        proof {
            assert(vs[v as int] == wanted@[v as int]@);
        }
        v = v + 1;
    }
    false
}

/// The text of each string.
pub open spec fn string_views(ws: Seq<String>) -> Seq<Seq<char>> {
    ws.map_values(|w: String| w@)
}

/// Every import item and `use` line of a file that nothing in the file uses:
/// first each item, list by list, that its module exports and the file never
/// refers to; then each `use` line whose path resolves and that no anchor of
/// the file gets its keyword from (the keywords in `wanted`), the last `use` that brings in a
/// keyword being the one it comes from. Nothing when `unchecked`: the file
/// is virtual or does not parse.
pub fn unused(unchecked: bool, lists: &Vec<ImportList>, uses: &Vec<UseLine>, wanted: &Vec<String>) -> (out: Vec<Unused>)
    ensures
        out@.map_values(|u: Unused| u@) == unused_of(unchecked, lists@, uses@, string_views(wanted@)),
{
    let mut out: Vec<Unused> = Vec::new();
    if unchecked {
        proof {
            assert(out@.map_values(|u: Unused| u@) =~= Seq::<UnusedView>::empty());
        }
        return out;
    }
    let mut d: usize = 0;
    while d < lists.len()
        invariant
            d <= lists@.len(),
            out@.map_values(|u: Unused| u@) == unused_in_lists(lists@, d as nat),
        decreases lists@.len() - d,
    {
        let list = &lists[d];
        let ghost start = out@.map_values(|u: Unused| u@);
        if list.resolves {
            let mut i: usize = 0;
            while i < list.items.len()
                invariant
                    i <= list.items@.len(),
                    list == lists@[d as int],
                    out@.map_values(|u: Unused| u@) == start + unused_items(d as int, list.items@, i as nat),
                decreases list.items@.len() - i,
            {
                let it = &list.items[i];
                if it.exported && !it.used {
                    let ghost before = out@;
                    out.push(item_report(d, i, it));
                    proof {
                        assert(out@.map_values(|u: Unused| u@) =~= before.map_values(|u: Unused| u@).push(
                            item_unused(d as int, i as int, *it),
                        ));
                    }
                }
                i = i + 1;
            }
        }
        d = d + 1;
    }
    let ghost vs = string_views(wanted@);
    let ghost items_part = out@.map_values(|u: Unused| u@);
    let mut p: usize = 0;
    proof {
        assert(items_part + unused_uses(uses@, vs, 0) =~= items_part);
    }
    while p < uses.len()
        invariant
            p <= uses@.len(),
            vs == string_views(wanted@),
            items_part == unused_in_lists(lists@, lists@.len()),
            out@.map_values(|u: Unused| u@) == items_part + unused_uses(uses@, vs, p as nat),
        decreases uses@.len() - p,
    {
        if uses[p].resolves && !needed_use(uses, wanted, p) {
            let ghost before = out@;
            out.push(use_report(p, &uses[p]));
            proof {
                assert(out@.map_values(|u: Unused| u@) =~= before.map_values(|u: Unused| u@).push(
                    use_unused(p as int, uses@[p as int]),
                ));
            }
        }
        p = p + 1;
    }
    out
}

} // verus!
