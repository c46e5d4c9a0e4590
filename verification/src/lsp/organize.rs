//! Organizing a file's imports: dropping what the file does not use, and
//! writing what stays in canonical order.
use vstd::prelude::*;

use crate::lsp::analysis::{line_span, line_span_of, render_from, render_from_of};
use crate::lsp::convert::{boundary_index, char_index, on_boundary, Span};
use crate::order::{sort_texts, sorted_texts, string_texts};
use crate::text::{chars_eq, chars_of, push_char, push_str, slice_chars, str_eq, string_of};

verus! {

/// One name of a `from PATH import ...` list as organizing sees it: the name,
/// its alias, whether the name it binds resolves in the module, and whether
/// the file refers to that name outside the declaration.
pub struct ListedName {
    pub name: String,
    pub alias: Option<String>,
    pub resolves: bool,
    pub referenced: bool,
}

/// A top-level declaration of a file as organizing sees it.
pub enum ImportDecl {
    /// `use PATH`, with whether the file needs it: it refers to a keyword the
    /// module declares, or the path does not resolve (the compiler reports
    /// that).
    Use { path: String, span: Span, referenced: bool },
    /// `from PATH import ...` with a list of names.
    From { path: String, span: Span, names: Vec<ListedName> },
    /// What organizing leaves alone: other declarations, `import *`, and
    /// re-exports.
    Other,
}

/// The name an entry binds: its alias, or the name itself.
pub open spec fn local_name_of(n: ListedName) -> Seq<char> {
    match n.alias {
        Some(a) => a@,
        None => n.name@,
    }
}

/// An entry as it is written: the name, then the alias after a space.
pub open spec fn entry_text_of(n: ListedName) -> Seq<char> {
    match n.alias {
        Some(a) => n.name@ + seq![' '] + a@,
        None => n.name@,
    }
}

/// Whether an entry before the `k`-th binds the same name.
pub open spec fn bound_before(ns: Seq<ListedName>, k: int) -> bool {
    exists|j: int| 0 <= j < k && local_name_of(#[trigger] ns[j]) == local_name_of(ns[k])
}

/// The entries among the first `k` that stay, written out, in list order: the
/// first to bind each name, when that name resolves and the file refers to it.
pub open spec fn kept_in_order(ns: Seq<ListedName>, k: nat) -> Seq<Seq<char>>
    decreases k,
{
    if k == 0 || k > ns.len() {
        Seq::empty()
    } else {
        let before = kept_in_order(ns, (k - 1) as nat);
        let n = ns[k - 1];
        if !bound_before(ns, k - 1) && n.resolves && n.referenced {
            before.push(entry_text_of(n))
        } else {
            before
        }
    }
}

/// The entries of an import list that stay, sorted.
pub open spec fn kept_names_of(ns: Seq<ListedName>) -> Seq<Seq<char>> {
    sorted_texts(kept_in_order(ns, ns.len()))
}

/// The path a `use` declaration names, if the declaration is one.
pub open spec fn use_path(d: ImportDecl) -> Option<Seq<char>> {
    match d {
        ImportDecl::Use { path, .. } => Some(path@),
        _ => None,
    }
}

/// Whether a `use` of the same path comes before the `k`-th declaration.
pub open spec fn used_before(ds: Seq<ImportDecl>, k: int, path: Seq<char>) -> bool {
    exists|j: int| 0 <= j < k && #[trigger] use_path(ds[j]) == Some(path)
}

/// Whether a path is written with the `.pi` extension.
pub open spec fn ends_pi(path: Seq<char>) -> bool {
    path.len() >= 3 && path.subrange(path.len() - 3, path.len() as int) == seq!['.', 'p', 'i']
}

/// Whether the character that ends at byte `e` is a line break.
pub open spec fn ends_in_break(cs: Seq<char>, e: int) -> bool {
    let b = boundary_index(cs, e) as int;
    b > 0 && cs[b - 1] == '\n'
}

/// What organizing does to the `k`-th declaration: the whole lines it sits on
/// and what replaces them, or nothing. A `use` of a path already used, or one
/// the file does not need, goes. An import list that already holds exactly
/// the names that stay, in order, with a path written without `.pi`, stays;
/// one with nothing left goes; any other is written anew with the names that
/// stay, ending in a line break when its lines did.
pub open spec fn decl_edit_of(
    cs: Seq<char>,
    ds: Seq<ImportDecl>,
    k: int,
    indent: nat,
    wrap_column: nat,
) -> Option<((int, int), Seq<char>)> {
    match ds[k] {
        ImportDecl::Use { path, span, referenced } => {
            if used_before(ds, k, path@) || !referenced {
                Some((line_span_of(cs, span.start as int, span.end as int), Seq::empty()))
            } else {
                None
            }
        },
        ImportDecl::From { path, span, names } => {
            let kept = kept_names_of(names@);
            let current = names@.map_values(|n: ListedName| entry_text_of(n));
            if kept == current && !ends_pi(path@) {
                None
            } else {
                let lines = line_span_of(cs, span.start as int, span.end as int);
                if kept.len() == 0 {
                    Some((lines, Seq::empty()))
                } else {
                    let rewritten = render_from_of(path@, "import"@, kept, false, indent, wrap_column);
                    Some((lines, if ends_in_break(cs, lines.1) { rewritten + seq!['\n'] } else { rewritten }))
                }
            }
        },
        ImportDecl::Other => None,
    }
}

/// The edits organizing makes to the first `k` declarations, in order.
pub open spec fn organize_edits_of(
    cs: Seq<char>,
    ds: Seq<ImportDecl>,
    k: nat,
    indent: nat,
    wrap_column: nat,
) -> Seq<((int, int), Seq<char>)>
    decreases k,
{
    if k == 0 || k > ds.len() {
        Seq::empty()
    } else {
        let before = organize_edits_of(cs, ds, (k - 1) as nat, indent, wrap_column);
        match decl_edit_of(cs, ds, k - 1, indent, wrap_column) {
            Some(e) => before.push(e),
            None => before,
        }
    }
}

/// Whether an edit writes something other than what its range holds.
pub open spec fn edit_changes(cs: Seq<char>, e: ((int, int), Seq<char>)) -> bool {
    let (s, t) = e.0;
    s <= t && cs.subrange(boundary_index(cs, s) as int, boundary_index(cs, t) as int) != e.1
}

/// Organizing a file's imports: the edits, when any of them changes the text.
pub open spec fn organize_of(cs: Seq<char>, ds: Seq<ImportDecl>, indent: nat, wrap_column: nat) -> Option<
    Seq<((int, int), Seq<char>)>,
> {
    let edits = organize_edits_of(cs, ds, ds.len(), indent, wrap_column);
    if exists|i: int| 0 <= i < edits.len() && edit_changes(cs, #[trigger] edits[i]) {
        Some(edits)
    } else {
        None
    }
}

/// The spans of a declaration fall between characters of the text.
pub open spec fn spans_on_boundaries(cs: Seq<char>, d: ImportDecl) -> bool {
    match d {
        ImportDecl::Use { span, .. } => on_boundary(cs, span.start as int) && on_boundary(cs, span.end as int),
        ImportDecl::From { span, .. } => on_boundary(cs, span.start as int) && on_boundary(cs, span.end as int),
        ImportDecl::Other => true,
    }
}

/// An edit as plain values.
pub open spec fn edit_view(e: (Span, String)) -> ((int, int), Seq<char>) {
    ((e.0.start as int, e.0.end as int), e.1@)
}

fn local_name(n: &ListedName) -> (r: &str)
    ensures
        r@ == local_name_of(*n),
{
    match &n.alias {
        Some(a) => a.as_str(),
        None => n.name.as_str(),
    }
}

fn entry_text(n: &ListedName) -> (r: String)
    ensures
        r@ == entry_text_of(*n),
{
    let mut out = String::new();
    push_str(&mut out, n.name.as_str());
    if let Some(a) = &n.alias {
        push_char(&mut out, ' ');
        push_str(&mut out, a.as_str());
    }
    out
}

/// The entries of an import list that stay, sorted: the first to bind each
/// name, when that name resolves and the file refers to it.
pub fn kept_import_names(names: &Vec<ListedName>) -> (kept: Vec<String>)
    ensures
        string_texts(kept@) == kept_names_of(names@),
{
    let mut in_order: Vec<String> = Vec::new();
    let mut k: usize = 0;
    while k < names.len()
        invariant
            k <= names@.len(),
            string_texts(in_order@) == kept_in_order(names@, k as nat),
        decreases names@.len() - k,
    {
        let local = local_name(&names[k]);
        let mut seen = false;
        let mut j: usize = 0;
        while j < k && !seen
            invariant
                j <= k < names@.len(),
                local@ == local_name_of(names@[k as int]),
                seen ==> bound_before(names@, k as int),
                !seen ==> forall|m: int| 0 <= m < j ==> local_name_of(#[trigger] names@[m]) != local@,
            decreases k - j + (if seen { 0int } else { 1int }),
        {
            if str_eq(local_name(&names[j]), local) {
                seen = true;
            } else {
                j = j + 1;
            }
        }
        let n = &names[k];
        if !seen && n.resolves && n.referenced {
            in_order.push(entry_text(n));
            proof {
                assert(string_texts(in_order@) =~= kept_in_order(names@, k as nat).push(entry_text_of(names@[k as int])));
            }
        }
        k = k + 1;
    }
    sort_texts(in_order)
}

fn same_texts_in_order(a: &Vec<String>, b: &Vec<String>) -> (r: bool)
    ensures
        r == (string_texts(a@) == string_texts(b@)),
{
    if a.len() != b.len() {
        proof {
            assert(string_texts(a@).len() != string_texts(b@).len());
        }
        return false;
    }
    let mut i: usize = 0;
    while i < a.len()
        invariant
            a@.len() == b@.len(),
            i <= a@.len(),
            forall|m: int| 0 <= m < i ==> a@[m]@ == b@[m]@,
        decreases a@.len() - i,
    {
        if !str_eq(a[i].as_str(), b[i].as_str()) {
            proof {
                assert(string_texts(a@)[i as int] != string_texts(b@)[i as int]);
            }
            return false;
        }
        i = i + 1;
    }
    proof {
        assert(string_texts(a@) =~= string_texts(b@));
    }
    true
}

fn written_with_pi(path: &str) -> (r: bool)
    ensures
        r == ends_pi(path@),
{
    let pc = chars_of(path);
    let n = pc.len();
    let r = n >= 3 && pc[n - 3] == '.' && pc[n - 2] == 'p' && pc[n - 1] == 'i';
    proof {
        if n >= 3 {
            let tail = pc@.subrange(n - 3, n as int);
            if r {
                assert(tail =~= seq!['.', 'p', 'i']);
            } else if tail == seq!['.', 'p', 'i'] {
                assert(tail[0] == pc@[n - 3] && tail[1] == pc@[n - 2] && tail[2] == pc@[n - 1]);
            }
        }
    }
    r
}

fn previous_is_break(cs: &Vec<char>, e: usize) -> (r: bool)
    ensures
        r == ends_in_break(cs@, e as int),
{
    let b = char_index(cs, e);
    proof {
        crate::lsp::convert::lemma_boundary_index_bound(cs@, e as int);
    }
    b > 0 && cs[b - 1] == '\n'
}

fn decl_edit(
    text: &str,
    cs: &Vec<char>,
    decls: &Vec<ImportDecl>,
    k: usize,
    indent: usize,
    wrap_column: usize,
) -> (r: Option<(Span, String)>)
    requires
        k < decls@.len(),
        cs@ == text@,
        spans_on_boundaries(text@, decls@[k as int]),
    ensures
        match r {
            Some(e) => decl_edit_of(text@, decls@, k as int, indent as nat, wrap_column as nat) == Some(edit_view(e)),
            None => decl_edit_of(text@, decls@, k as int, indent as nat, wrap_column as nat) is None,
        },
{
    match &decls[k] {
        ImportDecl::Use { path, span, referenced } => {
            let mut seen = false;
            let mut j: usize = 0;
            while j < k && !seen
                invariant
                    j <= k < decls@.len(),
                    seen ==> used_before(decls@, k as int, path@),
                    !seen ==> forall|m: int| 0 <= m < j ==> #[trigger] use_path(decls@[m]) != Some(path@),
                decreases k - j + (if seen { 0int } else { 1int }),
            {
                match &decls[j] {
                    ImportDecl::Use { path: earlier, .. } => {
                        if str_eq(earlier.as_str(), path.as_str()) {
                            proof {
                                assert(use_path(decls@[j as int]) == Some(path@));
                            }
                            seen = true;
                        } else {
                            j = j + 1;
                        }
                    },
                    _ => {
                        j = j + 1;
                    },
                }
            }
            if seen || !*referenced {
                let lines = line_span(text, *span);
                Some((lines, String::new()))
            } else {
                None
            }
        },
        ImportDecl::From { path, span, names } => {
            let kept = kept_import_names(names);
            let mut current: Vec<String> = Vec::new();
            let mut i: usize = 0;
            while i < names.len()
                invariant
                    i <= names@.len(),
                    string_texts(current@) == names@.take(i as int).map_values(|n: ListedName| entry_text_of(n)),
                decreases names@.len() - i,
            {
                current.push(entry_text(&names[i]));
                proof {
                    assert(names@.take(i + 1).map_values(|n: ListedName| entry_text_of(n)) =~= names@.take(
                        i as int,
                    ).map_values(|n: ListedName| entry_text_of(n)).push(entry_text_of(names@[i as int])));
                    assert(string_texts(current@) =~= names@.take(i as int).map_values(|n: ListedName| entry_text_of(n)).push(
                        entry_text_of(names@[i as int]),
                    ));
                }
                i = i + 1;
            }
            proof {
                assert(names@.take(i as int) =~= names@);
            }
            if same_texts_in_order(&kept, &current) && !written_with_pi(path.as_str()) {
                return None;
            }
            let lines = line_span(text, *span);
            if kept.len() == 0 {
                return Some((lines, String::new()));
            }
            let mut rewritten = render_from(path.as_str(), "import", &kept, false, indent, wrap_column);
            proof {
                assert(crate::fmt::texts(kept@) =~= string_texts(kept@));
            }
            if previous_is_break(cs, lines.end) {
                push_char(&mut rewritten, '\n');
            }
            Some((lines, rewritten))
        },
        ImportDecl::Other => None,
    }
}

fn changes(cs: &Vec<char>, e: &(Span, String)) -> (r: bool)
    ensures
        r == edit_changes(cs@, edit_view(*e)),
{
    let s = e.0.start;
    let t = e.0.end;
    if s > t {
        return false;
    }
    let a = char_index(cs, s);
    let b = char_index(cs, t);
    proof {
        crate::lsp::convert::lemma_boundary_index_mono(cs@, s as int, t as int);
        crate::lsp::convert::lemma_boundary_index_bound(cs@, t as int);
    }
    let held = slice_chars(cs, a, b);
    !chars_eq(&held, &chars_of(e.1.as_str()))
}

/// Rewrites a file's imports so that only the names the file refers to stay,
/// in canonical order: each edit gives the whole lines a declaration sits on
/// and what replaces them. `None` when the file is already in that shape.
/// `import *` lists and re-exports are left alone: a directory publishes its
/// surface through them. The indentation and wrapping column are the
/// formatter's.
pub fn organize_imports(text: &str, decls: &Vec<ImportDecl>, indent: usize, wrap_column: usize) -> (r: Option<
    Vec<(Span, String)>,
>)
    requires
        forall|k: int| 0 <= k < decls@.len() ==> spans_on_boundaries(text@, #[trigger] decls@[k]),
    ensures
        match r {
            Some(es) => organize_of(text@, decls@, indent as nat, wrap_column as nat) == Some(
                es@.map_values(|e: (Span, String)| edit_view(e)),
            ),
            None => organize_of(text@, decls@, indent as nat, wrap_column as nat) is None,
        },
{
    let cs = chars_of(text);
    let ghost ind = indent as nat;
    let ghost wc = wrap_column as nat;
    let mut edits: Vec<(Span, String)> = Vec::new();
    let mut k: usize = 0;
    while k < decls.len()
        invariant
            k <= decls@.len(),
            cs@ == text@,
            ind == indent as nat,
            wc == wrap_column as nat,
            forall|m: int| 0 <= m < decls@.len() ==> spans_on_boundaries(text@, #[trigger] decls@[m]),
            edits@.map_values(|e: (Span, String)| edit_view(e)) == organize_edits_of(text@, decls@, k as nat, ind, wc),
        decreases decls@.len() - k,
    {
        let ghost before = edits@;
        match decl_edit(text, &cs, decls, k, indent, wrap_column) {
            Some(e) => {
                let ghost ev = edit_view(e);
                edits.push(e);
                proof {
                    assert(edits@.map_values(|e: (Span, String)| edit_view(e)) =~= before.map_values(
                        |e: (Span, String)| edit_view(e),
                    ).push(ev));
                }
            },
            None => {},
        }
        k = k + 1;
    }
    let ghost all = organize_edits_of(text@, decls@, decls@.len(), ind, wc);
    let mut changed = false;
    let mut i: usize = 0;
    while i < edits.len() && !changed
        invariant
            i <= edits@.len(),
            cs@ == text@,
            all == edits@.map_values(|e: (Span, String)| edit_view(e)),
            changed ==> exists|m: int| 0 <= m < all.len() && edit_changes(text@, #[trigger] all[m]),
            !changed ==> forall|m: int| 0 <= m < i ==> !edit_changes(text@, #[trigger] all[m]),
        decreases edits@.len() - i + (if changed { 0int } else { 1int }),
    {
        if changes(&cs, &edits[i]) {
            proof {
                assert(all[i as int] == edit_view(edits@[i as int]));
            }
            changed = true;
        } else {
            proof {
                assert(all[i as int] == edit_view(edits@[i as int]));
            }
            i = i + 1;
        }
    }
    if changed {
        Some(edits)
    } else {
        None
    }
}

} // verus!
