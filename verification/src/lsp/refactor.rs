//! Where files end up when the editor moves them.
use vstd::prelude::*;

use crate::lsp::convert::{Position, Range};
use crate::lsp::diff::TextEdit;
use crate::path::{components, components_of, join, named, segments};
use crate::text::{chars_eq, chars_of, len_utf16, push_char, push_chars, push_str, utf16_len};

verus! {

/// A move the editor is about to make: where a path is now, and where it goes.
///
/// A directory is one entry, not one per file beneath it, so every path is
/// tested against it as a prefix as well as for equality.
#[derive(Clone, Debug)]
pub struct Move {
    pub from: String,
    pub to: String,
}

/// Whether the components of `prefix` begin those of `path`.
pub open spec fn is_prefix(prefix: Seq<Seq<char>>, path: Seq<Seq<char>>) -> bool {
    prefix.len() <= path.len() && path.take(prefix.len() as int) == prefix
}

/// Components written back as a path: a leading root as `/`, the rest joined
/// by `/`.
pub open spec fn path_text(comps: Seq<Seq<char>>) -> Seq<char> {
    if comps.len() > 0 && comps[0] == seq!['/'] {
        seq!['/'] + join(comps.drop_first(), seq!['/'])
    } else {
        join(comps, seq!['/'])
    }
}

/// `PathBuf::join`: a relative path goes after a separator, an absolute one
/// replaces the base.
pub open spec fn joined(base: Seq<char>, rest: Seq<Seq<char>>) -> Seq<char> {
    if rest.len() > 0 && rest[0] == seq!['/'] {
        path_text(rest)
    } else if base.len() == 0 || base.last() == '/' {
        base + path_text(rest)
    } else {
        base + seq!['/'] + path_text(rest)
    }
}

/// Where `path` ends up under the first move that covers it, reading each move
/// from `from` to `to` when `forward` and the other way round otherwise.
pub open spec fn moved(moves: Seq<Move>, path: Seq<char>, forward: bool) -> Option<Seq<char>>
    decreases moves.len(),
{
    if moves.len() == 0 {
        None
    } else {
        let m = moves[0];
        let (here, there) = if forward { (m.from@, m.to@) } else { (m.to@, m.from@) };
        if components(path) == components(here) {
            Some(there)
        } else if is_prefix(components(here), components(path)) {
            Some(joined(there, components(path).skip(components(here).len() as int)))
        } else {
            moved(moves.drop_first(), path, forward)
        }
    }
}

/// Whether `prefix`'s components begin `path`'s.
pub fn prefix_matches(prefix: &Vec<Vec<char>>, path: &Vec<Vec<char>>) -> (r: bool)
    ensures
        r == is_prefix(prefix@.map_values(|x: Vec<char>| x@), path@.map_values(|x: Vec<char>| x@)),
{
    let ghost p = prefix@.map_values(|x: Vec<char>| x@);
    let ghost q = path@.map_values(|x: Vec<char>| x@);
    if prefix.len() > path.len() {
        return false;
    }
    let mut i: usize = 0;
    while i < prefix.len()
        invariant
            i <= prefix.len() <= path.len(),
            p == prefix@.map_values(|x: Vec<char>| x@),
            q == path@.map_values(|x: Vec<char>| x@),
            forall|k: int| 0 <= k < i ==> #[trigger] p[k] == q[k],
        decreases prefix.len() - i,
    {
        if !chars_eq(&prefix[i], &path[i]) {
            assert(q.take(p.len() as int)[i as int] == q[i as int]);
            return false;
        }
        i = i + 1;
    }
    assert(q.take(p.len() as int) =~= p);
    true
}

/// Writes components back as a path.
fn write_path(comps: &Vec<Vec<char>>, from: usize, out: &mut String)
    requires
        from <= comps.len(),
    ensures
        final(out)@ == old(out)@ + path_text(comps@.map_values(|x: Vec<char>| x@).skip(from as int)),
{
    let ghost all = comps@.map_values(|x: Vec<char>| x@).skip(from as int);
    let mut i = from;
    let root = from < comps.len() && comps[from].len() == 1 && comps[from][0] == '/';
    proof {
        if all.len() > 0 && all[0] == seq!['/'] {
            assert(all[0] == comps@[from as int]@);
        }
        if root {
            assert(comps@[from as int]@ =~= seq!['/']);
        }
    }
    if root {
        push_char(out, '/');
        i = i + 1;
    }
    let start = i;
    let ghost rest = comps@.map_values(|x: Vec<char>| x@).skip(start as int);
    proof {
        if root {
            assert(all.drop_first() =~= rest);
        } else {
            assert(all =~= rest);
        }
    }
    let ghost head = out@;
    while i < comps.len()
        invariant
            start <= i <= comps.len(),
            rest == comps@.map_values(|x: Vec<char>| x@).skip(start as int),
            out@ == head + join(rest.take(i - start), seq!['/']),
        decreases comps.len() - i,
    {
        if i > start {
            push_char(out, '/');
        }
        push_chars(out, &comps[i]);
        proof {
            let t = rest.take(i - start + 1);
            assert(t.drop_last() =~= rest.take(i - start));
            assert(t.last() == comps@[i as int]@);
            if i == start {
                assert(t.len() == 1);
            }
        }
        i = i + 1;
    }
    assert(rest.take(i - start) =~= rest);
}

/// Where `path` ends up under `moves`, or, read backwards, where it comes from.
fn follow(moves: &Vec<Move>, path: &str, forward: bool) -> (r: Option<String>)
    ensures
        match moved(moves@, path@, forward) {
            Some(p) => r matches Some(s) && s@ == p,
            None => r is None,
        },
{
    let comps = components_of(path);
    let ghost pc = components(path@);
    assert(comps@.map_values(|x: Vec<char>| x@) =~= pc);
    let mut i: usize = 0;
    assert(moves@.skip(0) =~= moves@);
    while i < moves.len()
        invariant
            i <= moves.len(),
            pc == components(path@),
            comps@.map_values(|x: Vec<char>| x@) == pc,
            moved(moves@, path@, forward) == moved(moves@.skip(i as int), path@, forward),
        decreases moves.len() - i,
    {
        let m = &moves[i];
        let (here, there) = if forward { (&m.from, &m.to) } else { (&m.to, &m.from) };
        let hc = components_of(here.as_str());
        let ghost h = components(here@);
        assert(hc@.map_values(|x: Vec<char>| x@) =~= h);
        proof {
            assert(moves@.skip(i as int)[0] == moves@[i as int]);
            assert(moves@.skip(i as int).drop_first() =~= moves@.skip(i + 1));
        }
        if crate::lsp::analysis::same_components(&comps, &hc) {
            return Some(there.clone());
        }
        if prefix_matches(&hc, &comps) {
            let mut out = String::new();
            let absolute = hc.len() < comps.len() && comps[hc.len()].len() == 1 && comps[hc.len()][0] == '/';
            let ghost rest = pc.skip(h.len() as int);
            proof {
                if rest.len() > 0 && rest[0] == seq!['/'] {
                    assert(rest[0] == comps@[hc.len() as int]@);
                }
                if absolute {
                    assert(comps@[hc.len() as int]@ =~= seq!['/']);
                }
            }
            if !absolute {
                let tc = chars_of(there.as_str());
                push_chars(&mut out, &tc);
                if !(tc.len() == 0 || tc[tc.len() - 1] == '/') {
                    push_char(&mut out, '/');
                }
            }
            write_path(&comps, hc.len(), &mut out);
            return Some(out);
        }
        i = i + 1;
    }
    None
}

/// Where `path` ends up once `moves` have been applied.
///
/// `None` when nothing touches it, which is the common case and lets a caller
/// skip the work rather than compare a path with itself. The rest of a path
/// below a moved directory is written back from its components.
pub fn destination(moves: &Vec<Move>, path: &str) -> (r: Option<String>)
    ensures
        match moved(moves@, path@, true) {
            Some(p) => r matches Some(s) && s@ == p,
            None => r is None,
        },
{
    follow(moves, path, true)
}

/// Where the file that will be at `path` once `moves` are made is now.
pub fn source_of(moves: &Vec<Move>, path: &str) -> (r: Option<String>)
    ensures
        match moved(moves@, path@, false) {
            Some(p) => r matches Some(s) && s@ == p,
            None => r is None,
        },
{
    follow(moves, path, false)
}


// ---- rebasing rewrites ---------------------------------------------------------------

/// One specifier rewritten, and the text it replaces. The original is kept
/// because a later move in the same batch can make an earlier rewrite
/// unnecessary, and undoing it means writing that text back.
#[derive(Clone, Debug)]
pub struct Rewrite {
    pub edit: TextEdit,
    pub original: String,
}

/// A rewrite as values: its range, its new text, the text it replaces.
pub open spec fn rewrite_view(r: Rewrite) -> (Range, Seq<char>, Seq<char>) {
    (r.edit.range, r.edit.new_text@, r.original@)
}

pub open spec fn rewrites_view(rs: Seq<Rewrite>) -> Seq<(Range, Seq<char>, Seq<char>)> {
    rs.map_values(|r: Rewrite| rewrite_view(r))
}

/// Whether range `a` starts no later than range `b`.
pub open spec fn starts_by(a: Range, b: Range) -> bool {
    a.start.line < b.start.line || (a.start.line == b.start.line && a.start.character <= b.start.character)
}

/// A site placed in a run sorted by start, after every site that starts no
/// later than it.
pub open spec fn insert_site(s: Seq<(Range, Seq<char>)>, x: (Range, Seq<char>)) -> Seq<(Range, Seq<char>)>
    decreases s.len(),
{
    if s.len() == 0 {
        seq![x]
    } else if starts_by(s.last().0, x.0) {
        s.push(x)
    } else {
        insert_site(s.drop_last(), x).push(s.last())
    }
}

/// Sites sorted by where they start, sites that start together kept in the
/// order they came in.
pub open spec fn sort_sites(s: Seq<(Range, Seq<char>)>) -> Seq<(Range, Seq<char>)>
    decreases s.len(),
{
    if s.len() == 0 {
        s
    } else {
        insert_site(sort_sites(s.drop_last()), s.last())
    }
}

/// Sites with each run of the same range kept once, at its first.
pub open spec fn dedup_sites(s: Seq<(Range, Seq<char>)>) -> Seq<(Range, Seq<char>)>
    decreases s.len(),
{
    if s.len() <= 1 {
        s
    } else if s.last().0 == s[s.len() - 2].0 {
        dedup_sites(s.drop_last())
    } else {
        dedup_sites(s.drop_last()).push(s.last())
    }
}

/// The text a plan puts at a range: the first rewrite of that range, or the
/// original text when the plan leaves it alone.
pub open spec fn text_at(plan: Seq<(Range, Seq<char>, Seq<char>)>, range: Range, original: Seq<char>) -> Seq<char>
    decreases plan.len(),
{
    if plan.len() == 0 {
        original
    } else if plan[0].0 == range {
        plan[0].1
    } else {
        text_at(plan.drop_first(), range, original)
    }
}

/// How far the held rewrites before a range on its line have moved its start,
/// in UTF-16 units: what each wrote less what it replaced.
pub open spec fn shift_of(held: Seq<(Range, Seq<char>, Seq<char>)>, range: Range) -> int
    decreases held.len(),
{
    if held.len() == 0 {
        0
    } else {
        let h = held.last();
        shift_of(held.drop_last(), range) + if h.0.start.line == range.start.line && h.0.end.character
            <= range.start.character {
            utf16_len(h.1) - (h.0.end.character - h.0.start.character)
        } else {
            0
        }
    }
}

/// The edit a site needs, if any: where the editor's text holds what the held
/// rewrites wrote, replaced by what the wanted ones write. Columns are 32-bit
/// and wrap as the protocol's numbers do.
pub open spec fn rebased(
    held: Seq<(Range, Seq<char>, Seq<char>)>,
    wanted: Seq<(Range, Seq<char>, Seq<char>)>,
    site: (Range, Seq<char>),
) -> Option<(Range, Seq<char>)> {
    let now = text_at(held, site.0, site.1);
    let next = text_at(wanted, site.0, site.1);
    if now == next {
        None
    } else {
        let start = (site.0.start.character + shift_of(held, site.0)) as u32;
        let end = (start + utf16_len(now)) as u32;
        Some(
            (
                Range {
                    start: Position { line: site.0.start.line, character: start },
                    end: Position { line: site.0.start.line, character: end },
                },
                next,
            ),
        )
    }
}

pub open spec fn rebase_sites(
    held: Seq<(Range, Seq<char>, Seq<char>)>,
    wanted: Seq<(Range, Seq<char>, Seq<char>)>,
    sites: Seq<(Range, Seq<char>)>,
) -> Seq<(Range, Seq<char>)>
    decreases sites.len(),
{
    if sites.len() == 0 {
        Seq::empty()
    } else {
        let done = rebase_sites(held, wanted, sites.drop_last());
        match rebased(held, wanted, sites.last()) {
            Some(e) => done.push(e),
            None => done,
        }
    }
}

/// Where each rewrite applies and what it replaced.
pub open spec fn sites_of(plan: Seq<(Range, Seq<char>, Seq<char>)>) -> Seq<(Range, Seq<char>)> {
    plan.map_values(|r: (Range, Seq<char>, Seq<char>)| (r.0, r.2))
}

/// The edits that take one file from the rewrites the editor holds to the
/// ones wanted: every site either plan touches, in order, once each, where
/// the text held differs from the text wanted.
pub open spec fn rebase_of(
    held: Seq<(Range, Seq<char>, Seq<char>)>,
    wanted: Seq<(Range, Seq<char>, Seq<char>)>,
) -> Seq<(Range, Seq<char>)> {
    rebase_sites(held, wanted, dedup_sites(sort_sites(sites_of(held) + sites_of(wanted))))
}

pub open spec fn edits_view(es: Seq<TextEdit>) -> Seq<(Range, Seq<char>)> {
    es.map_values(|e: TextEdit| (e.range, e.new_text@))
}

fn utf16_count(text: &String) -> (n: usize)
    ensures
        n == utf16_len(text@),
        n <= isize::MAX,
{
    let cs = chars_of(text.as_str());
    let _ = crate::text::str_len(text.as_str());
    proof {
        crate::lsp::convert::lemma_utf16_le_bytes(text@);
    }
    let mut n: usize = 0;
    let mut i: usize = 0;
    proof {
        assert(cs@.take(0) =~= Seq::<char>::empty());
    }
    while i < cs.len()
        invariant
            i <= cs.len(),
            cs@ == text@,
            n == utf16_len(cs@.take(i as int)),
            utf16_len(cs@) <= isize::MAX,
        decreases cs.len() - i,
    {
        proof {
            assert(cs@.take(i + 1).drop_last() =~= cs@.take(i as int));
            lemma_utf16_prefix(cs@, i + 1);
        }
        n = n + len_utf16(cs[i]);
        i = i + 1;
    }
    proof {
        assert(cs@.take(i as int) =~= cs@);
    }
    n
}

proof fn lemma_utf16_prefix(cs: Seq<char>, i: int)
    requires
        0 <= i <= cs.len(),
    ensures
        utf16_len(cs.take(i)) <= utf16_len(cs),
    decreases cs.len() - i,
{
    if i < cs.len() {
        lemma_utf16_prefix(cs, i + 1);
        assert(cs.take(i + 1).drop_last() =~= cs.take(i));
    } else {
        assert(cs.take(i) =~= cs);
    }
}

fn text_at_exec(plan: &Vec<Rewrite>, range: Range, original: &String) -> (t: String)
    ensures
        t@ == text_at(rewrites_view(plan@), range, original@),
{
    let ghost all = rewrites_view(plan@);
    let mut i: usize = 0;
    proof {
        assert(all.skip(0) =~= all);
    }
    while i < plan.len()
        invariant
            i <= plan.len(),
            all == rewrites_view(plan@),
            text_at(all, range, original@) == text_at(all.skip(i as int), range, original@),
        decreases plan.len() - i,
    {
        proof {
            assert(all.skip(i as int)[0] == rewrite_view(plan@[i as int]));
            assert(all.skip(i as int).drop_first() =~= all.skip(i + 1));
        }
        if plan[i].edit.range == range {
            return plan[i].edit.new_text.clone();
        }
        i = i + 1;
    }
    original.clone()
}

fn shift_exec(held: &Vec<Rewrite>, range: Range) -> (shift: i128)
    requires
        forall|i: int| 0 <= i < held@.len() ==> held@[i].edit.range.start.character <= held@[i].edit.range.end.character,
    ensures
        shift == shift_of(rewrites_view(held@), range),
        -(held@.len() as int) * 0x7FFF_FFFF_FFFF_FFFF <= shift <= (held@.len() as int) * 0x7FFF_FFFF_FFFF_FFFF,
{
    let ghost all = rewrites_view(held@);
    let mut shift: i128 = 0;
    let mut i: usize = 0;
    proof {
        assert(all.take(0) =~= Seq::<(Range, Seq<char>, Seq<char>)>::empty());
    }
    while i < held.len()
        invariant
            i <= held.len(),
            all == rewrites_view(held@),
            forall|j: int| 0 <= j < held@.len() ==> held@[j].edit.range.start.character <= held@[j].edit.range.end.character,
            shift == shift_of(all.take(i as int), range),
            -(i as int) * 0x7FFF_FFFF_FFFF_FFFF <= shift <= (i as int) * 0x7FFF_FFFF_FFFF_FFFF,
        decreases held.len() - i,
    {
        let h = &held[i];
        proof {
            assert(all.take(i + 1).drop_last() =~= all.take(i as int));
            assert(all.take(i + 1).last() == rewrite_view(held@[i as int]));
        }
        if h.edit.range.start.line == range.start.line && h.edit.range.end.character <= range.start.character {
            let w = utf16_count(&h.edit.new_text);
            let replaced = h.edit.range.end.character - h.edit.range.start.character;
            shift = shift + (w as i128 - replaced as i128);
        }
        i = i + 1;
    }
    proof {
        assert(all.take(i as int) =~= all);
    }
    shift
}

/// The edits that take one file from the rewrites the editor already holds
/// to the ones wanted. Both plans address the text as it was before any of
/// them; the editor's text has the held rewrites applied, so each range is
/// shifted by the held rewrites before it on its line.
pub fn rebase_file(held: &Vec<Rewrite>, wanted: &Vec<Rewrite>) -> (edits: Vec<TextEdit>)
    requires
        forall|i: int| 0 <= i < held@.len() ==> held@[i].edit.range.start.character <= held@[i].edit.range.end.character,
    ensures
        edits_view(edits@) == rebase_of(rewrites_view(held@), rewrites_view(wanted@)),
{
    let ghost hv = rewrites_view(held@);
    let ghost wv = rewrites_view(wanted@);
    let ghost input = sites_of(hv) + sites_of(wv);
    // The sites of both plans, held first, each placed after the ones that
    // start no later.
    let mut sorted: Vec<(Range, String)> = Vec::new();
    let mut k: usize = 0;
    proof {
        assert(input.take(0) =~= Seq::<(Range, Seq<char>)>::empty());
    }
    while k < held.len()
        invariant
            k <= held.len(),
            hv == rewrites_view(held@),
            wv == rewrites_view(wanted@),
            input == sites_of(hv) + sites_of(wv),
            sorted@.map_values(|p: (Range, String)| (p.0, p.1@)) == sort_sites(input.take(k as int)),
        decreases held.len() - k,
    {
        let site: (Range, String) = (held[k].edit.range, held[k].original.clone());
        proof {
            assert(input[k as int] == (site.0, site.1@));
            assert(input.take(k + 1).drop_last() =~= input.take(k as int));
        }
        place(&mut sorted, site);
        k = k + 1;
    }
    let mut n: usize = 0;
    while n < wanted.len()
        invariant
            k == held.len(),
            n <= wanted.len(),
            hv == rewrites_view(held@),
            wv == rewrites_view(wanted@),
            input == sites_of(hv) + sites_of(wv),
            sorted@.map_values(|p: (Range, String)| (p.0, p.1@)) == sort_sites(input.take(k + n)),
        decreases wanted.len() - n,
    {
        let site: (Range, String) = (wanted[n].edit.range, wanted[n].original.clone());
        proof {
            assert(input[k + n] == (site.0, site.1@));
            assert(input.take(k + n + 1).drop_last() =~= input.take(k + n));
        }
        place(&mut sorted, site);
        n = n + 1;
    }
    proof {
        assert(input.take(k + n) =~= input);
    }
    let ghost sv = sorted@.map_values(|q: (Range, String)| (q.0, q.1@));
    let mut edits: Vec<TextEdit> = Vec::new();
    let mut m: usize = 0;
    proof {
        assert(sv.take(0) =~= Seq::<(Range, Seq<char>)>::empty());
    }
    while m < sorted.len()
        invariant
            m <= sorted.len(),
            sv == sorted@.map_values(|q: (Range, String)| (q.0, q.1@)),
            hv == rewrites_view(held@),
            wv == rewrites_view(wanted@),
            forall|i: int| 0 <= i < held@.len() ==> held@[i].edit.range.start.character <= held@[i].edit.range.end.character,
            edits_view(edits@) == rebase_sites(hv, wv, dedup_sites(sv.take(m as int))),
        decreases sorted.len() - m,
    {
        let ghost prefix = sv.take(m as int);
        proof {
            assert(sv.take(m + 1).drop_last() =~= prefix);
            assert(sv.take(m + 1).last() == sv[m as int]);
        }
        if m > 0 && sorted[m].0 == sorted[m - 1].0 {
            proof {
                assert(sv.take(m + 1)[m - 1] == sv[m - 1]);
            }
            m = m + 1;
            continue;
        }
        proof {
            if m > 0 {
                assert(sv.take(m + 1)[m - 1] == sv[m - 1]);
                assert(dedup_sites(sv.take(m + 1)) == dedup_sites(prefix).push(sv[m as int]));
            } else {
                assert(sv.take(1) =~= seq![sv[0]]);
                assert(prefix =~= Seq::<(Range, Seq<char>)>::empty());
                assert(dedup_sites(sv.take(1)) == dedup_sites(prefix).push(sv[m as int]));
            }
            let d = dedup_sites(prefix);
            assert(d.push(sv[m as int]).drop_last() =~= d);
            assert(d.push(sv[m as int]).last() == sv[m as int]);
        }
        let range = sorted[m].0;
        let now = text_at_exec(held, range, &sorted[m].1);
        let next = text_at_exec(wanted, range, &sorted[m].1);
        let same = chars_eq(&chars_of(now.as_str()), &chars_of(next.as_str()));
        if !same {
            let shift = shift_exec(held, range);
            let w = utf16_count(&now);
            let held_len = held.len();
            proof {
                let n = held_len as int;
                assert(n * 0x7FFF_FFFF_FFFF_FFFF <= 0xFFFF_FFFF_FFFF_FFFF * 0x7FFF_FFFF_FFFF_FFFF) by (nonlinear_arith)
                    requires
                        0 <= n <= 0xFFFF_FFFF_FFFF_FFFF,
                ;
            }
            let start: u32 = #[verifier::truncate] ((range.start.character as i128 + shift) as u32);
            let end: u32 = #[verifier::truncate] ((start as i128 + w as i128) as u32);
            let ghost before = edits_view(edits@);
            edits.push(TextEdit {
                range: Range {
                    start: Position { line: range.start.line, character: start },
                    end: Position { line: range.start.line, character: end },
                },
                new_text: next,
            });
            proof {
                assert(edits_view(edits@) =~= before.push(edits_view(edits@).last()));
            }
        }
        m = m + 1;
    }
    proof {
        assert(sv.take(m as int) =~= sv);
    }
    edits
}

fn starts_by_exec(a: Range, b: Range) -> (r: bool)
    ensures
        r == starts_by(a, b),
{
    a.start.line < b.start.line || (a.start.line == b.start.line && a.start.character <= b.start.character)
}


/// Places a site after every site that starts no later than it.
fn place(sorted: &mut Vec<(Range, String)>, site: (Range, String))
    ensures
        final(sorted)@.map_values(|q: (Range, String)| (q.0, q.1@)) == insert_site(
            old(sorted)@.map_values(|q: (Range, String)| (q.0, q.1@)),
            (site.0, site.1@),
        ),
{
    let ghost before = sorted@.map_values(|q: (Range, String)| (q.0, q.1@));
    let ghost x = (site.0, site.1@);
    let mut p = sorted.len();
    proof {
        assert(before.take(p as int) =~= before);
        assert(before.skip(p as int) =~= Seq::<(Range, Seq<char>)>::empty());
        assert(insert_site(before, x) + before.skip(p as int) =~= insert_site(before, x));
    }
    while p > 0 && !starts_by_exec(sorted[p - 1].0, site.0)
        invariant
            p <= sorted.len(),
            before == sorted@.map_values(|q: (Range, String)| (q.0, q.1@)),
            x == (site.0, site.1@),
            insert_site(before, x) == insert_site(before.take(p as int), x) + before.skip(p as int),
        decreases p,
    {
        proof {
            let t = before.take(p as int);
            assert(before[p - 1].0 == sorted@[p - 1].0);
            assert(t.drop_last() =~= before.take(p - 1));
            assert(t.last() == before[p - 1]);
            assert(!starts_by(t.last().0, x.0));
            assert(insert_site(t, x) == insert_site(t.drop_last(), x).push(t.last()));
            assert(before.skip(p - 1) =~= seq![before[p - 1]] + before.skip(p as int));
            assert(insert_site(t, x) + before.skip(p as int) =~= insert_site(before.take(p - 1), x) + before.skip(p - 1));
        }
        p = p - 1;
    }
    proof {
        let t = before.take(p as int);
        if p == 0 {
            assert(t =~= Seq::<(Range, Seq<char>)>::empty());
        } else {
            assert(t.last() == before[p - 1]);
            assert(before[p - 1].0 == sorted@[p - 1].0);
        }
        assert(insert_site(t, x) =~= t.push(x));
    }
    sorted.insert(p, site);
    proof {
        assert(sorted@.map_values(|q: (Range, String)| (q.0, q.1@)) =~= before.take(p as int).push(x) + before.skip(p as int));
    }
}

proof fn lemma_segments_then(a: Seq<char>, x: Seq<char>)
    requires
        !x.contains('/'),
    ensures
        segments(a + seq!['/'] + x) == segments(a).push(x),
    decreases x.len(),
{
    if x.len() == 0 {
        assert(a + seq!['/'] + x =~= a.push('/'));
        assert((a.push('/')).drop_last() =~= a);
        assert((a.push('/')).last() == '/');
        assert(segments(a.push('/')) == segments(a).push(Seq::<char>::empty()));
        assert(x =~= Seq::<char>::empty());
    } else {
        let c = x.last();
        assert(x[x.len() - 1] == c);
        assert((a + seq!['/'] + x).drop_last() =~= a + seq!['/'] + x.drop_last());
        assert(!x.drop_last().contains('/')) by {
            if x.drop_last().contains('/') {
                let k = choose|k: int| 0 <= k < x.drop_last().len() && x.drop_last()[k] == '/';
                assert(x[k] == '/');
            }
        }
        lemma_segments_then(a, x.drop_last());
        assert(c != '/') by {
            if c == '/' {
                assert(x.contains('/'));
            }
        }
        assert(x.drop_last().push(c) =~= x);
        let y = a + seq!['/'] + x;
        assert(y.last() == c);
        let rest = segments(a).push(x.drop_last());
        assert(segments(y) == rest.update(rest.len() - 1, rest.last().push(c)));
        assert(rest.update(rest.len() - 1, rest.last().push(c)) =~= segments(a).push(x));
    }
}

/// Moving a directory carries the files in it: under a move from `from` to
/// `to` (a non-empty path not ending in `/`), the file `x` (a single name,
/// neither empty nor `.`) inside `from` ends up as `x` inside `to`; and read
/// backwards, the file `x` inside a move's target came from `x` inside its
/// source.
pub proof fn lemma_move_carries_contents(from: Seq<char>, to: Seq<char>, x: Seq<char>, rest: Seq<Move>)
    requires
        from.len() > 0,
        to.len() > 0,
        to.last() != '/',
        x.len() > 0,
        x != seq!['.'],
        !x.contains('/'),
    ensures
        forall|m: Move| m.from@ == from && m.to@ == to ==> moved(seq![m] + rest, from + seq!['/'] + x, true) == Some(
            to + seq!['/'] + x,
        ),
        forall|m: Move| m.to@ == from && m.from@ == to ==> moved(seq![m] + rest, from + seq!['/'] + x, false) == Some(
            to + seq!['/'] + x,
        ),
{
    let path = from + seq!['/'] + x;
    lemma_segments_then(from, x);
    assert(segments(from).push(x).drop_last() =~= segments(from));
    assert(segments(from).push(x).last() == x);
    assert(named(segments(from).push(x)) == named(segments(from)).push(x));
    assert(components(path) == components(from).push(x)) by {
        if from[0] == '/' {
            assert(path[0] == '/');
            assert(seq![seq!['/']] + named(segments(from)).push(x) =~= (seq![seq!['/']] + named(segments(from))).push(x));
        }
    }
    assert(components(path).len() != components(from).len());
    assert(is_prefix(components(from), components(path))) by {
        assert(components(path).take(components(from).len() as int) =~= components(from));
    }
    assert(components(path).skip(components(from).len() as int) =~= seq![x]);
    assert(x != seq!['/']) by {
        if x == seq!['/'] {
            assert(x[0] == '/');
            assert(x.contains('/'));
        }
    }
    assert(path_text(seq![x]) == x) by {
        assert(seq![x][0] == x);
        assert(join(seq![x], seq!['/']) == x);
    }
    assert forall|m: Move| m.from@ == from && m.to@ == to implies moved(seq![m] + rest, path, true) == Some(
        to + seq!['/'] + x,
    ) by {
        assert((seq![m] + rest)[0] == m);
    }
    assert forall|m: Move| m.to@ == from && m.from@ == to implies moved(seq![m] + rest, path, false) == Some(
        to + seq!['/'] + x,
    ) by {
        assert((seq![m] + rest)[0] == m);
    }
}

/// A moved path itself goes to the move's target.
pub proof fn lemma_move_takes_path(p: Seq<char>, rest: Seq<Move>)
    ensures
        forall|m: Move| m.from@ == p ==> moved(seq![m] + rest, p, true) == Some(m.to@),
        forall|m: Move| m.to@ == p ==> moved(seq![m] + rest, p, false) == Some(m.from@),
{
    assert forall|m: Move| m.from@ == p implies moved(seq![m] + rest, p, true) == Some(m.to@) by {
        assert((seq![m] + rest)[0] == m);
    }
    assert forall|m: Move| m.to@ == p implies moved(seq![m] + rest, p, false) == Some(m.from@) by {
        assert((seq![m] + rest)[0] == m);
    }
}

} // verus!
