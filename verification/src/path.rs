//! Paths as text: the components `std::path::Path` reads out of a Unix path,
//! and what the library builds from them.
use vstd::prelude::*;

use crate::text::{chars_eq, chars_of, push_char, push_chars, string_of};

verus! {

/// The `/`-separated segments of a path, empty ones included.
pub open spec fn segments(cs: Seq<char>) -> Seq<Seq<char>>
    decreases cs.len(),
{
    if cs.len() == 0 {
        seq![Seq::<char>::empty()]
    } else {
        let rest = segments(cs.drop_last());
        if cs.last() == '/' {
            rest.push(Seq::<char>::empty())
        } else {
            rest.update(rest.len() - 1, rest.last().push(cs.last()))
        }
    }
}

/// The segments that name something: neither empty nor `.`.
pub open spec fn named(segs: Seq<Seq<char>>) -> Seq<Seq<char>>
    decreases segs.len(),
{
    if segs.len() == 0 {
        Seq::empty()
    } else if segs.last().len() == 0 || segs.last() == seq!['.'] {
        named(segs.drop_last())
    } else {
        named(segs.drop_last()).push(segs.last())
    }
}

/// The components of a path, as `Path::components` reads them with the
/// current-directory ones left out: a leading `/` is a component of its own,
/// repeated separators and `.` segments vanish, and `..` stays.
pub open spec fn components(cs: Seq<char>) -> Seq<Seq<char>> {
    if cs.len() > 0 && cs[0] == '/' {
        seq![seq!['/']] + named(segments(cs))
    } else {
        named(segments(cs))
    }
}

/// `Path::file_name`: the last component, unless the path ends in `..` or is
/// the root or empty.
pub open spec fn file_name_of(cs: Seq<char>) -> Option<Seq<char>> {
    let c = components(cs);
    if c.len() == 0 || c.last() == seq!['/'] || c.last() == seq!['.', '.'] {
        None
    } else {
        Some(c.last())
    }
}

/// The pieces joined with `sep` between them.
pub open spec fn join(parts: Seq<Seq<char>>, sep: Seq<char>) -> Seq<char>
    decreases parts.len(),
{
    if parts.len() == 0 {
        Seq::empty()
    } else if parts.len() == 1 {
        parts[0]
    } else {
        join(parts.drop_last(), sep) + sep + parts.last()
    }
}

/// How many leading components two paths share.
pub open spec fn shared_prefix(a: Seq<Seq<char>>, b: Seq<Seq<char>>) -> nat
    decreases a.len(),
{
    if a.len() == 0 || b.len() == 0 || a[0] != b[0] {
        0
    } else {
        1 + shared_prefix(a.drop_first(), b.drop_first())
    }
}

/// The parts of a relative link: `..` for each component of `from` past what
/// the two share, then the rest of the target's.
pub open spec fn link_parts(from: Seq<Seq<char>>, to: Seq<Seq<char>>) -> Seq<Seq<char>> {
    let shared = shared_prefix(from, to);
    Seq::new((from.len() - shared) as nat, |i: int| seq!['.', '.']) + to.skip(shared as int)
}

/// A relative link from a directory to a target; a target in the directory
/// itself is its bare file name.
pub open spec fn relative_link_of(from: Seq<char>, target: Seq<char>) -> Seq<char> {
    let parts = link_parts(components(from), components(target));
    if parts.len() == 0 {
        match file_name_of(target) {
            Some(name) => name,
            None => Seq::empty(),
        }
    } else {
        join(parts, seq!['/'])
    }
}

/// A link written as a path: prefixed with `./` unless it already climbs.
pub open spec fn dotted(link: Seq<char>) -> Seq<char> {
    if link.len() >= 3 && link.take(3) == seq!['.', '.', '/'] {
        link
    } else {
        seq!['.', '/'] + link
    }
}

// ---- lemmas -----------------------------------------------------------------------

proof fn lemma_segments_nonempty(cs: Seq<char>)
    ensures
        segments(cs).len() >= 1,
    decreases cs.len(),
{
    if cs.len() > 0 {
        lemma_segments_nonempty(cs.drop_last());
    }
}

proof fn lemma_shared_prefix(a: Seq<Seq<char>>, b: Seq<Seq<char>>, k: int)
    requires
        0 <= k <= a.len(),
        k <= b.len(),
        forall|i: int| 0 <= i < k ==> a[i] == b[i],
        k == a.len() || k == b.len() || a[k] != b[k],
    ensures
        shared_prefix(a, b) == k,
    decreases k,
{
    if k > 0 {
        assert forall|i: int| 0 <= i < k - 1 implies a.drop_first()[i] == b.drop_first()[i] by {
            assert(a[i + 1] == b[i + 1]);
        }
        if k < a.len() && k < b.len() {
            assert(a.drop_first()[k - 1] == a[k]);
            assert(b.drop_first()[k - 1] == b[k]);
        }
        assert(a[0] == b[0]);
        lemma_shared_prefix(a.drop_first(), b.drop_first(), k - 1);
    }
}

/// Where following `parts` from the directory `base` leads, as a lexical
/// reading does: `..` leaves the last component, anything else enters it.
pub open spec fn resolve(base: Seq<Seq<char>>, parts: Seq<Seq<char>>) -> Seq<Seq<char>>
    decreases parts.len(),
{
    if parts.len() == 0 {
        base
    } else if parts[0] == seq!['.', '.'] {
        resolve(base.drop_last(), parts.drop_first())
    } else {
        resolve(base.push(parts[0]), parts.drop_first())
    }
}

proof fn lemma_resolve_down(base: Seq<Seq<char>>, rest: Seq<Seq<char>>)
    requires
        forall|i: int| 0 <= i < rest.len() ==> rest[i] != seq!['.', '.'],
    ensures
        resolve(base, rest) == base + rest,
    decreases rest.len(),
{
    if rest.len() > 0 {
        lemma_resolve_down(base.push(rest[0]), rest.drop_first());
        assert(base.push(rest[0]) + rest.drop_first() =~= base + rest);
    } else {
        assert(base + rest =~= base);
    }
}

proof fn lemma_resolve_up(base: Seq<Seq<char>>, n: nat, rest: Seq<Seq<char>>)
    requires
        n <= base.len(),
    ensures
        resolve(base, Seq::new(n, |i: int| seq!['.', '.']) + rest) == resolve(base.take(base.len() - n), rest),
    decreases n,
{
    let ups = Seq::new(n, |i: int| seq!['.', '.']);
    if n == 0 {
        assert(ups + rest =~= rest);
        assert(base.take(base.len() as int) =~= base);
    } else {
        let fewer = Seq::new((n - 1) as nat, |i: int| seq!['.', '.']);
        assert((ups + rest)[0] == seq!['.', '.']);
        assert((ups + rest).drop_first() =~= fewer + rest);
        lemma_resolve_up(base.drop_last(), (n - 1) as nat, rest);
        assert(base.drop_last().take(base.drop_last().len() - (n - 1)) =~= base.take(base.len() - n));
    }
}

/// A relative link leads back to its target: following the link's parts
/// from the directory reaches the target's components, when none of those
/// past what the two share is `..`; and the link climbs (starts with `..`)
/// exactly when the target is not inside the directory.
pub proof fn lemma_link_resolves(from: Seq<Seq<char>>, to: Seq<Seq<char>>)
    requires
        forall|i: int| shared_prefix(from, to) <= i < to.len() ==> #[trigger] to[i] != seq!['.', '.'],
    ensures
        resolve(from, link_parts(from, to)) == to,
        (link_parts(from, to).len() > 0 && link_parts(from, to)[0] == seq!['.', '.']) <==> shared_prefix(from, to)
            < from.len(),
{
    let k = shared_prefix(from, to);
    lemma_shared_prefix_facts(from, to);
    let n = (from.len() - k) as nat;
    let rest = to.skip(k as int);
    lemma_resolve_up(from, n, rest);
    assert(from.take(from.len() - n) =~= to.take(k as int)) by {
        assert forall|i: int| 0 <= i < k implies from[i] == to[i] by {
            lemma_shared_prefix_at(from, to, i);
        }
    }
    assert forall|i: int| 0 <= i < rest.len() implies rest[i] != seq!['.', '.'] by {
        assert(rest[i] == to[k + i]);
    }
    lemma_resolve_down(to.take(k as int), rest);
    assert(to.take(k as int) + rest =~= to);
    let parts = link_parts(from, to);
    if k < from.len() {
        assert(parts[0] == seq!['.', '.']);
    } else if parts.len() > 0 {
        assert(parts[0] == rest[0]);
    }
}

/// Two lists share no more leading components than either has.
pub proof fn lemma_shared_prefix_facts(a: Seq<Seq<char>>, b: Seq<Seq<char>>)
    ensures
        shared_prefix(a, b) <= a.len(),
        shared_prefix(a, b) <= b.len(),
    decreases a.len(),
{
    if !(a.len() == 0 || b.len() == 0 || a[0] != b[0]) {
        lemma_shared_prefix_facts(a.drop_first(), b.drop_first());
    }
}

/// The components two lists share are the same.
pub proof fn lemma_shared_prefix_at(a: Seq<Seq<char>>, b: Seq<Seq<char>>, i: int)
    requires
        0 <= i < shared_prefix(a, b),
    ensures
        a[i] == b[i],
    decreases a.len(),
{
    lemma_shared_prefix_facts(a, b);
    if i > 0 {
        lemma_shared_prefix_at(a.drop_first(), b.drop_first(), i - 1);
        assert(a.drop_first()[i - 1] == a[i]);
        assert(b.drop_first()[i - 1] == b[i]);
    }
}

/// The shared prefix is the first place two component lists differ.
pub proof fn lemma_shared_prefix_public(a: Seq<Seq<char>>, b: Seq<Seq<char>>, k: int)
    requires
        0 <= k <= a.len(),
        k <= b.len(),
        forall|i: int| 0 <= i < k ==> a[i] == b[i],
        k == a.len() || k == b.len() || a[k] != b[k],
    ensures
        shared_prefix(a, b) == k,
{
    lemma_shared_prefix(a, b, k);
}

// ---- computing ----------------------------------------------------------------------

/// The components of a path, each a run of characters.
pub fn components_of(path: &str) -> (out: Vec<Vec<char>>)
    ensures
        out@.len() == components(path@).len(),
        forall|i: int| 0 <= i < out@.len() ==> #[trigger] out@[i]@ == components(path@)[i],
{
    let cs = chars_of(path);
    let mut out: Vec<Vec<char>> = Vec::new();
    let ghost root = cs@.len() > 0 && cs@[0] == '/';
    if cs.len() > 0 && cs[0] == '/' {
        out.push(vec!['/']);
        assert(out@[0]@ =~= seq!['/']);
    }
    let ghost lead = out@.len();
    let mut current: Vec<char> = Vec::new();
    let mut i: usize = 0;
    proof {
        assert(cs@.take(0) =~= Seq::<char>::empty());
        assert(segments(cs@.take(0)) =~= seq![Seq::<char>::empty()]);
        assert(named(seq![Seq::<char>::empty()].drop_last()) =~= Seq::<Seq<char>>::empty());
    }
    while i < cs.len()
        invariant
            i <= cs.len(),
            cs@ == path@,
            lead == if root { 1int } else { 0int },
            root ==> out@.len() >= 1 && out@[0]@ == seq!['/'],
            ({
                let segs = segments(cs@.take(i as int));
                let done = named(segs.drop_last());
                &&& segs.last() == current@
                &&& out@.len() == lead + done.len()
                &&& forall|k: int| 0 <= k < done.len() ==> #[trigger] out@[lead + k]@ == done[k]
            }),
        decreases cs.len() - i,
    {
        let c = cs[i];
        proof {
            assert(cs@.take(i + 1).drop_last() =~= cs@.take(i as int));
            lemma_segments_nonempty(cs@.take(i as int));
        }
        if c == '/' {
            let ghost segs = segments(cs@.take(i as int));
            let is_dot = current.len() == 1 && current[0] == '.';
            if current.len() > 0 && !is_dot {
                out.push(current);
            }
            proof {
                let segs2 = segments(cs@.take(i + 1));
                assert(segs2 == segs.push(Seq::<char>::empty()));
                assert(segs2.drop_last() =~= segs);
                assert(segs.drop_last() =~= segs.drop_last());
                assert(segs =~= segs.drop_last().push(segs.last()));
                if is_dot {
                    assert(current@ =~= seq!['.']);
                }
                if current@.len() == 1 && current@[0] == '.' {
                    assert(current@ =~= seq!['.']);
                }
            }
            current = Vec::new();
        } else {
            current.push(c);
            proof {
                let segs = segments(cs@.take(i as int));
                let segs2 = segments(cs@.take(i + 1));
                assert(segs2.drop_last() =~= segs.drop_last());
            }
        }
        i = i + 1;
    }
    proof {
        assert(cs@.take(i as int) =~= cs@);
        lemma_segments_nonempty(cs@);
    }
    let ghost segs = segments(cs@);
    let is_dot = current.len() == 1 && current[0] == '.';
    if current.len() > 0 && !is_dot {
        out.push(current);
    }
    proof {
        assert(segs =~= segs.drop_last().push(segs.last()));
        if current@.len() == 1 && current@[0] == '.' {
            assert(current@ =~= seq!['.']);
        }
        let done = named(segs.drop_last());
        let nm = named(segs);
        assert(out@.len() == lead + nm.len());
        assert forall|k: int| 0 <= k < nm.len() implies #[trigger] out@[lead + k]@ == nm[k] by {
            if k < done.len() {
                assert(nm[k] == done[k]);
            }
        }
        let all = components(path@);
        if root {
            assert(all == seq![seq!['/']] + nm);
            assert forall|k: int| 0 <= k < out@.len() implies #[trigger] out@[k]@ == all[k] by {
                if k > 0 {
                    assert(all[k] == nm[k - 1]);
                    assert(out@[lead + (k - 1)]@ == nm[k - 1]);
                }
            }
        } else {
            assert(all == nm);
            assert forall|k: int| 0 <= k < out@.len() implies #[trigger] out@[k]@ == all[k] by {
                assert(out@[lead + k]@ == nm[k]);
            }
        }
    }
    out
}

/// The pieces joined with `/` between them.
pub fn join_with_slash(parts: &Vec<Vec<char>>) -> (out: String)
    ensures
        out@ == join(parts@.map_values(|p: Vec<char>| p@), seq!['/']),
{
    let ghost views = parts@.map_values(|p: Vec<char>| p@);
    let mut out = String::new();
    let mut i: usize = 0;
    while i < parts.len()
        invariant
            i <= parts.len(),
            views == parts@.map_values(|p: Vec<char>| p@),
            out@ == join(views.take(i as int), seq!['/']),
        decreases parts.len() - i,
    {
        if i > 0 {
            push_char(&mut out, '/');
        }
        push_chars(&mut out, &parts[i]);
        proof {
            let t = views.take(i + 1);
            assert(t.drop_last() =~= views.take(i as int));
            assert(t.last() == parts@[i as int]@);
            if i == 0 {
                assert(t.len() == 1);
            }
        }
        i = i + 1;
    }
    assert(views.take(i as int) =~= views);
    out
}

/// Builds a relative link from one directory to a target path.
///
/// Components the two share are dropped, each remaining component of the
/// directory becomes `..`, and what is left of the target follows. A sibling
/// file is written as its bare name.
pub fn relative_link(from_directory: &str, target: &str) -> (link: String)
    ensures
        link@ == relative_link_of(from_directory@, target@),
{
    let from = components_of(from_directory);
    let to = components_of(target);
    let ghost f = components(from_directory@);
    let ghost t = components(target@);
    let mut shared: usize = 0;
    while shared < from.len() && shared < to.len() && chars_eq(&from[shared], &to[shared])
        invariant
            shared <= from.len(),
            shared <= to.len(),
            from@.len() == f.len(),
            to@.len() == t.len(),
            forall|i: int| 0 <= i < from@.len() ==> #[trigger] from@[i]@ == f[i],
            forall|i: int| 0 <= i < to@.len() ==> #[trigger] to@[i]@ == t[i],
            forall|i: int| 0 <= i < shared ==> f[i] == t[i],
        decreases from.len() - shared,
    {
        shared = shared + 1;
    }
    proof {
        lemma_shared_prefix(f, t, shared as int);
    }
    let mut parts: Vec<Vec<char>> = Vec::new();
    let mut i = shared;
    while i < from.len()
        invariant
            shared <= i <= from.len(),
            parts@.len() == i - shared,
            forall|k: int| 0 <= k < parts@.len() ==> #[trigger] parts@[k]@ == seq!['.', '.'],
        decreases from.len() - i,
    {
        parts.push(vec!['.', '.']);
        assert(parts@[parts@.len() - 1]@ =~= seq!['.', '.']);
        i = i + 1;
    }
    let ups = parts.len();
    let mut j = shared;
    while j < to.len()
        invariant
            shared <= j <= to.len(),
            to@.len() == t.len(),
            forall|i: int| 0 <= i < to@.len() ==> #[trigger] to@[i]@ == t[i],
            parts@.len() == ups + (j - shared),
            forall|k: int| 0 <= k < ups ==> #[trigger] parts@[k]@ == seq!['.', '.'],
            forall|k: int| ups <= k < parts@.len() ==> #[trigger] parts@[k]@ == t[shared + (k - ups)],
        decreases to.len() - j,
    {
        parts.push(to[j].clone());
        j = j + 1;
    }
    let ghost expected = link_parts(f, t);
    assert(parts@.map_values(|p: Vec<char>| p@) =~= expected);
    if parts.len() == 0 {
        let cs = chars_of(target);
        match file_name(target) {
            Some(name) => string_of(&name),
            None => String::new(),
        }
    } else {
        join_with_slash(&parts)
    }
}

/// `Path::file_name`, as characters.
pub fn file_name(path: &str) -> (name: Option<Vec<char>>)
    ensures
        match file_name_of(path@) {
            Some(n) => name matches Some(v) && v@ == n,
            None => name is None,
        },
{
    let comps = components_of(path);
    if comps.len() == 0 {
        return None;
    }
    let last = &comps[comps.len() - 1];
    let root = last.len() == 1 && last[0] == '/';
    let up = last.len() == 2 && last[0] == '.' && last[1] == '.';
    proof {
        if last@.len() == 1 && last@[0] == '/' {
            assert(last@ =~= seq!['/']);
        }
        if last@.len() == 2 && last@[0] == '.' && last@[1] == '.' {
            assert(last@ =~= seq!['.', '.']);
        }
    }
    if root || up {
        None
    } else {
        Some(last.clone())
    }
}

/// A relative path from a directory to a file, always starting with `./` or
/// `../` so it reads as a path. The two paths are compared as they are given:
/// a caller that wants symbolic links followed resolves them first.
pub fn relative_file(from_directory: &str, target: &str) -> (path: String)
    ensures
        path@ == dotted(relative_link_of(from_directory@, target@)),
{
    let link = relative_link(from_directory, target);
    let cs = chars_of(link.as_str());
    if cs.len() >= 3 && cs[0] == '.' && cs[1] == '.' && cs[2] == '/' {
        assert(cs@.take(3) =~= seq!['.', '.', '/']);
        link
    } else {
        let mut out = String::new();
        push_char(&mut out, '.');
        push_char(&mut out, '/');
        push_chars(&mut out, &cs);
        proof {
            if cs@.len() >= 3 && cs@.take(3) == seq!['.', '.', '/'] {
                assert(cs@.take(3)[0] == cs@[0]);
                assert(cs@.take(3)[1] == cs@[1]);
                assert(cs@.take(3)[2] == cs@[2]);
            }
        }
        out
    }
}

} // verus!
