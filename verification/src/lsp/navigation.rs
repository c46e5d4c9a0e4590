//! Finding symbols by name, and the lenses that lead from source to output.
use vstd::prelude::*;

use crate::fmt::{join_sep, texts};
use crate::text::{chars_of, decimal, lowercase_of, push_decimal, push_str, to_lowercase};

verus! {

/// Every character of `q` appears in `n`, in order.
pub open spec fn in_order(q: Seq<char>, n: Seq<char>) -> bool
    decreases n.len(),
{
    if q.len() == 0 {
        true
    } else if n.len() == 0 {
        false
    } else if q[0] == n[0] {
        in_order(q.drop_first(), n.drop_first())
    } else {
        in_order(q, n.drop_first())
    }
}

/// Text as `char::to_lowercase` leaves it, character by character.
pub open spec fn lowered(cs: Seq<char>) -> Seq<char> {
    crate::text::flat_map(cs, |c: char| lowercase_of(c))
}

fn lowercase_chars(text: &str) -> (out: Vec<char>)
    ensures
        out@ == lowered(text@),
{
    let cs = chars_of(text);
    let mut out: Vec<char> = Vec::new();
    let mut i: usize = 0;
    while i < cs.len()
        invariant
            i <= cs.len(),
            out@ == crate::text::flat_map(cs@.take(i as int), |c: char| lowercase_of(c)),
        decreases cs.len() - i,
    {
        let mut lower = to_lowercase(cs[i]);
        out.append(&mut lower);
        assert(cs@.take(i + 1).drop_last() =~= cs@.take(i as int));
        i = i + 1;
    }
    assert(cs@.take(i as int) =~= cs@);
    out
}

/// Whether a workspace symbol search matches a name: every character of the
/// query appears in the name, in order, ignoring case.
pub fn matches_query(query: &str, name: &str) -> (r: bool)
    ensures
        r == in_order(lowered(query@), lowered(name@)),
{
    let q = lowercase_chars(query);
    let n = lowercase_chars(name);
    let mut i: usize = 0;
    let mut j: usize = 0;
    assert(q@.skip(0) =~= q@ && n@.skip(0) =~= n@);
    while i < q.len() && j < n.len()
        invariant
            i <= q.len(),
            j <= n.len(),
            in_order(q@, n@) == in_order(q@.skip(i as int), n@.skip(j as int)),
        decreases n.len() - j,
    {
        proof {
            assert(q@.skip(i as int)[0] == q@[i as int]);
            assert(n@.skip(j as int)[0] == n@[j as int]);
            assert(q@.skip(i as int).drop_first() =~= q@.skip(i + 1));
            assert(n@.skip(j as int).drop_first() =~= n@.skip(j + 1));
        }
        if q[i] == n[j] {
            i = i + 1;
        }
        j = j + 1;
    }
    proof {
        if i == q.len() {
            assert(q@.skip(i as int).len() == 0);
        } else {
            assert(n@.skip(j as int).len() == 0);
        }
    }
    i == q.len()
}


/// Lowering text a piece at a time lowers the whole.
pub proof fn lemma_lowered_concat(a: Seq<char>, b: Seq<char>)
    ensures
        lowered(a + b) == lowered(a) + lowered(b),
    decreases b.len(),
{
    if b.len() == 0 {
        assert(a + b =~= a);
        assert(lowered(a) + lowered(b) =~= lowered(a));
    } else {
        assert((a + b).drop_last() =~= a + b.drop_last());
        assert((a + b).last() == b.last());
        lemma_lowered_concat(a, b.drop_last());
        assert(lowered(a + b) =~= lowered(a) + lowered(b));
    }
}

proof fn lemma_in_order_front(q: Seq<char>, c: char, x: Seq<char>)
    requires
        in_order(q, x),
    ensures
        in_order(q, seq![c] + x),
    decreases q.len() + x.len() + 1,
{
    let y = seq![c] + x;
    assert(y.drop_first() =~= x);
    if q.len() > 0 && q[0] == c {
        lemma_in_order_drop(q, x);
    }
}

proof fn lemma_in_order_drop(q: Seq<char>, x: Seq<char>)
    requires
        in_order(q, x),
        q.len() > 0,
    ensures
        in_order(q.drop_first(), x),
    decreases q.len() + x.len(),
{
    if x.len() > 0 {
        if q[0] == x[0] {
            lemma_in_order_front(q.drop_first(), x[0], x.drop_first());
        } else {
            lemma_in_order_drop(q, x.drop_first());
            lemma_in_order_front(q.drop_first(), x[0], x.drop_first());
        }
        assert(seq![x[0]] + x.drop_first() =~= x);
    }
}

proof fn lemma_in_order_back(q: Seq<char>, x: Seq<char>, s: Seq<char>)
    requires
        in_order(q, x),
    ensures
        in_order(q, x + s),
    decreases x.len(),
{
    if q.len() > 0 && x.len() > 0 {
        assert((x + s)[0] == x[0]);
        assert((x + s).drop_first() =~= x.drop_first() + s);
        if q[0] == x[0] {
            lemma_in_order_back(q.drop_first(), x.drop_first(), s);
        } else {
            lemma_in_order_back(q, x.drop_first(), s);
        }
    }
}

proof fn lemma_in_order_before(q: Seq<char>, p: Seq<char>, x: Seq<char>)
    requires
        in_order(q, x),
    ensures
        in_order(q, p + x),
    decreases p.len(),
{
    if p.len() > 0 {
        lemma_in_order_before(q, p.drop_first(), x);
        lemma_in_order_front(q, p[0], p.drop_first() + x);
        assert(seq![p[0]] + (p.drop_first() + x) =~= p + x);
    }
}

/// What a workspace symbol search matches: the empty query matches every
/// name, and a name the query matches is still matched with text written
/// before and after it.
pub proof fn lemma_query_matches(query: Seq<char>, name: Seq<char>, before: Seq<char>, after: Seq<char>)
    ensures
        in_order(lowered(Seq::empty()), lowered(name)),
        in_order(lowered(query), lowered(name)) ==> in_order(lowered(query), lowered(before + name + after)),
{
    assert(lowered(Seq::<char>::empty()) =~= Seq::<char>::empty());
    if in_order(lowered(query), lowered(name)) {
        lemma_in_order_before(lowered(query), lowered(before), lowered(name));
        lemma_in_order_back(lowered(query), lowered(before) + lowered(name), lowered(after));
        lemma_lowered_concat(before, name);
        lemma_lowered_concat(before + name, after);
    }
}

// ---- source-to-output lenses -----------------------------------------------------------

/// The starts among the first `k` mappings, each once, in the order they
/// first appear.
pub open spec fn lens_starts(starts: Seq<usize>, k: nat) -> Seq<usize>
    decreases k,
{
    if k == 0 || k > starts.len() {
        Seq::empty()
    } else {
        let before = lens_starts(starts, (k - 1) as nat);
        if before.contains(starts[k - 1]) {
            before
        } else {
            before.push(starts[k - 1])
        }
    }
}

/// No place gets two lenses.
pub proof fn lemma_one_lens_per_place(starts: Seq<usize>, k: nat)
    ensures
        lens_starts(starts, k).no_duplicates(),
    decreases k,
{
    if k > 0 && k <= starts.len() {
        lemma_one_lens_per_place(starts, (k - 1) as nat);
        let before = lens_starts(starts, (k - 1) as nat);
        if !before.contains(starts[k - 1]) {
            let all = before.push(starts[k - 1]);
            assert forall|i: int, j: int| 0 <= i < all.len() && 0 <= j < all.len() && i != j implies all[i] != all[j] by {
                if i < before.len() && j < before.len() {
                    assert(all[i] == before[i] && all[j] == before[j]);
                } else if i < before.len() {
                    assert(all[i] == before[i]);
                } else if j < before.len() {
                    assert(all[j] == before[j]);
                }
            }
        }
    }
}

/// The labels of the first `k` mappings that start at `at`, in order.
pub open spec fn labels_at(starts: Seq<usize>, labels: Seq<Seq<char>>, at: usize, k: nat) -> Seq<Seq<char>>
    decreases k,
{
    if k == 0 || k > starts.len() {
        Seq::empty()
    } else {
        let before = labels_at(starts, labels, at, (k - 1) as nat);
        if starts[k - 1] == at {
            before.push(labels[k - 1])
        } else {
            before
        }
    }
}

/// A lens's title: up to two labels joined by ` · `, or the first two and
/// how many more.
pub open spec fn lens_title(labels: Seq<Seq<char>>) -> Seq<char> {
    if labels.len() <= 2 {
        join_sep(labels, " · "@)
    } else {
        labels[0] + " · "@ + labels[1] + " · +"@ + decimal((labels.len() - 2) as nat)
    }
}

fn title_of(labels: &Vec<String>) -> (title: String)
    ensures
        title@ == lens_title(texts(labels@)),
{
    let mut title = String::new();
    if labels.len() <= 2 {
        crate::fmt::push_joined(&mut title, labels, " · ");
    } else {
        push_str(&mut title, labels[0].as_str());
        push_str(&mut title, " · ");
        push_str(&mut title, labels[1].as_str());
        push_str(&mut title, " · +");
        push_decimal(&mut title, labels.len() - 2);
        assert(title@ =~= lens_title(texts(labels@)));
    }
    title
}

/// One lens for each place in a file that something was written from, with
/// the mappings given as where each starts in the file and what it is called:
/// the places in the order they first appear, each titled with the labels of
/// all the mappings that start there.
pub fn lens_titles(starts: &Vec<usize>, labels: &Vec<String>) -> (lenses: Vec<(usize, String)>)
    requires
        starts@.len() == labels@.len(),
    ensures
        lenses@.len() == lens_starts(starts@, starts@.len()).len(),
        forall|i: int| 0 <= i < lenses@.len() ==> {
            let at = lens_starts(starts@, starts@.len())[i];
            &&& (#[trigger] lenses@[i]).0 == at
            &&& lenses@[i].1@ == lens_title(labels_at(starts@, texts(labels@), at, starts@.len()))
        },
{
    let mut seen: Vec<usize> = Vec::new();
    let mut lenses: Vec<(usize, String)> = Vec::new();
    let mut k: usize = 0;
    while k < starts.len()
        invariant
            k <= starts@.len(),
            starts@.len() == labels@.len(),
            seen@ == lens_starts(starts@, k as nat),
            lenses@.len() == seen@.len(),
            forall|i: int| 0 <= i < lenses@.len() ==> {
                &&& (#[trigger] lenses@[i]).0 == seen@[i]
                &&& lenses@[i].1@ == lens_title(labels_at(starts@, texts(labels@), seen@[i], starts@.len()))
            },
        decreases starts@.len() - k,
    {
        let at = starts[k];
        let mut known = false;
        let mut j: usize = 0;
        while j < seen.len()
            invariant
                j <= seen@.len(),
                known == (exists|m: int| 0 <= m < j && seen@[m] == at),
            decreases seen@.len() - j,
        {
            if seen[j] == at {
                known = true;
            }
            j = j + 1;
        }
        proof {
            if known {
                let m = choose|m: int| 0 <= m < j && seen@[m] == at;
                assert(seen@.contains(at));
            } else {
                assert(!seen@.contains(at));
            }
        }
        if !known {
            let mut here: Vec<String> = Vec::new();
            let mut m: usize = 0;
            while m < starts.len()
                invariant
                    m <= starts@.len(),
                    starts@.len() == labels@.len(),
                    texts(here@) == labels_at(starts@, texts(labels@), at, m as nat),
                decreases starts@.len() - m,
            {
                if starts[m] == at {
                    let ghost before = texts(here@);
                    here.push(crate::text::string_of(&chars_of(labels[m].as_str())));
                    assert(texts(here@) =~= before.push(labels@[m as int]@));
                }
                m = m + 1;
            }
            let title = title_of(&here);
            seen.push(at);
            lenses.push((at, title));
        }
        k = k + 1;
    }
    lenses
}

} // verus!
