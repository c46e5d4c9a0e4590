//! The order `String`'s `Ord` puts text in: character by character, by code
//! point, a prefix before anything longer.
use vstd::prelude::*;

use crate::text::{chars_of, str_eq, string_of};

verus! {

/// Whether `a` sorts strictly before `b`.
pub open spec fn lex_lt(a: Seq<char>, b: Seq<char>) -> bool
    decreases a.len(),
{
    if a.len() == 0 {
        b.len() > 0
    } else if b.len() == 0 {
        false
    } else if a[0] != b[0] {
        a[0] < b[0]
    } else {
        lex_lt(a.drop_first(), b.drop_first())
    }
}

/// Strictly increasing, so sorted and free of duplicates.
pub open spec fn strictly_sorted(s: Seq<Seq<char>>) -> bool {
    forall|i: int, j: int| 0 <= i < j < s.len() ==> lex_lt(#[trigger] s[i], #[trigger] s[j])
}

/// Any two different runs of text are ordered one way or the other, and never
/// both.
pub proof fn lemma_lex_trichotomy(a: Seq<char>, b: Seq<char>)
    ensures
        a != b ==> (lex_lt(a, b) || lex_lt(b, a)),
        !(lex_lt(a, b) && lex_lt(b, a)),
        !lex_lt(a, a),
    decreases a.len(),
{
    if a.len() > 0 && b.len() > 0 {
        lemma_lex_trichotomy(a.drop_first(), b.drop_first());
        if a[0] == b[0] && a != b {
            assert(a =~= seq![a[0]] + a.drop_first());
            assert(b =~= seq![b[0]] + b.drop_first());
        }
    } else if a.len() == 0 && b.len() == 0 {
        assert(a =~= b);
    }
    if a.len() > 0 {
        lemma_lex_trichotomy(a.drop_first(), a.drop_first());
    }
}

/// Compares two runs of text in `String`'s order.
pub fn lex_less(a: &[char], b: &[char]) -> (r: bool)
    ensures
        r == lex_lt(a@, b@),
{
    let mut i: usize = 0;
    assert(a@.skip(0) =~= a@ && b@.skip(0) =~= b@);
    while i < a.len() && i < b.len() && a[i] == b[i]
        invariant
            i <= a.len(),
            i <= b.len(),
            lex_lt(a@, b@) == lex_lt(a@.skip(i as int), b@.skip(i as int)),
        decreases a.len() - i,
    {
        proof {
            let x = a@.skip(i as int);
            let y = b@.skip(i as int);
            assert(x.drop_first() =~= a@.skip(i + 1));
            assert(y.drop_first() =~= b@.skip(i + 1));
        }
        i = i + 1;
    }
    let ghost x = a@.skip(i as int);
    let ghost y = b@.skip(i as int);
    if i == a.len() {
        i < b.len()
    } else if i == b.len() {
        false
    } else {
        assert(x[0] == a@[i as int] && y[0] == b@[i as int]);
        a[i] < b[i]
    }
}


/// The order is transitive.
pub proof fn lemma_lex_transitive(a: Seq<char>, b: Seq<char>, c: Seq<char>)
    requires
        lex_lt(a, b),
        lex_lt(b, c),
    ensures
        lex_lt(a, c),
    decreases a.len(),
{
    if a.len() > 0 && b.len() > 0 && c.len() > 0 {
        if a[0] == b[0] && b[0] == c[0] {
            lemma_lex_transitive(a.drop_first(), b.drop_first(), c.drop_first());
        }
    }
}


/// The text of each string.
pub open spec fn string_texts(ws: Seq<String>) -> Seq<Seq<char>> {
    ws.map_values(|w: String| w@)
}

/// `s` holds the same texts as `t`.
pub open spec fn same_texts(s: Seq<Seq<char>>, t: Seq<Seq<char>>) -> bool {
    forall|x: Seq<char>| s.contains(x) <==> t.contains(x)
}

/// Two texts in order that hold the same texts are the same: there is one way
/// to put a set of texts in order.
pub proof fn lemma_sorted_texts_unique(a: Seq<Seq<char>>, b: Seq<Seq<char>>)
    requires
        strictly_sorted(a),
        strictly_sorted(b),
        same_texts(a, b),
    ensures
        a == b,
{
    lemma_sorted_texts_from(a, b, 0);
}

proof fn lemma_sorted_texts_from(a: Seq<Seq<char>>, b: Seq<Seq<char>>, i: int)
    requires
        strictly_sorted(a),
        strictly_sorted(b),
        same_texts(a, b),
        0 <= i,
        i <= a.len(),
        i <= b.len(),
        forall|k: int| 0 <= k < i ==> a[k] == b[k],
    ensures
        a == b,
    decreases a.len() + b.len() - 2 * i,
{
    if i == a.len() && i == b.len() {
        assert(a =~= b);
    } else if i == a.len() {
        assert(a.contains(b[i]));
        let j = choose|j: int| 0 <= j < a.len() && a[j] == b[i];
        assert(b[j] == b[i]);
        lemma_lex_trichotomy(b[j], b[i]);
    } else if i == b.len() {
        assert(b.contains(a[i]));
        let j = choose|j: int| 0 <= j < b.len() && b[j] == a[i];
        assert(a[j] == a[i]);
        lemma_lex_trichotomy(a[j], a[i]);
    } else if a[i] == b[i] {
        lemma_sorted_texts_from(a, b, i + 1);
    } else {
        let x = a[i];
        let y = b[i];
        lemma_lex_trichotomy(x, y);
        if lex_lt(x, y) {
            assert(b.contains(x));
            let j = choose|j: int| 0 <= j < b.len() && b[j] == x;
            if j < i {
                assert(a[j] == x);
                lemma_lex_trichotomy(a[j], a[i]);
            } else if j == i {
            } else {
                lemma_lex_trichotomy(y, x);
            }
        } else {
            assert(a.contains(y));
            let j = choose|j: int| 0 <= j < a.len() && a[j] == y;
            if j < i {
                assert(b[j] == y);
                lemma_lex_trichotomy(b[j], b[i]);
            } else if j == i {
            } else {
                lemma_lex_trichotomy(x, y);
            }
        }
    }
}

/// The texts of `words`, each once, in `String`'s order.
pub fn sorted_distinct(words: &Vec<String>) -> (out: Vec<String>)
    ensures
        strictly_sorted(string_texts(out@)),
        same_texts(string_texts(out@), string_texts(words@)),
{
    let ghost ws = string_texts(words@);
    let mut names: Vec<String> = Vec::new();
    let mut k: usize = 0;
    while k < words.len()
        invariant
            k <= words@.len(),
            ws == string_texts(words@),
            strictly_sorted(string_texts(names@)),
            forall|x: Seq<char>| string_texts(names@).contains(x) <==> ws.take(k as int).contains(x),
        decreases words@.len() - k,
    {
        let name = chars_of(words[k].as_str());
        let ghost ns = string_texts(names@);
        proof {
            assert(ws.take(k + 1) =~= ws.take(k as int).push(ws[k as int]));
        }
        let mut p: usize = 0;
        while p < names.len() && lex_less(&chars_of(names[p].as_str()), &name)
            invariant
                p <= names@.len(),
                ns == string_texts(names@),
                forall|q: int| 0 <= q < p ==> lex_lt(#[trigger] ns[q], name@),
            decreases names@.len() - p,
        {
            p = p + 1;
        }
        let present = p < names.len() && str_eq(names[p].as_str(), words[k].as_str());
        proof {
            if p < names@.len() {
                lemma_lex_trichotomy(ns[p as int], name@);
            }
        }
        if !present {
            names.insert(p, string_of(&name));
            proof {
                let grown = string_texts(names@);
                assert(grown =~= ns.insert(p as int, name@));
                assert forall|i: int, j: int| 0 <= i < j < grown.len() implies lex_lt(#[trigger] grown[i], #[trigger] grown[j]) by {
                    if j < p {
                        assert(grown[i] == ns[i] && grown[j] == ns[j]);
                    } else if j == p {
                        assert(grown[i] == ns[i]);
                    } else if i == p {
                        assert(grown[j] == ns[j - 1]);
                        if j - 1 > p {
                            lemma_lex_transitive(name@, ns[p as int], ns[j - 1]);
                        }
                    } else if i < p {
                        assert(grown[i] == ns[i] && grown[j] == ns[j - 1]);
                    } else {
                        assert(grown[i] == ns[i - 1] && grown[j] == ns[j - 1]);
                    }
                }
                assert forall|x: Seq<char>| grown.contains(x) <==> ws.take(k + 1).contains(x) by {
                    if grown.contains(x) {
                        let j = choose|j: int| 0 <= j < grown.len() && grown[j] == x;
                        if j < p {
                            assert(ns[j] == x);
                            assert(ns.contains(x));
                        } else if j > p {
                            assert(ns[j - 1] == x);
                            assert(ns.contains(x));
                        } else {
                            assert(ws.take(k + 1)[k as int] == x);
                        }
                        assert(ws.take(k + 1).contains(x));
                    }
                    if ws.take(k + 1).contains(x) {
                        let t1 = ws.take(k + 1);
                        let i = choose|i: int| 0 <= i < t1.len() && t1[i] == x;
                        if i < k {
                            assert(ws.take(k as int)[i] == x);
                            assert(ns.contains(x));
                            let j = choose|j: int| 0 <= j < ns.len() && ns[j] == x;
                            if j < p {
                                assert(grown[j] == x);
                            } else {
                                assert(grown[j + 1] == x);
                            }
                        } else {
                            assert(grown[p as int] == x);
                        }
                    }
                }
            }
        } else {
            proof {
                assert(ns[p as int] == name@);
                assert forall|x: Seq<char>| ns.contains(x) <==> ws.take(k + 1).contains(x) by {
                    if ws.take(k + 1).contains(x) {
                        let t1 = ws.take(k + 1);
                        let i = choose|i: int| 0 <= i < t1.len() && t1[i] == x;
                        if i == k {
                            assert(ns[p as int] == x);
                        } else {
                            assert(ws.take(k as int)[i] == x);
                        }
                    }
                    if ns.contains(x) {
                        assert(ws.take(k as int).contains(x));
                        let t0 = ws.take(k as int);
                        let i = choose|i: int| 0 <= i < t0.len() && t0[i] == x;
                        assert(ws.take(k + 1)[i] == x);
                    }
                }
            }
        }
        k = k + 1;
    }
    proof {
        assert(ws.take(k as int) =~= ws);
    }
    names
}

/// In `String`'s order, duplicates allowed: nothing after a text it sorts
/// before.
pub open spec fn in_lex_order(s: Seq<Seq<char>>) -> bool {
    forall|i: int, j: int| 0 <= i < j < s.len() ==> !lex_lt(#[trigger] s[j], #[trigger] s[i])
}

/// The texts of `s` put in `String`'s order: the one run in order that holds
/// the same texts as often as `s` does.
pub open spec fn sorted_texts(s: Seq<Seq<char>>) -> Seq<Seq<char>> {
    choose|t: Seq<Seq<char>>| t.to_multiset() == s.to_multiset() && in_lex_order(t)
}

/// Two runs in order that hold the same texts as often are the same: there is
/// one way to sort.
pub proof fn lemma_sorted_permutation_unique(a: Seq<Seq<char>>, b: Seq<Seq<char>>)
    requires
        in_lex_order(a),
        in_lex_order(b),
        a.to_multiset() == b.to_multiset(),
    ensures
        a == b,
    decreases a.len(),
{
    broadcast use vstd::seq_lib::group_to_multiset_ensures;
    if a.len() == 0 {
        assert(b.to_multiset().len() == 0);
        assert(a =~= b);
    } else {
        assert(a.to_multiset().count(a[0]) > 0) by {
            assert(a.contains(a[0]));
        }
        assert(b.contains(a[0]));
        let j = choose|j: int| 0 <= j < b.len() && b[j] == a[0];
        assert(b.to_multiset().count(b[0]) > 0) by {
            assert(b.contains(b[0]));
        }
        assert(a.contains(b[0]));
        let i = choose|i: int| 0 <= i < a.len() && a[i] == b[0];
        if j > 0 {
            assert(!lex_lt(b[j], b[0]));
        }
        if i > 0 {
            assert(!lex_lt(a[i], a[0]));
        }
        lemma_lex_trichotomy(a[0], b[0]);
        assert(a[0] == b[0]);
        vstd::seq_lib::to_multiset_remove(a, 0);
        vstd::seq_lib::to_multiset_remove(b, 0);
        assert(a.remove(0) =~= a.drop_first());
        assert(b.remove(0) =~= b.drop_first());
        assert(in_lex_order(a.drop_first())) by {
            assert forall|i: int, j: int| 0 <= i < j < a.drop_first().len() implies !lex_lt(
                #[trigger] a.drop_first()[j],
                #[trigger] a.drop_first()[i],
            ) by {
                assert(a.drop_first()[j] == a[j + 1] && a.drop_first()[i] == a[i + 1]);
            }
        }
        assert(in_lex_order(b.drop_first())) by {
            assert forall|i: int, j: int| 0 <= i < j < b.drop_first().len() implies !lex_lt(
                #[trigger] b.drop_first()[j],
                #[trigger] b.drop_first()[i],
            ) by {
                assert(b.drop_first()[j] == b[j + 1] && b.drop_first()[i] == b[i + 1]);
            }
        }
        lemma_sorted_permutation_unique(a.drop_first(), b.drop_first());
        assert(a =~= seq![a[0]] + a.drop_first());
        assert(b =~= seq![b[0]] + b.drop_first());
    }
}

/// Sorts texts into `String`'s order, duplicates kept, as `sort` on a
/// `Vec<String>` does.
pub fn sort_texts(words: Vec<String>) -> (out: Vec<String>)
    ensures
        string_texts(out@).to_multiset() == string_texts(words@).to_multiset(),
        in_lex_order(string_texts(out@)),
        string_texts(out@) == sorted_texts(string_texts(words@)),
{
    broadcast use vstd::seq_lib::group_to_multiset_ensures;
    let ghost ws = string_texts(words@);
    let mut out: Vec<String> = Vec::new();
    let mut k: usize = 0;
    proof {
        assert(ws.take(0) =~= Seq::<Seq<char>>::empty());
        assert(string_texts(out@) =~= Seq::<Seq<char>>::empty());
    }
    while k < words.len()
        invariant
            k <= words@.len(),
            ws == string_texts(words@),
            string_texts(out@).to_multiset() == ws.take(k as int).to_multiset(),
            in_lex_order(string_texts(out@)),
        decreases words@.len() - k,
    {
        let w = chars_of(words[k].as_str());
        let ghost x = w@;
        let ghost before = string_texts(out@);
        let mut p: usize = 0;
        while p < out.len() && !lex_less(&w, &chars_of(out[p].as_str()))
            invariant
                p <= out@.len(),
                before == string_texts(out@),
                w@ == x,
                forall|q: int| 0 <= q < p ==> !lex_lt(x, #[trigger] before[q]),
            decreases out@.len() - p,
        {
            p = p + 1;
        }
        proof {
            if p < before.len() {
                assert(lex_lt(x, before[p as int]));
            }
        }
        out.insert(p, string_of(&w));
        proof {
            let grown = string_texts(out@);
            assert(grown =~= before.insert(p as int, x));
            assert(ws.take(k + 1) =~= ws.take(k as int).push(x));
            assert(ws.take(k as int).push(x) =~= ws.take(k as int).insert(k as int, x));
            vstd::seq_lib::to_multiset_insert(before, p as int, x);
            vstd::seq_lib::to_multiset_insert(ws.take(k as int), k as int, x);
            assert forall|i: int, j: int| 0 <= i < j < grown.len() implies !lex_lt(#[trigger] grown[j], #[trigger] grown[i]) by {
                if j < p {
                    assert(grown[i] == before[i] && grown[j] == before[j]);
                } else if j == p {
                    assert(grown[i] == before[i]);
                } else if i == p {
                    assert(grown[j] == before[j - 1]);
                    if lex_lt(before[j - 1], x) {
                        lemma_lex_transitive(before[j - 1], x, before[p as int]);
                        if j - 1 > p {
                            assert(!lex_lt(before[j - 1], before[p as int]));
                        } else {
                            lemma_lex_trichotomy(before[p as int], before[p as int]);
                        }
                    }
                } else if i < p {
                    assert(grown[i] == before[i] && grown[j] == before[j - 1]);
                } else {
                    assert(grown[i] == before[i - 1] && grown[j] == before[j - 1]);
                }
            }
        }
        k = k + 1;
    }
    proof {
        assert(ws.take(k as int) =~= ws);
        let t = string_texts(out@);
        assert(t.to_multiset() == ws.to_multiset() && in_lex_order(t));
        lemma_sorted_permutation_unique(t, sorted_texts(ws));
    }
    out
}

} // verus!
