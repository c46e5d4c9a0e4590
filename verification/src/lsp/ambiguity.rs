//! Names that mean more than one thing in a file: the bindings of each name
//! in the order they are written, the one the compiler picks, and what each
//! reference and each hidden import is told.
use vstd::prelude::*;

use crate::fmt::{join_sep, texts};
use crate::lsp::convert::Span;
use crate::lsp::features::{qualified_alias, qualified_alias_of, split_words, words};
use crate::order::{same_texts, sorted_distinct, string_texts, strictly_sorted};
use crate::text::{chars_of, push_char, push_str, str_eq, string_of};

verus! {

// ---- a stable order by start -----------------------------------------------------------

/// Whether item `i` comes before item `j` when ordered by `keys`, equal keys
/// keeping the order the items came in.
pub open spec fn key_first(keys: Seq<int>, i: int, j: int) -> bool {
    keys[i] < keys[j] || (keys[i] == keys[j] && i < j)
}

/// `order` holds each item's index once, in the order the items come by
/// their keys.
pub open spec fn stable_order(keys: Seq<int>, order: Seq<usize>) -> bool {
    &&& order.len() == keys.len()
    &&& forall|k: int| 0 <= k < order.len() ==> order[k] < keys.len()
    &&& forall|x: usize| x < keys.len() ==> order.contains(x)
    &&& forall|a: int, b: int| 0 <= a < b < order.len() ==> key_first(keys, order[a] as int, order[b] as int)
}

/// Items have one stable order by their keys.
pub proof fn lemma_stable_order_unique(keys: Seq<int>, a: Seq<usize>, b: Seq<usize>)
    requires
        stable_order(keys, a),
        stable_order(keys, b),
    ensures
        a == b,
{
    lemma_stable_from(keys, a, b, 0);
}

proof fn lemma_stable_from(keys: Seq<int>, a: Seq<usize>, b: Seq<usize>, i: int)
    requires
        stable_order(keys, a),
        stable_order(keys, b),
        0 <= i <= a.len(),
        forall|k: int| 0 <= k < i ==> a[k] == b[k],
    ensures
        a == b,
    decreases a.len() - i,
{
    if i == a.len() {
        assert(a =~= b);
    } else if a[i] == b[i] {
        lemma_stable_from(keys, a, b, i + 1);
    } else {
        let x = a[i];
        let y = b[i];
        if key_first(keys, x as int, y as int) {
            assert(b.contains(x));
            let j = choose|j: int| 0 <= j < b.len() && b[j] == x;
            if j < i {
                assert(a[j] == x);
                assert(key_first(keys, a[j] as int, a[i] as int));
            }
            assert(key_first(keys, b[i] as int, b[j] as int));
        } else {
            assert(a.contains(y));
            let j = choose|j: int| 0 <= j < a.len() && a[j] == y;
            if j < i {
                assert(b[j] == y);
                assert(key_first(keys, b[j] as int, b[i] as int));
            }
            assert(key_first(keys, a[i] as int, a[j] as int));
        }
    }
}

/// Keys as integers.
pub open spec fn int_keys(keys: Seq<usize>) -> Seq<int> {
    keys.map_values(|k: usize| k as int)
}

/// The items' indices in the order of their keys, equal keys keeping the
/// order the items came in.
pub fn order_by_key(ks: &Vec<usize>) -> (order: Vec<usize>)
    ensures
        stable_order(int_keys(ks@), order@),
{
    let ghost keys = int_keys(ks@);
    let mut order: Vec<usize> = Vec::new();
    let mut k: usize = 0;
    while k < ks.len()
        invariant
            k <= ks@.len(),
            keys == int_keys(ks@),
            order@.len() == k,
            forall|m: int| 0 <= m < order@.len() ==> order@[m] < k,
            forall|x: usize| x < k ==> order@.contains(x),
            forall|a: int, b: int| 0 <= a < b < order@.len() ==> key_first(keys, order@[a] as int, order@[b] as int),
        decreases ks@.len() - k,
    {
        let mut p: usize = 0;
        while p < order.len() && ks[order[p]] <= ks[k]
            invariant
                p <= order@.len(),
                k < ks@.len(),
                keys == int_keys(ks@),
                forall|m: int| 0 <= m < order@.len() ==> order@[m] < k,
                forall|q: int| 0 <= q < p ==> !key_first(keys, k as int, #[trigger] order@[q] as int),
            decreases order@.len() - p,
        {
            p = p + 1;
        }
        proof {
            if p < order@.len() {
                assert(key_first(keys, k as int, order@[p as int] as int));
            }
        }
        let ghost before = order@;
        order.insert(p, k);
        proof {
            assert(order@ == before.insert(p as int, k));
            assert forall|a: int, b: int| 0 <= a < b < order@.len() implies key_first(
                keys,
                order@[a] as int,
                order@[b] as int,
            ) by {
                if b < p {
                    assert(order@[a] == before[a] && order@[b] == before[b]);
                } else if b == p {
                    assert(order@[a] == before[a]);
                    assert(!key_first(keys, k as int, before[a] as int));
                } else if a == p {
                    assert(order@[a] == k);
                    assert(order@[b] == before[b - 1]);
                    assert(key_first(keys, k as int, before[p as int] as int));
                    if b - 1 > p {
                        assert(key_first(keys, before[p as int] as int, before[b - 1] as int));
                    }
                } else if a < p {
                    assert(order@[a] == before[a] && order@[b] == before[b - 1]);
                } else {
                    assert(order@[a] == before[a - 1] && order@[b] == before[b - 1]);
                }
            }
            assert forall|x: usize| x < k + 1 implies order@.contains(x) by {
                if x == k {
                    assert(order@[p as int] == k);
                } else {
                    assert(before.contains(x));
                    let j = choose|j: int| 0 <= j < before.len() && before[j] == x;
                    if j < p {
                        assert(order@[j] == x);
                    } else {
                        assert(order@[j + 1] == x);
                    }
                }
            }
        }
        k = k + 1;
    }
    order
}

// ---- bindings --------------------------------------------------------------------------

/// One name a file binds: where it is written, the path it was imported
/// from (none for a declaration of the file's own), and the symbol it means.
pub struct Binding {
    pub name: String,
    pub span: Span,
    pub from: Option<String>,
    pub symbol: usize,
}

/// The names the bindings bind.
pub open spec fn names_of(bs: Seq<Binding>) -> Seq<Seq<char>> {
    bs.map_values(|b: Binding| b.name@)
}

/// The names a file binds, each once, in `String`'s order.
pub fn bound_names(bs: &Vec<Binding>) -> (names: Vec<String>)
    ensures
        strictly_sorted(string_texts(names@)),
        same_texts(string_texts(names@), names_of(bs@)),
{
    let mut all: Vec<String> = Vec::new();
    let mut k: usize = 0;
    while k < bs.len()
        invariant
            k <= bs@.len(),
            string_texts(all@) == names_of(bs@).take(k as int),
        decreases bs@.len() - k,
    {
        let ghost before = string_texts(all@);
        all.push(string_of(&chars_of(bs[k].name.as_str())));
        proof {
            assert(string_texts(all@) =~= before.push(bs@[k as int].name@));
            assert(names_of(bs@).take(k + 1) =~= names_of(bs@).take(k as int).push(bs@[k as int].name@));
        }
        k = k + 1;
    }
    assert(string_texts(all@) =~= names_of(bs@));
    sorted_distinct(&all)
}

// ---- one name ------------------------------------------------------------------------

/// The indices, among the first `k` bindings, of those that bind `name`.
pub open spec fn named(all: Seq<Binding>, name: Seq<char>, k: nat) -> Seq<usize>
    decreases k,
{
    if k == 0 || k > all.len() {
        Seq::empty()
    } else if all[k - 1].name@ == name {
        named(all, name, (k - 1) as nat).push((k - 1) as usize)
    } else {
        named(all, name, (k - 1) as nat)
    }
}

/// Whether the bindings at `idx` mean different things: importing the same
/// thing twice is a duplicate, not an ambiguity.
pub open spec fn ambiguous(all: Seq<Binding>, idx: Seq<usize>) -> bool {
    exists|a: int, b: int| 0 <= a < idx.len() && 0 <= b < idx.len() && all[idx[a] as int].symbol != all[idx[b] as int].symbol
}

/// How a binding of `name` is described.
pub open spec fn describe_of(name: Seq<char>, b: Binding) -> Seq<char> {
    match b.from {
        Some(path) => seq!['`'] + name + "` imported from `"@ + path@ + seq!['`'],
        None => seq!['`'] + name + "` declared in this file"@,
    }
}

/// The first of the bindings from `i` on that is a declaration.
pub open spec fn first_declared(sb: Seq<Binding>, i: int) -> Option<int>
    decreases sb.len() - i,
{
    if i < 0 || i >= sb.len() {
        None
    } else if sb[i].from is None {
        Some(i)
    } else {
        first_declared(sb, i + 1)
    }
}

/// The last of the first `k` bindings that means what the name resolves to.
pub open spec fn last_resolving(sb: Seq<Binding>, resolved: Option<usize>, k: int) -> Option<int>
    decreases k,
{
    if k <= 0 || k > sb.len() {
        None
    } else if resolved == Some(sb[k - 1].symbol) {
        Some(k - 1)
    } else {
        last_resolving(sb, resolved, k - 1)
    }
}

/// The binding the compiler picks: a declaration, else the last import of
/// what the name resolves to, else the last one written.
pub open spec fn winner_of(sb: Seq<Binding>, resolved: Option<usize>) -> int {
    match first_declared(sb, 0) {
        Some(i) => i,
        None => match last_resolving(sb, resolved, sb.len() as int) {
            Some(i) => i,
            None => sb.len() - 1,
        },
    }
}

/// What each reference to an ambiguous name is told.
pub open spec fn ambiguity_message_of(name: Seq<char>, sb: Seq<Binding>, winner: int) -> Seq<char> {
    seq!['`'] + name + "` is ambiguous: it could be "@ + join_sep(
        sb.map_values(|b: Binding| describe_of(name, b)),
        " or "@,
    ) + "; it resolves to "@ + describe_of(name, sb[winner])
}

/// The imports among the first `k` bindings that the winner hides, each by
/// its place, with what it is told.
pub open spec fn shadowed_of(name: Seq<char>, sb: Seq<Binding>, winner: int, k: nat) -> Seq<(int, Seq<char>)>
    decreases k,
{
    if k == 0 || k > sb.len() {
        Seq::empty()
    } else {
        let before = shadowed_of(name, sb, winner, (k - 1) as nat);
        let b = sb[k - 1];
        if k - 1 == winner || b.from is None {
            before
        } else {
            before.push((k - 1, describe_of(name, b) + " is hidden: `"@ + name + "` in this file means "@ + describe_of(name, sb[winner])))
        }
    }
}

/// The binding the compiler picks is never reported as hidden, and neither
/// is a declaration of the file's own: only other imports are.
pub proof fn lemma_winner_never_hidden(name: Seq<char>, sb: Seq<Binding>, winner: int, k: nat)
    ensures
        forall|i: int| 0 <= i < shadowed_of(name, sb, winner, k).len() ==> {
            let e = #[trigger] shadowed_of(name, sb, winner, k)[i];
            &&& e.0 != winner
            &&& 0 <= e.0 < sb.len()
            &&& sb[e.0].from is Some
        },
    decreases k,
{
    if k > 0 && k <= sb.len() {
        lemma_winner_never_hidden(name, sb, winner, (k - 1) as nat);
        let before = shadowed_of(name, sb, winner, (k - 1) as nat);
        let all = shadowed_of(name, sb, winner, k);
        assert forall|i: int| 0 <= i < all.len() implies {
            let e = #[trigger] all[i];
            &&& e.0 != winner
            &&& 0 <= e.0 < sb.len()
            &&& sb[e.0].from is Some
        } by {
            if i < before.len() {
                assert(all[i] == before[i]);
            }
        }
    }
}

/// An ambiguous name in a file, as the hover and the warnings report it.
pub struct AmbiguityReport {
    /// The name's bindings, by their indices among all, in the order they
    /// are written.
    pub bindings: Vec<usize>,
    /// Which of them the compiler picks, by its place in `bindings`.
    pub winner: usize,
    /// What each reference to the name is told.
    pub message: String,
    /// How each binding is described, in order.
    pub labels: Vec<String>,
    /// Each import the winner hides, by its place in `bindings`, with what it
    /// is told.
    pub shadowed: Vec<(usize, String)>,
}

/// The report on `name`, whose bindings are those at `order`.
pub open spec fn report_matches(r: AmbiguityReport, name: Seq<char>, all: Seq<Binding>, resolved: Option<usize>, order: Seq<usize>) -> bool {
    let sb = order.map_values(|i: usize| all[i as int]);
    let w = winner_of(sb, resolved);
    &&& r.bindings@ == order
    &&& r.winner as int == w
    &&& r.message@ == ambiguity_message_of(name, sb, w)
    &&& texts(r.labels@) == sb.map_values(|b: Binding| describe_of(name, b))
    &&& r.shadowed@.map_values(|p: (usize, String)| (p.0 as int, p.1@)) == shadowed_of(name, sb, w, sb.len())
}

proof fn lemma_named(all: Seq<Binding>, name: Seq<char>, k: nat)
    requires
        all.len() <= usize::MAX,
    ensures
        forall|j: int| 0 <= j < named(all, name, k).len() ==> #[trigger] named(all, name, k)[j] < k && named(all, name, k)[j] < all.len()
            && all[named(all, name, k)[j] as int].name@ == name,
        forall|a: int, b: int| 0 <= a < b < named(all, name, k).len() ==> named(all, name, k)[a] < named(all, name, k)[b],
    decreases k,
{
    if k > 0 && k <= all.len() {
        lemma_named(all, name, (k - 1) as nat);
        let prev = named(all, name, (k - 1) as nat);
        let cur = named(all, name, k);
        if all[k - 1].name@ == name {
            assert(cur == prev.push((k - 1) as usize));
            assert forall|j: int| 0 <= j < cur.len() implies #[trigger] cur[j] < k && cur[j] < all.len()
                && all[cur[j] as int].name@ == name by {
                if j < prev.len() {
                    assert(cur[j] == prev[j]);
                }
            }
            assert forall|a: int, b: int| 0 <= a < b < cur.len() implies cur[a] < cur[b] by {
                assert(cur[a] == prev[a]);
                if b < prev.len() {
                    assert(cur[b] == prev[b]);
                }
            }
        } else {
            assert(cur == prev);
        }
    }
}

fn describe(name: &str, b: &Binding) -> (d: String)
    ensures
        d@ == describe_of(name@, *b),
{
    let mut d = String::new();
    push_char(&mut d, '`');
    push_str(&mut d, name);
    match &b.from {
        Some(path) => {
            push_str(&mut d, "` imported from `");
            push_str(&mut d, path.as_str());
            push_char(&mut d, '`');
        },
        None => push_str(&mut d, "` declared in this file"),
    }
    assert(d@ =~= describe_of(name@, *b));
    d
}


proof fn lemma_first_declared(sb: Seq<Binding>, i: int)
    requires
        0 <= i,
    ensures
        match first_declared(sb, i) {
            Some(j) => i <= j < sb.len(),
            None => true,
        },
    decreases sb.len() - i,
{
    if i < sb.len() && sb[i].from is Some {
        lemma_first_declared(sb, i + 1);
    }
}

proof fn lemma_last_resolving(sb: Seq<Binding>, resolved: Option<usize>, k: int)
    ensures
        match last_resolving(sb, resolved, k) {
            Some(j) => 0 <= j < k,
            None => true,
        },
    decreases k,
{
    if k > 0 && k <= sb.len() && resolved != Some(sb[k - 1].symbol) {
        lemma_last_resolving(sb, resolved, k - 1);
    }
}

fn first_declared_exec(all: &Vec<Binding>, bindings: &Vec<usize>) -> (r: Option<usize>)
    requires
        forall|t: int| 0 <= t < bindings@.len() ==> #[trigger] bindings@[t] < all@.len(),
    ensures
        r == match first_declared(bindings@.map_values(|i: usize| all@[i as int]), 0) {
            Some(j) => Some(j as usize),
            None => None::<usize>,
        },
{
    let ghost sb = bindings@.map_values(|i: usize| all@[i as int]);
    let mut j: usize = 0;
    while j < bindings.len()
        invariant
            j <= bindings@.len(),
            forall|t: int| 0 <= t < bindings@.len() ==> #[trigger] bindings@[t] < all@.len(),
            sb == bindings@.map_values(|i: usize| all@[i as int]),
            first_declared(sb, 0) == first_declared(sb, j as int),
        decreases bindings@.len() - j,
    {
        if all[bindings[j]].from.is_none() {
            return Some(j);
        }
        j = j + 1;
    }
    None
}

fn last_resolving_exec(all: &Vec<Binding>, bindings: &Vec<usize>, resolved: Option<usize>) -> (r: Option<usize>)
    requires
        forall|t: int| 0 <= t < bindings@.len() ==> #[trigger] bindings@[t] < all@.len(),
    ensures
        r == match last_resolving(bindings@.map_values(|i: usize| all@[i as int]), resolved, bindings@.len() as int) {
            Some(j) => Some(j as usize),
            None => None::<usize>,
        },
{
    let ghost sb = bindings@.map_values(|i: usize| all@[i as int]);
    let mut t: usize = bindings.len();
    while t > 0
        invariant
            t <= bindings@.len(),
            forall|q: int| 0 <= q < bindings@.len() ==> #[trigger] bindings@[q] < all@.len(),
            sb == bindings@.map_values(|i: usize| all@[i as int]),
            last_resolving(sb, resolved, bindings@.len() as int) == last_resolving(sb, resolved, t as int),
        decreases t,
    {
        if resolved == Some(all[bindings[t - 1]].symbol) {
            return Some(t - 1);
        }
        t = t - 1;
    }
    None
}

/// Where the bindings at `idx` start.
pub open spec fn starts_at(all: Seq<Binding>, idx: Seq<usize>) -> Seq<usize> {
    idx.map_values(|i: usize| all[i as int].span.start)
}

/// The report on `name` when its bindings mean different things: the
/// bindings in the order they are written (equal starts keeping their
/// order), the one the compiler picks, and what references and hidden
/// imports are told. `resolved` is what the compiler resolves the name to.
pub fn ambiguity(name: &str, all: &Vec<Binding>, resolved: Option<usize>) -> (r: Option<AmbiguityReport>)
    ensures
        ({
            let idx = named(all@, name@, all@.len());
            match r {
                None => !ambiguous(all@, idx),
                Some(rep) => ambiguous(all@, idx) && forall|ord: Seq<usize>|
                    stable_order(int_keys(starts_at(all@, idx)), ord) ==> report_matches(
                        rep,
                        name@,
                        all@,
                        resolved,
                        ord.map_values(|p: usize| idx[p as int]),
                    ),
            }
        }),
{
    let ghost idx_spec = named(all@, name@, all@.len());
    let mut idx: Vec<usize> = Vec::new();
    let mut k: usize = 0;
    while k < all.len()
        invariant
            k <= all@.len(),
            idx@ == named(all@, name@, k as nat),
        decreases all@.len() - k,
    {
        if str_eq(all[k].name.as_str(), name) {
            idx.push(k);
        }
        k = k + 1;
    }
    proof {
        lemma_named(all@, name@, all@.len());
    }
    if idx.len() == 0 {
        return None;
    }
    let first_symbol = all[idx[0]].symbol;
    let mut differs = false;
    let mut p: usize = 0;
    while p < idx.len()
        invariant
            p <= idx@.len(),
            idx@ == idx_spec,
            idx@.len() > 0,
            first_symbol == all@[idx@[0] as int].symbol,
            forall|j: int| 0 <= j < idx@.len() ==> #[trigger] idx@[j] < all@.len(),
            differs == (exists|q: int| 0 <= q < p && all@[idx@[q] as int].symbol != first_symbol),
        decreases idx@.len() - p,
    {
        if all[idx[p]].symbol != first_symbol {
            differs = true;
        }
        p = p + 1;
    }
    if !differs {
        proof {
            assert forall|a: int, b: int| 0 <= a < idx@.len() && 0 <= b < idx@.len() implies all@[idx@[a] as int].symbol
                == all@[idx@[b] as int].symbol by {
                assert(all@[idx@[a] as int].symbol == first_symbol);
                assert(all@[idx@[b] as int].symbol == first_symbol);
            }
        }
        return None;
    }
    let mut ks: Vec<usize> = Vec::new();
    let mut m: usize = 0;
    while m < idx.len()
        invariant
            m <= idx@.len(),
            forall|j: int| 0 <= j < idx@.len() ==> #[trigger] idx@[j] < all@.len(),
            ks@ == starts_at(all@, idx@).take(m as int),
        decreases idx@.len() - m,
    {
        ks.push(all[idx[m]].span.start);
        m = m + 1;
        assert(ks@ =~= starts_at(all@, idx@).take(m as int));
    }
    assert(ks@ =~= starts_at(all@, idx@));
    let ord = order_by_key(&ks);
    let ghost keys = int_keys(ks@);
    let mut bindings: Vec<usize> = Vec::new();
    m = 0;
    while m < ord.len()
        invariant
            m <= ord@.len(),
            stable_order(keys, ord@),
            keys.len() == idx@.len(),
            bindings@ == ord@.map_values(|p: usize| idx@[p as int]).take(m as int),
        decreases ord@.len() - m,
    {
        bindings.push(idx[ord[m]]);
        m = m + 1;
        assert(bindings@ =~= ord@.map_values(|p: usize| idx@[p as int]).take(m as int));
    }
    let ghost order = ord@.map_values(|p: usize| idx@[p as int]);
    assert(bindings@ =~= order);
    let ghost sb = order.map_values(|i: usize| all@[i as int]);
    proof {
        assert forall|j: int| 0 <= j < bindings@.len() implies #[trigger] bindings@[j] < all@.len() by {
            assert(ord@[j] < idx@.len());
        }
    }
    let n = bindings.len();
    proof {
        lemma_first_declared(sb, 0);
        lemma_last_resolving(sb, resolved, n as int);
    }
    let winner = match first_declared_exec(all, &bindings) {
        Some(j) => j,
        None => match last_resolving_exec(all, &bindings, resolved) {
            Some(t) => t,
            None => n - 1,
        },
    };
    // How each binding is described, and what references are told.
    let mut labels: Vec<String> = Vec::new();
    m = 0;
    while m < n
        invariant
            m <= n == bindings@.len() == sb.len(),
            forall|q: int| 0 <= q < n ==> #[trigger] bindings@[q] < all@.len(),
            sb == bindings@.map_values(|i: usize| all@[i as int]),
            texts(labels@) == sb.map_values(|b: Binding| describe_of(name@, b)).take(m as int),
        decreases n - m,
    {
        let d = describe(name, &all[bindings[m]]);
        let ghost before = texts(labels@);
        let ghost all_labels = sb.map_values(|b: Binding| describe_of(name@, b));
        labels.push(d);
        proof {
            assert(texts(labels@) =~= before.push(d@));
            assert(sb[m as int] == all@[bindings@[m as int] as int]);
            assert(all_labels[m as int] == d@);
            assert(all_labels.take(m + 1) =~= all_labels.take(m as int).push(all_labels[m as int]));
        }
        m = m + 1;
    }
    assert(texts(labels@) =~= sb.map_values(|b: Binding| describe_of(name@, b)));
    let chosen = describe(name, &all[bindings[winner]]);
    let mut message = String::new();
    push_char(&mut message, '`');
    push_str(&mut message, name);
    push_str(&mut message, "` is ambiguous: it could be ");
    crate::fmt::push_joined(&mut message, &labels, " or ");
    push_str(&mut message, "; it resolves to ");
    push_str(&mut message, chosen.as_str());
    assert(message@ =~= ambiguity_message_of(name@, sb, winner as int));
    // What each hidden import is told.
    let mut shadowed: Vec<(usize, String)> = Vec::new();
    m = 0;
    while m < n
        invariant
            m <= n == bindings@.len() == sb.len(),
            winner < n,
            forall|q: int| 0 <= q < n ==> #[trigger] bindings@[q] < all@.len(),
            sb == bindings@.map_values(|i: usize| all@[i as int]),
            chosen@ == describe_of(name@, sb[winner as int]),
            shadowed@.map_values(|p: (usize, String)| (p.0 as int, p.1@)) == shadowed_of(name@, sb, winner as int, m as nat),
        decreases n - m,
    {
        let b = &all[bindings[m]];
        if m != winner && b.from.is_some() {
            let mut told = describe(name, b);
            push_str(&mut told, " is hidden: `");
            push_str(&mut told, name);
            push_str(&mut told, "` in this file means ");
            push_str(&mut told, chosen.as_str());
            let ghost before = shadowed@.map_values(|p: (usize, String)| (p.0 as int, p.1@));
            shadowed.push((m, told));
            assert(shadowed@.map_values(|p: (usize, String)| (p.0 as int, p.1@)) =~= before.push((m as int, describe_of(name@, sb[m as int]) + " is hidden: `"@ + name@ + "` in this file means "@ + describe_of(name@, sb[winner as int]))));
        }
        m = m + 1;
    }
    let rep = AmbiguityReport { bindings, winner, message, labels, shadowed };
    proof {
        assert forall|o: Seq<usize>| stable_order(int_keys(starts_at(all@, idx_spec)), o) implies report_matches(
            rep,
            name@,
            all@,
            resolved,
            o.map_values(|p: usize| idx_spec[p as int]),
        ) by {
            lemma_stable_order_unique(keys, o, ord@);
        }
    }
    Some(rep)
}


// ---- references --------------------------------------------------------------------------

/// A name written in a file, as the index records it: where, whether it is a
/// reference (rather than a definition), its text, and whether it resolved
/// to an anchor or a variable.
pub struct Occurrence {
    pub span: Span,
    pub is_reference: bool,
    pub text: String,
    pub names_symbol: bool,
}

/// A span holds the offsets from its start up to its end, not including it.
pub open spec fn span_holds(s: Span, o: usize) -> bool {
    s.start <= o < s.end
}

/// Whether an occurrence is a reference to `name` in the file's own text:
/// outside every import declaration, whose names are bindings rather than
/// uses.
pub open spec fn reference_to(o: Occurrence, name: Seq<char>, imports: Seq<Span>) -> bool {
    &&& o.is_reference
    &&& o.text@ == name
    &&& o.names_symbol
    &&& !(exists|i: int| 0 <= i < imports.len() && span_holds(#[trigger] imports[i], o.span.start))
}

/// Where the first `k` occurrences refer to `name`.
pub open spec fn references_of(occurrences: Seq<Occurrence>, name: Seq<char>, imports: Seq<Span>, k: nat) -> Seq<Span>
    decreases k,
{
    if k == 0 || k > occurrences.len() {
        Seq::empty()
    } else if reference_to(occurrences[k - 1], name, imports) {
        references_of(occurrences, name, imports, (k - 1) as nat).push(occurrences[k - 1].span)
    } else {
        references_of(occurrences, name, imports, (k - 1) as nat)
    }
}

/// Where a file refers to `name`, given what its index records and where its
/// import declarations are.
pub fn references(name: &str, occurrences: &Vec<Occurrence>, imports: &Vec<Span>) -> (spans: Vec<Span>)
    ensures
        spans@ == references_of(occurrences@, name@, imports@, occurrences@.len()),
{
    let mut spans: Vec<Span> = Vec::new();
    let mut k: usize = 0;
    while k < occurrences.len()
        invariant
            k <= occurrences@.len(),
            spans@ == references_of(occurrences@, name@, imports@, k as nat),
        decreases occurrences@.len() - k,
    {
        let o = &occurrences[k];
        if o.is_reference && o.names_symbol && str_eq(o.text.as_str(), name) {
            let mut inside = false;
            let mut i: usize = 0;
            while i < imports.len()
                invariant
                    i <= imports@.len(),
                    inside == (exists|j: int| 0 <= j < i && span_holds(#[trigger] imports@[j], o.span.start)),
                decreases imports@.len() - i,
            {
                if imports[i].start <= o.span.start && o.span.start < imports[i].end {
                    inside = true;
                }
                i = i + 1;
            }
            if !inside {
                spans.push(o.span);
            }
        }
        k = k + 1;
    }
    spans
}


// ---- qualifying a reference ------------------------------------------------------------

/// Whether a span touches the range from `start` to `end`.
pub open spec fn touches(s: Span, start: usize, end: usize) -> bool {
    s.start <= end && s.end >= start
}

/// The first of the first `k` references that touches the range.
pub open spec fn first_touching(references: Seq<Span>, start: usize, end: usize, k: int) -> Option<Span>
    decreases references.len() - k,
{
    if k < 0 || k >= references.len() {
        None
    } else if touches(references[k], start, end) {
        Some(references[k])
    } else {
        first_touching(references, start, end, k + 1)
    }
}

/// The reference to an ambiguous name the editor's range touches first.
pub fn touching(references: &Vec<Span>, start: usize, end: usize) -> (r: Option<Span>)
    ensures
        r == first_touching(references@, start, end, 0),
{
    let mut k: usize = 0;
    while k < references.len()
        invariant
            k <= references@.len(),
            first_touching(references@, start, end, 0) == first_touching(references@, start, end, k as int),
        decreases references@.len() - k,
    {
        let s = references[k];
        if s.start <= end && s.end >= start {
            return Some(s);
        }
        k = k + 1;
    }
    None
}

/// The name an import entry is written with: its first word, or `name` when
/// it has none.
pub open spec fn entry_name(entry: Seq<char>, name: Seq<char>) -> Seq<char> {
    if words(entry).len() > 0 { words(entry)[0] } else { name }
}

/// What qualifying an ambiguous reference does with one import of the name:
/// the entry gets the alias, keeping the name it imports; and the references
/// are rewritten to the alias, all of them when this import is the one they
/// meant, only the one asked from otherwise.
pub open spec fn qualify_edits_of(
    name: Seq<char>,
    from: Seq<char>,
    entry: Seq<char>,
    entry_span: Span,
    winner: bool,
    references: Seq<Span>,
    here: Span,
) -> Seq<(Span, Seq<char>)> {
    let alias = qualified_alias_of(from, name);
    let rewritten = if winner { references } else { seq![here] };
    seq![(entry_span, entry_name(entry, name) + seq![' '] + alias)] + rewritten.map_values(|s: Span| (s, alias))
}

/// How the action is titled.
pub open spec fn qualify_title_of(name: Seq<char>, from: Seq<char>) -> Seq<char> {
    "Qualify `"@ + name + "` as `"@ + qualified_alias_of(from, name) + "` (the one from `"@ + from + "`)"@
}

/// The title and the edits of the action that qualifies a reference to
/// `name` as the import from `from`, whose entry reads `entry` at
/// `entry_span`; `winner` says whether it is the import the name resolves
/// to, and `here` is the reference the action was asked from.
pub fn qualify_action(
    name: &str,
    from: &str,
    entry: &str,
    entry_span: Span,
    winner: bool,
    references: &Vec<Span>,
    here: Span,
) -> (r: (String, Vec<(Span, String)>))
    ensures
        r.0@ == qualify_title_of(name@, from@),
        r.1@.map_values(|e: (Span, String)| (e.0, e.1@)) == qualify_edits_of(name@, from@, entry@, entry_span, winner, references@, here),
{
    let alias = qualified_alias(from, name);
    let ws = split_words(&crate::text::chars_of(entry));
    let mut first = String::new();
    if ws.len() > 0 {
        push_str(&mut first, string_of(&ws[0]).as_str());
    } else {
        push_str(&mut first, name);
    }
    push_char(&mut first, ' ');
    push_str(&mut first, alias.as_str());
    assert(first@ =~= entry_name(entry@, name@) + seq![' '] + alias@);
    let mut edits: Vec<(Span, String)> = Vec::new();
    edits.push((entry_span, first));
    let ghost rewritten = if winner { references@ } else { seq![here] };
    let ghost target = qualify_edits_of(name@, from@, entry@, entry_span, winner, references@, here);
    if winner {
        let mut k: usize = 0;
        while k < references.len()
            invariant
                k <= references@.len(),
                winner,
                rewritten == references@,
                edits@.map_values(|e: (Span, String)| (e.0, e.1@)) == target.take(k + 1),
                target == seq![(entry_span, entry_name(entry@, name@) + seq![' '] + alias@)] + rewritten.map_values(|s: Span| (s, alias@)),
            decreases references@.len() - k,
        {
            let ghost before = edits@.map_values(|e: (Span, String)| (e.0, e.1@));
            edits.push((references[k], string_of(&crate::text::chars_of(alias.as_str()))));
            proof {
                assert(edits@.map_values(|e: (Span, String)| (e.0, e.1@)) =~= before.push((references@[k as int], alias@)));
                assert(target.take(k + 2) =~= target.take(k + 1).push(target[k + 1]));
            }
            k = k + 1;
        }
        assert(target.take(k + 1) =~= target);
    } else {
        edits.push((here, string_of(&crate::text::chars_of(alias.as_str()))));
        assert(edits@.map_values(|e: (Span, String)| (e.0, e.1@)) =~= target);
    }
    let mut title = String::new();
    push_str(&mut title, "Qualify `");
    push_str(&mut title, name);
    push_str(&mut title, "` as `");
    push_str(&mut title, alias.as_str());
    push_str(&mut title, "` (the one from `");
    push_str(&mut title, from);
    push_str(&mut title, "`)");
    assert(title@ =~= qualify_title_of(name@, from@));
    (title, edits)
}

} // verus!
