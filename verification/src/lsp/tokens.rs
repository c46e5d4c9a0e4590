//! Semantic tokens: the classified spans put in order, the ones that overlap
//! an earlier one dropped, and each position written as the protocol carries
//! it, relative to the token before.
use vstd::prelude::*;

use crate::lsp::convert::{
    boundary_index, lemma_boundary_index_bound, lemma_line_begin_facts, lemma_newlines_mono,
    lemma_utf16_le_bytes, lemma_utf16_len_back, line_begin, newlines, offset_to_position, on_boundary,
    position_of, Position,
};
use crate::text::{byte_len, lemma_byte_len_concat, utf16_len};

verus! {

/// A classified span of the text, in bytes, before it is encoded. At one
/// start, the token of lower priority, then the shorter, comes first.
#[derive(Clone, Copy, Debug)]
pub struct RawToken {
    pub start: usize,
    pub end: usize,
    pub kind: u32,
    pub modifiers: u32,
    pub priority: u8,
}

/// How many token types the server's legend lists: anchor, property,
/// variable, keyword, comment, string, number, operator, namespace, type.
pub const TOKEN_TYPE_COUNT: u32 = 10;

/// The legend index of each token type.
pub const ANCHOR: u32 = 0;
pub const PROPERTY: u32 = 1;
pub const VARIABLE: u32 = 2;
pub const KEYWORD: u32 = 3;
pub const COMMENT: u32 = 4;
pub const STRING: u32 = 5;
pub const NUMBER: u32 = 6;
pub const OPERATOR: u32 = 7;
pub const NAMESPACE: u32 = 8;
pub const TYPE: u32 = 9;

/// The modifier bits, in the order of the server's legend: declaration,
/// definition, abstract, default library, and the server's own inherited,
/// exported and imported.
pub const DECLARATION: u32 = 1;
pub const DEFINITION: u32 = 2;
pub const ABSTRACT: u32 = 4;
pub const DEFAULT_LIBRARY: u32 = 8;
pub const INHERITED: u32 = 16;
pub const EXPORTED: u32 = 32;
pub const IMPORTED: u32 = 64;

/// Every raw token's kind is a type the legend lists.
pub open spec fn kinds_ok(raw: Seq<RawToken>) -> bool {
    forall|k: int| 0 <= k < raw.len() ==> #[trigger] raw[k].kind < TOKEN_TYPE_COUNT
}

/// Whether raw token `i` comes before raw token `j`: by start, then
/// priority, then length, and where all three are the same, in the order
/// they were found.
pub open spec fn key_before(raw: Seq<RawToken>, i: int, j: int) -> bool {
    let a = raw[i];
    let b = raw[j];
    let la = a.end - a.start;
    let lb = b.end - b.start;
    ||| a.start < b.start
    ||| a.start == b.start && a.priority < b.priority
    ||| a.start == b.start && a.priority == b.priority && la < lb
    ||| a.start == b.start && a.priority == b.priority && la == lb && i < j
}

/// `order` holds each raw token's index once, in the order the tokens come.
pub open spec fn sorted_order(raw: Seq<RawToken>, order: Seq<usize>) -> bool {
    &&& order.len() == raw.len()
    &&& forall|k: int| 0 <= k < order.len() ==> order[k] < raw.len()
    &&& forall|x: usize| x < raw.len() ==> order.contains(x)
    &&& forall|a: int, b: int| 0 <= a < b < order.len() ==> key_before(raw, order[a] as int, order[b] as int)
}

proof fn lemma_key_transitive(raw: Seq<RawToken>, i: int, j: int, k: int)
    requires
        key_before(raw, i, j),
        key_before(raw, j, k),
    ensures
        key_before(raw, i, k),
{
}

/// The tokens have one order: two orders that both put them in order are the
/// same.
pub proof fn lemma_sorted_order_unique(raw: Seq<RawToken>, a: Seq<usize>, b: Seq<usize>)
    requires
        sorted_order(raw, a),
        sorted_order(raw, b),
    ensures
        a == b,
{
    lemma_sorted_from(raw, a, b, 0);
}

proof fn lemma_sorted_from(raw: Seq<RawToken>, a: Seq<usize>, b: Seq<usize>, i: int)
    requires
        sorted_order(raw, a),
        sorted_order(raw, b),
        0 <= i <= a.len(),
        forall|k: int| 0 <= k < i ==> a[k] == b[k],
    ensures
        a == b,
    decreases a.len() - i,
{
    if i == a.len() {
        assert(a =~= b);
    } else if a[i] == b[i] {
        lemma_sorted_from(raw, a, b, i + 1);
    } else {
        let x = a[i];
        let y = b[i];
        if key_before(raw, x as int, y as int) {
            assert(b.contains(x));
            let j = choose|j: int| 0 <= j < b.len() && b[j] == x;
            if j < i {
                assert(a[j] == x);
                assert(key_before(raw, a[j] as int, a[i] as int));
            }
            assert(key_before(raw, b[i] as int, b[j] as int));
        } else {
            assert(a.contains(y));
            let j = choose|j: int| 0 <= j < a.len() && a[j] == y;
            if j < i {
                assert(b[j] == y);
                assert(key_before(raw, b[j] as int, b[i] as int));
            }
            assert(key_before(raw, a[i] as int, a[j] as int));
        }
    }
}

fn comes_before(raw: &Vec<RawToken>, i: usize, j: usize) -> (r: bool)
    requires
        i < raw@.len(),
        j < raw@.len(),
        raw@[i as int].start <= raw@[i as int].end,
        raw@[j as int].start <= raw@[j as int].end,
    ensures
        r == key_before(raw@, i as int, j as int),
{
    let a = raw[i];
    let b = raw[j];
    let la = a.end - a.start;
    let lb = b.end - b.start;
    a.start < b.start || (a.start == b.start && a.priority < b.priority) || (a.start == b.start
        && a.priority == b.priority && la < lb) || (a.start == b.start && a.priority == b.priority
        && la == lb && i < j)
}

/// The raw tokens' indices in the order the tokens come.
pub fn sort_order(raw: &Vec<RawToken>) -> (order: Vec<usize>)
    requires
        forall|k: int| 0 <= k < raw@.len() ==> raw@[k].start <= raw@[k].end,
    ensures
        sorted_order(raw@, order@),
{
    let mut order: Vec<usize> = Vec::new();
    let mut k: usize = 0;
    while k < raw.len()
        invariant
            k <= raw@.len(),
            forall|m: int| 0 <= m < raw@.len() ==> raw@[m].start <= raw@[m].end,
            order@.len() == k,
            forall|m: int| 0 <= m < order@.len() ==> order@[m] < k,
            forall|x: usize| x < k ==> order@.contains(x),
            forall|a: int, b: int| 0 <= a < b < order@.len() ==> key_before(raw@, order@[a] as int, order@[b] as int),
        decreases raw@.len() - k,
    {
        let mut p: usize = 0;
        while p < order.len() && !comes_before(raw, k, order[p])
            invariant
                p <= order@.len(),
                k < raw@.len(),
                forall|m: int| 0 <= m < raw@.len() ==> raw@[m].start <= raw@[m].end,
                forall|m: int| 0 <= m < order@.len() ==> order@[m] < k,
                forall|q: int| 0 <= q < p ==> !key_before(raw@, k as int, #[trigger] order@[q] as int),
            decreases order@.len() - p,
        {
            p = p + 1;
        }
        let ghost before = order@;
        order.insert(p, k);
        proof {
            assert(order@ == before.insert(p as int, k));
            assert forall|a: int, b: int| 0 <= a < b < order@.len() implies key_before(
                raw@,
                order@[a] as int,
                order@[b] as int,
            ) by {
                if b < p {
                    assert(order@[a] == before[a] && order@[b] == before[b]);
                } else if b == p {
                    assert(order@[a] == before[a]);
                    assert(!key_before(raw@, k as int, before[a] as int));
                } else if a == p {
                    assert(order@[b] == before[b - 1]);
                    assert(key_before(raw@, k as int, before[p as int] as int));
                    if b - 1 > p {
                        lemma_key_transitive(raw@, k as int, before[p as int] as int, before[b - 1] as int);
                    }
                } else if a < p {
                    assert(order@[a] == before[a] && order@[b] == before[b - 1]);
                } else {
                    assert(order@[a] == before[a - 1] && order@[b] == before[b - 1]);
                }
            }
            assert forall|x: usize| x < k + 1 implies order@.contains(x) by {
                if x == k {
                    assert(order@[p as int] == k);
                } else {
                    assert(before.contains(x));
                    let j = choose|j: int| 0 <= j < before.len() && before[j] == x;
                    if j < p {
                        assert(order@[j] == x);
                    } else {
                        assert(order@[j + 1] == x);
                    }
                }
            }
        }
        k = k + 1;
    }
    order
}


// ---- dropping overlaps -----------------------------------------------------------------

/// The tokens kept from the `i`th in order on, with `cursor` the end of the
/// last one kept: a token that starts before it overlaps and is dropped, and
/// so is an empty one.
pub open spec fn kept_from(raw: Seq<RawToken>, order: Seq<usize>, i: int, cursor: int) -> Seq<RawToken>
    decreases order.len() - i,
{
    if i < 0 || i >= order.len() {
        Seq::empty()
    } else {
        let t = raw[order[i] as int];
        if t.start < cursor || t.start == t.end {
            kept_from(raw, order, i + 1, cursor)
        } else {
            seq![t] + kept_from(raw, order, i + 1, t.end as int)
        }
    }
}

/// A kept token is one of the raw tokens, not empty, and starts at or after
/// `cursor`.
pub open spec fn kept_ok(raw: Seq<RawToken>, t: RawToken, cursor: int) -> bool {
    cursor <= t.start < t.end && raw.contains(t)
}

/// Every kept token is one of the raw tokens, starts at or after the cursor,
/// and starts after the one kept before it.
proof fn lemma_kept(raw: Seq<RawToken>, order: Seq<usize>, i: int, cursor: int)
    requires
        0 <= i,
        forall|k: int| 0 <= k < order.len() ==> order[k] < raw.len(),
        forall|k: int| 0 <= k < raw.len() ==> raw[k].start <= raw[k].end,
    ensures
        forall|k: int| 0 <= k < kept_from(raw, order, i, cursor).len() ==> kept_ok(raw, #[trigger] kept_from(raw, order, i, cursor)[k], cursor),
        forall|a: int, b: int| 0 <= a < b < kept_from(raw, order, i, cursor).len() ==> kept_from(raw, order, i, cursor)[a].start
            < kept_from(raw, order, i, cursor)[b].start,
    decreases order.len() - i,
{
    let all = kept_from(raw, order, i, cursor);
    if i < order.len() {
        let t = raw[order[i] as int];
        if t.start < cursor || t.start == t.end {
            lemma_kept(raw, order, i + 1, cursor);
            assert(all == kept_from(raw, order, i + 1, cursor));
        } else {
            lemma_kept(raw, order, i + 1, t.end as int);
            let rest = kept_from(raw, order, i + 1, t.end as int);
            assert(all == seq![t] + rest);
            assert forall|k: int| 0 <= k < all.len() implies kept_ok(raw, #[trigger] all[k], cursor) by {
                if k == 0 {
                    assert(all[0] == t);
                    assert(raw[order[i] as int] == t);
                } else {
                    assert(all[k] == rest[k - 1]);
                    assert(kept_ok(raw, rest[k - 1], t.end as int));
                }
            }
            assert forall|a: int, b: int| 0 <= a < b < all.len() implies all[a].start < all[b].start by {
                assert(all[b] == rest[b - 1]);
                assert(kept_ok(raw, rest[b - 1], t.end as int));
                if a > 0 {
                    assert(all[a] == rest[a - 1]);
                }
            }
        }
    } else {
        assert(all.len() == 0);
    }
}

/// The tokens kept never overlap: each starts at or after the end of the one
/// kept before it, and none is empty.
pub proof fn lemma_kept_apart(raw: Seq<RawToken>, order: Seq<usize>, i: int, cursor: int)
    requires
        0 <= i,
        forall|k: int| 0 <= k < order.len() ==> order[k] < raw.len(),
        forall|k: int| 0 <= k < raw.len() ==> raw[k].start <= raw[k].end,
    ensures
        forall|a: int, b: int| 0 <= a < b < kept_from(raw, order, i, cursor).len() ==> kept_from(raw, order, i, cursor)[a].end
            <= kept_from(raw, order, i, cursor)[b].start,
        forall|a: int| 0 <= a < kept_from(raw, order, i, cursor).len() ==> #[trigger] kept_from(raw, order, i, cursor)[a].start
            < kept_from(raw, order, i, cursor)[a].end,
    decreases order.len() - i,
{
    lemma_kept(raw, order, i, cursor);
    let all = kept_from(raw, order, i, cursor);
    assert forall|a: int| 0 <= a < all.len() implies #[trigger] all[a].start < all[a].end by {
        assert(kept_ok(raw, all[a], cursor));
    }
    if i < order.len() {
        let t = raw[order[i] as int];
        if t.start < cursor || t.start == t.end {
            lemma_kept_apart(raw, order, i + 1, cursor);
            assert(all == kept_from(raw, order, i + 1, cursor));
        } else {
            lemma_kept_apart(raw, order, i + 1, t.end as int);
            lemma_kept(raw, order, i + 1, t.end as int);
            let rest = kept_from(raw, order, i + 1, t.end as int);
            assert(all == seq![t] + rest);
            assert forall|a: int, b: int| 0 <= a < b < all.len() implies all[a].end <= all[b].start by {
                assert(all[b] == rest[b - 1]);
                assert(kept_ok(raw, rest[b - 1], t.end as int));
                if a > 0 {
                    assert(all[a] == rest[a - 1]);
                }
            }
        }
    }
}

/// The tokens kept, in order.
fn keep(raw: &Vec<RawToken>, order: &Vec<usize>) -> (kept: Vec<RawToken>)
    requires
        forall|k: int| 0 <= k < order@.len() ==> order@[k] < raw@.len(),
    ensures
        kept@ == kept_from(raw@, order@, 0, 0),
{
    let mut kept: Vec<RawToken> = Vec::new();
    let mut cursor: usize = 0;
    let mut i: usize = 0;
    while i < order.len()
        invariant
            i <= order@.len(),
            forall|k: int| 0 <= k < order@.len() ==> order@[k] < raw@.len(),
            kept_from(raw@, order@, 0, 0) == kept@ + kept_from(raw@, order@, i as int, cursor as int),
        decreases order@.len() - i,
    {
        let t = raw[order[i]];
        if !(t.start < cursor || t.start == t.end) {
            let ghost before = kept@;
            kept.push(t);
            cursor = t.end;
            assert(before + (seq![t] + kept_from(raw@, order@, i + 1, cursor as int)) =~= kept@ + kept_from(raw@, order@, i + 1, cursor as int));
        }
        i = i + 1;
    }
    assert(kept@ + Seq::<RawToken>::empty() =~= kept@);
    kept
}

// ---- positions -------------------------------------------------------------------------

proof fn lemma_boundary_mono(cs: Seq<char>, o1: int, o2: int)
    requires
        o1 <= o2,
    ensures
        boundary_index(cs, o1) <= boundary_index(cs, o2),
    decreases cs.len(),
{
    if cs.len() > 0 && byte_len(cs) > o1 {
        lemma_boundary_index_bound(cs.drop_last(), o1);
        if byte_len(cs) > o2 {
            lemma_boundary_mono(cs.drop_last(), o1, o2);
        }
    }
}

proof fn lemma_line_begin_same(cs: Seq<char>, k1: int, k2: int)
    requires
        0 <= k1 <= k2 <= cs.len(),
        forall|m: int| k1 <= m < k2 ==> cs[m] != '\n',
    ensures
        line_begin(cs, k1) == line_begin(cs, k2),
    decreases k2 - k1,
{
    if k1 < k2 {
        lemma_line_begin_same(cs, k1, k2 - 1);
    }
}

proof fn lemma_utf16_prefix_mono(cs: Seq<char>, a: int, k1: int, k2: int)
    requires
        0 <= a <= k1 <= k2 <= cs.len(),
    ensures
        utf16_len(cs.subrange(a, k1)) <= utf16_len(cs.subrange(a, k2)),
    decreases k2 - k1,
{
    if k1 < k2 {
        lemma_utf16_prefix_mono(cs, a, k1, k2 - 1);
        lemma_utf16_len_back(cs, a, k2);
    }
}

proof fn lemma_byte_len_part(cs: Seq<char>, a: int, b: int)
    requires
        0 <= a <= b <= cs.len(),
    ensures
        byte_len(cs.subrange(a, b)) <= byte_len(cs),
        byte_len(cs.take(b)) <= byte_len(cs),
{
    lemma_byte_len_concat(cs.subrange(0, a), cs.subrange(a, b));
    lemma_byte_len_concat(cs.subrange(0, a) + cs.subrange(a, b), cs.subrange(b, cs.len() as int));
    assert(cs.subrange(0, a) + cs.subrange(a, b) + cs.subrange(b, cs.len() as int) =~= cs);
    assert(cs.subrange(0, a) + cs.subrange(a, b) =~= cs.take(b));
}

/// A later character is on the same line or a later one, and on the same
/// line it is in the same column or a later one.
proof fn lemma_position_mono(cs: Seq<char>, k1: int, k2: int)
    requires
        0 <= k1 <= k2 <= cs.len(),
        byte_len(cs) < u32::MAX,
    ensures
        position_of(cs, k1).line <= position_of(cs, k2).line,
        position_of(cs, k1).line == position_of(cs, k2).line ==> position_of(cs, k1).character
            <= position_of(cs, k2).character,
        position_of(cs, k1).line == newlines(cs.take(k1)),
        position_of(cs, k2).line == newlines(cs.take(k2)),
{
    lemma_newlines_mono(cs, k1, k2);
    lemma_utf16_le_bytes(cs.take(k1));
    lemma_utf16_le_bytes(cs.take(k2));
    lemma_byte_len_part(cs, 0, k1);
    lemma_byte_len_part(cs, 0, k2);
    lemma_line_begin_facts(cs, k1);
    lemma_line_begin_facts(cs, k2);
    if newlines(cs.take(k1)) == newlines(cs.take(k2)) {
        assert(forall|m: int| k1 <= m < k2 ==> cs[m] != '\n');
        lemma_line_begin_same(cs, k1, k2);
        let lb = line_begin(cs, k2);
        lemma_utf16_prefix_mono(cs, lb, k1, k2);
        lemma_utf16_le_bytes(cs.subrange(lb, k1));
        lemma_utf16_le_bytes(cs.subrange(lb, k2));
        lemma_byte_len_part(cs, lb, k1);
        lemma_byte_len_part(cs, lb, k2);
    }
}

// ---- encoding --------------------------------------------------------------------------

/// One encoded token: where it starts relative to the token before (a line
/// count, then a column on the same line or from the line's start), its
/// length, and its classification.
#[derive(Clone, Copy, Debug, PartialEq, Eq, Structural)]
pub struct SemanticToken {
    pub delta_line: u32,
    pub delta_start: u32,
    pub length: u32,
    pub token_type: u32,
    pub token_modifiers_bitset: u32,
}

/// The position of byte `o`.
pub open spec fn position_at(cs: Seq<char>, o: int) -> Position {
    position_of(cs, boundary_index(cs, o) as int)
}

/// The tokens from the `i`th on, encoded after a token that started at line
/// `line`, column `col`. A token that runs onto another line is left out.
pub open spec fn encoded(cs: Seq<char>, toks: Seq<RawToken>, i: int, line: u32, col: u32) -> Seq<SemanticToken>
    decreases toks.len() - i,
{
    if i < 0 || i >= toks.len() {
        Seq::empty()
    } else {
        let s = position_at(cs, toks[i].start as int);
        let e = position_at(cs, toks[i].end as int);
        if e.line != s.line {
            encoded(cs, toks, i + 1, line, col)
        } else {
            let delta_line = (s.line - line) as u32;
            let delta_start = if delta_line == 0 {
                if s.character >= col { (s.character - col) as u32 } else { 0u32 }
            } else {
                s.character
            };
            seq![SemanticToken {
                delta_line,
                delta_start,
                length: (e.character - s.character) as u32,
                token_type: toks[i].kind,
                token_modifiers_bitset: toks[i].modifiers,
            }] + encoded(cs, toks, i + 1, s.line, s.character)
        }
    }
}

/// What `encode` asks of the tokens: each a span of whole characters of a
/// text whose positions fit the protocol, and each starting no earlier than
/// the one before.
pub open spec fn encodable(cs: Seq<char>, toks: Seq<RawToken>) -> bool {
    &&& byte_len(cs) < u32::MAX
    &&& forall|k: int| 0 <= k < toks.len() ==> {
        &&& #[trigger] toks[k].start <= toks[k].end
        &&& on_boundary(cs, toks[k].start as int)
        &&& on_boundary(cs, toks[k].end as int)
    }
    &&& forall|a: int, b: int| 0 <= a < b < toks.len() ==> toks[a].start <= toks[b].start
}

fn encode(text: &str, toks: &Vec<RawToken>) -> (data: Vec<SemanticToken>)
    requires
        encodable(text@, toks@),
    ensures
        data@ == encoded(text@, toks@, 0, 0, 0),
{
    let ghost cs = text@;
    let mut data: Vec<SemanticToken> = Vec::new();
    let mut line: u32 = 0;
    let mut col: u32 = 0;
    let ghost mut prev: int = 0;
    proof {
        assert(cs.take(0) =~= Seq::<char>::empty());
        assert(cs.subrange(0, 0) =~= Seq::<char>::empty());
        assert(position_of(cs, 0) == Position { line: 0, character: 0 });
    }
    let mut i: usize = 0;
    while i < toks.len()
        invariant
            i <= toks@.len(),
            cs == text@,
            encodable(cs, toks@),
            encoded(cs, toks@, 0, 0, 0) == data@ + encoded(cs, toks@, i as int, line, col),
            0 <= prev <= cs.len(),
            position_of(cs, prev) == (Position { line, character: col }),
            forall|j: int| i <= j < toks@.len() ==> prev <= boundary_index(cs, #[trigger] toks@[j].start as int),
        decreases toks@.len() - i,
    {
        let t = toks[i];
        assert(toks@[i as int] == t);
        let s = offset_to_position(text, t.start);
        let e = offset_to_position(text, t.end);
        let ghost ks = boundary_index(cs, t.start as int) as int;
        let ghost ke = boundary_index(cs, t.end as int) as int;
        proof {
            lemma_boundary_index_bound(cs, t.start as int);
            lemma_boundary_index_bound(cs, t.end as int);
            lemma_boundary_mono(cs, t.start as int, t.end as int);
            lemma_position_mono(cs, prev, ks);
            lemma_position_mono(cs, ks, ke);
        }
        if e.line == s.line {
            let delta_line = s.line - line;
            let delta_start = if delta_line == 0 { s.character - col } else { s.character };
            let ghost before = data@;
            data.push(SemanticToken {
                delta_line,
                delta_start,
                length: e.character - s.character,
                token_type: t.kind,
                token_modifiers_bitset: t.modifiers,
            });
            line = s.line;
            col = s.character;
            proof {
                prev = ks;
                assert forall|j: int| i + 1 <= j < toks@.len() implies prev <= boundary_index(cs, #[trigger] toks@[j].start as int) by {
                    lemma_boundary_mono(cs, t.start as int, toks@[j].start as int);
                }
                assert(before + (seq![data@.last()] + encoded(cs, toks@, i + 1, line, col)) =~= data@ + encoded(cs, toks@, i + 1, line, col));
            }
        }
        i = i + 1;
    }
    assert(data@ + Seq::<SemanticToken>::empty() =~= data@);
    data
}

/// What the tokens must be for `encode_tokens`: each a span of whole
/// characters of a text whose positions fit the protocol.
pub open spec fn spans_ok(cs: Seq<char>, raw: Seq<RawToken>) -> bool {
    &&& byte_len(cs) < u32::MAX
    &&& forall|k: int| 0 <= k < raw.len() ==> {
        &&& #[trigger] raw[k].start <= raw[k].end
        &&& on_boundary(cs, raw[k].start as int)
        &&& on_boundary(cs, raw[k].end as int)
    }
}

proof fn lemma_kept_encodable(cs: Seq<char>, raw: Seq<RawToken>, order: Seq<usize>)
    requires
        spans_ok(cs, raw),
        forall|k: int| 0 <= k < order.len() ==> order[k] < raw.len(),
    ensures
        encodable(cs, kept_from(raw, order, 0, 0)),
{
    let kept = kept_from(raw, order, 0, 0);
    lemma_kept(raw, order, 0, 0);
    assert forall|k: int| 0 <= k < kept.len() implies {
        &&& #[trigger] kept[k].start <= kept[k].end
        &&& on_boundary(cs, kept[k].start as int)
        &&& on_boundary(cs, kept[k].end as int)
    } by {
        assert(kept_ok(raw, kept[k], 0));
        let j = choose|j: int| 0 <= j < raw.len() && raw[j] == kept[k];
        assert(raw[j].start <= raw[j].end);
    }
}

/// The semantic tokens of `text`, from the classified spans found in it: the
/// spans put in order, those that overlap one kept before them or are empty
/// dropped, and the rest encoded, leaving out any that runs onto another
/// line.
pub fn encode_tokens(text: &str, raw: &Vec<RawToken>) -> (data: Vec<SemanticToken>)
    requires
        spans_ok(text@, raw@),
        kinds_ok(raw@),
    ensures
        forall|i: int| 0 <= i < data@.len() ==> #[trigger] data@[i].token_type < TOKEN_TYPE_COUNT,
        forall|order: Seq<usize>| sorted_order(raw@, order) ==> data@ == encoded(
            text@,
            kept_from(raw@, order, 0, 0),
            0,
            0,
            0,
        ),
{
    let order = sort_order(raw);
    let kept = keep(raw, &order);
    proof {
        lemma_kept_encodable(text@, raw@, order@);
    }
    let data = encode(text, &kept);
    proof {
        lemma_kept(raw@, order@, 0, 0);
        assert(kinds_ok(kept@)) by {
            assert forall|k: int| 0 <= k < kept@.len() implies #[trigger] kept@[k].kind < TOKEN_TYPE_COUNT by {
                assert(kept_ok(raw@, kept@[k], 0));
                let j = choose|j: int| 0 <= j < raw@.len() && raw@[j] == kept@[k];
                assert(raw@[j].kind < TOKEN_TYPE_COUNT);
            }
        }
        lemma_encoded_kinds(text@, kept@, 0, 0, 0);
    }
    proof {
        assert forall|o: Seq<usize>| sorted_order(raw@, o) implies data@ == encoded(
            text@,
            kept_from(raw@, o, 0, 0),
            0,
            0,
            0,
        ) by {
            lemma_sorted_order_unique(raw@, o, order@);
        }
    }
    data
}


// ---- reading the deltas back -----------------------------------------------------------

/// Where each encoded token starts, reading the deltas from a token that
/// started at line `line`, column `col`.
pub open spec fn decoded(data: Seq<SemanticToken>, line: int, col: int) -> Seq<(int, int)>
    decreases data.len(),
{
    if data.len() == 0 {
        Seq::empty()
    } else {
        let l = line + data[0].delta_line;
        let c = if data[0].delta_line == 0 { col + data[0].delta_start } else { data[0].delta_start as int };
        seq![(l, c)] + decoded(data.drop_first(), l, c)
    }
}

/// Where each token from the `i`th on starts, line and column, leaving out
/// those that run onto another line.
pub open spec fn line_starts(cs: Seq<char>, toks: Seq<RawToken>, i: int) -> Seq<(int, int)>
    decreases toks.len() - i,
{
    if i < 0 || i >= toks.len() {
        Seq::empty()
    } else {
        let s = position_at(cs, toks[i].start as int);
        let e = position_at(cs, toks[i].end as int);
        if e.line != s.line {
            line_starts(cs, toks, i + 1)
        } else {
            seq![(s.line as int, s.character as int)] + line_starts(cs, toks, i + 1)
        }
    }
}

proof fn lemma_decode_from(cs: Seq<char>, toks: Seq<RawToken>, i: int, prev: int)
    requires
        encodable(cs, toks),
        0 <= i,
        0 <= prev <= cs.len(),
        forall|j: int| i <= j < toks.len() ==> prev <= boundary_index(cs, #[trigger] toks[j].start as int),
    ensures
        decoded(
            encoded(cs, toks, i, position_of(cs, prev).line, position_of(cs, prev).character),
            position_of(cs, prev).line as int,
            position_of(cs, prev).character as int,
        ) == line_starts(cs, toks, i),
    decreases toks.len() - i,
{
    if i < toks.len() {
        let t = toks[i];
        let ks = boundary_index(cs, t.start as int) as int;
        let ke = boundary_index(cs, t.end as int) as int;
        lemma_boundary_index_bound(cs, t.start as int);
        lemma_boundary_index_bound(cs, t.end as int);
        lemma_boundary_mono(cs, t.start as int, t.end as int);
        lemma_position_mono(cs, prev, ks);
        lemma_position_mono(cs, ks, ke);
        let s = position_at(cs, t.start as int);
        let e = position_at(cs, t.end as int);
        if e.line != s.line {
            lemma_decode_from(cs, toks, i + 1, prev);
        } else {
            assert forall|j: int| i + 1 <= j < toks.len() implies ks <= boundary_index(cs, #[trigger] toks[j].start as int) by {
                lemma_boundary_mono(cs, t.start as int, toks[j].start as int);
            }
            lemma_decode_from(cs, toks, i + 1, ks);
            let p = position_of(cs, prev);
            let rest = encoded(cs, toks, i + 1, s.line, s.character);
            let all = encoded(cs, toks, i, p.line, p.character);
            assert(all.drop_first() =~= rest);
        }
    }
}

/// Decoding the deltas that `encode_tokens` writes, from the start of the
/// text, gives back where each token it kept starts, for each token that
/// stays on one line.
pub proof fn lemma_deltas_decode(cs: Seq<char>, raw: Seq<RawToken>, order: Seq<usize>)
    requires
        spans_ok(cs, raw),
        sorted_order(raw, order),
    ensures
        decoded(encoded(cs, kept_from(raw, order, 0, 0), 0, 0, 0), 0, 0) == line_starts(
            cs,
            kept_from(raw, order, 0, 0),
            0,
        ),
{
    lemma_kept_encodable(cs, raw, order);
    assert(cs.take(0) =~= Seq::<char>::empty());
    assert(cs.subrange(0, 0) =~= Seq::<char>::empty());
    assert(position_of(cs, 0) == Position { line: 0, character: 0 });
    lemma_decode_from(cs, kept_from(raw, order, 0, 0), 0, 0);
}

proof fn lemma_encoded_kinds(cs: Seq<char>, toks: Seq<RawToken>, i: int, line: u32, col: u32)
    requires
        kinds_ok(toks),
    ensures
        forall|k: int| 0 <= k < encoded(cs, toks, i, line, col).len() ==> #[trigger] encoded(cs, toks, i, line, col)[k].token_type
            < TOKEN_TYPE_COUNT,
    decreases toks.len() - i,
{
    if 0 <= i < toks.len() {
        let s = position_at(cs, toks[i].start as int);
        let e = position_at(cs, toks[i].end as int);
        if e.line != s.line {
            lemma_encoded_kinds(cs, toks, i + 1, line, col);
            assert(encoded(cs, toks, i, line, col) == encoded(cs, toks, i + 1, line, col));
        } else {
            lemma_encoded_kinds(cs, toks, i + 1, s.line, s.character);
            let all = encoded(cs, toks, i, line, col);
            let rest = encoded(cs, toks, i + 1, s.line, s.character);
            assert(toks[i].kind < TOKEN_TYPE_COUNT);
            assert(all[0].token_type == toks[i].kind);
            assert forall|k: int| 0 <= k < all.len() implies #[trigger] all[k].token_type < TOKEN_TYPE_COUNT by {
                if k > 0 {
                    assert(all[k] == rest[k - 1]);
                }
            }
        }
    }
}

// ---- what each place is classified as ------------------------------------------------

/// What a token of the syntax is, as far as highlighting goes.
#[derive(Clone, Copy, Debug, PartialEq, Eq, Structural)]
pub enum SyntaxClass {
    Comment,
    Keyword,
    Number,
    Escape,
    Other,
}

/// A token of the syntax: where it is and what it is.
#[derive(Clone, Copy, Debug)]
pub struct SyntaxToken {
    pub start: usize,
    pub end: usize,
    pub class: SyntaxClass,
}

/// What an occurrence of the index names, with the facts its highlighting
/// turns on. `elsewhere` is declared in another module than the file's;
/// `in_package` is declared in a package module.
#[derive(Clone, Copy, Debug, PartialEq, Eq, Structural)]
pub enum TargetFacts {
    Anchor { is_abstract: bool, exported: bool, elsewhere: bool, in_package: bool },
    /// A property; `inherited` when a base, not the anchor read, supplies it.
    Property { inherited: bool },
    Key,
    Variable { exported: bool, elsewhere: bool },
    /// A keyword; when it names an anchor (`aliased`), whether that anchor
    /// is declared elsewhere and whether in a package.
    Keyword { aliased: bool, elsewhere: bool, in_package: bool },
    /// A module path; `package` when the path starts with `@`.
    Module { package: bool },
    Unresolved,
}

/// An occurrence the index holds: where, whether it defines what it names,
/// and what it names.
#[derive(Clone, Copy, Debug)]
pub struct OccurrenceFacts {
    pub start: usize,
    pub end: usize,
    pub definition: bool,
    pub target: TargetFacts,
}

/// The kind and modifiers an occurrence is highlighted with; none for an
/// unresolved name.
pub open spec fn occurrence_class(o: OccurrenceFacts) -> Option<(u32, u32)> {
    let declared: u32 = if o.definition { DECLARATION | DEFINITION } else { 0 };
    match o.target {
        TargetFacts::Anchor { is_abstract, exported, elsewhere, in_package } => {
            let m1 = if is_abstract { declared | ABSTRACT } else { declared };
            let m2 = if exported { m1 | EXPORTED } else { m1 };
            let m3 = if elsewhere { m2 | IMPORTED } else { m2 };
            let m4 = if in_package { m3 | DEFAULT_LIBRARY } else { m3 };
            Some((ANCHOR, m4))
        },
        TargetFacts::Property { inherited } => {
            Some((PROPERTY, if !o.definition && inherited { declared | INHERITED } else { declared }))
        },
        TargetFacts::Key => Some((PROPERTY, declared)),
        TargetFacts::Variable { exported, elsewhere } => {
            let m1 = if exported { declared | EXPORTED } else { declared };
            Some((VARIABLE, if elsewhere { m1 | IMPORTED } else { m1 }))
        },
        TargetFacts::Keyword { aliased, elsewhere, in_package } => {
            let m0: u32 = if o.definition { DECLARATION } else { 0 };
            if aliased {
                let m1 = if elsewhere { m0 | IMPORTED } else { m0 };
                Some((KEYWORD, if in_package { m1 | DEFAULT_LIBRARY } else { m1 }))
            } else {
                Some((KEYWORD, m0))
            }
        },
        TargetFacts::Module { package } => Some((NAMESPACE, if package { DEFAULT_LIBRARY } else { 0 })),
        TargetFacts::Unresolved => None,
    }
}

/// The raw tokens of the first `k` occurrences, at priority 1.
pub open spec fn occurrence_tokens(os: Seq<OccurrenceFacts>, k: nat) -> Seq<RawToken>
    decreases k,
{
    if k == 0 || k > os.len() {
        Seq::empty()
    } else {
        let before = occurrence_tokens(os, (k - 1) as nat);
        let o = os[k - 1];
        match occurrence_class(o) {
            Some((kind, modifiers)) => before.push(RawToken { start: o.start, end: o.end, kind, modifiers, priority: 1 }),
            None => before,
        }
    }
}

/// The kind a syntax token is highlighted with, if any.
pub open spec fn syntax_kind(c: SyntaxClass) -> Option<u32> {
    match c {
        SyntaxClass::Comment => Some(COMMENT),
        SyntaxClass::Keyword => Some(KEYWORD),
        SyntaxClass::Number => Some(NUMBER),
        SyntaxClass::Escape => Some(STRING),
        SyntaxClass::Other => None,
    }
}

/// The raw tokens of the first `k` syntax tokens, at priority 5, with no
/// modifiers.
pub open spec fn syntax_tokens(ts: Seq<SyntaxToken>, k: nat) -> Seq<RawToken>
    decreases k,
{
    if k == 0 || k > ts.len() {
        Seq::empty()
    } else {
        let before = syntax_tokens(ts, (k - 1) as nat);
        let t = ts[k - 1];
        match syntax_kind(t.class) {
            Some(kind) => before.push(RawToken { start: t.start, end: t.end, kind, modifiers: 0, priority: 5 }),
            None => before,
        }
    }
}

fn classify(o: &OccurrenceFacts) -> (r: Option<(u32, u32)>)
    ensures
        r == occurrence_class(*o),
{
    let declared: u32 = if o.definition { DECLARATION | DEFINITION } else { 0 };
    match o.target {
        TargetFacts::Anchor { is_abstract, exported, elsewhere, in_package } => {
            let m1 = if is_abstract { declared | ABSTRACT } else { declared };
            let m2 = if exported { m1 | EXPORTED } else { m1 };
            let m3 = if elsewhere { m2 | IMPORTED } else { m2 };
            let m4 = if in_package { m3 | DEFAULT_LIBRARY } else { m3 };
            Some((ANCHOR, m4))
        },
        TargetFacts::Property { inherited } => {
            Some((PROPERTY, if !o.definition && inherited { declared | INHERITED } else { declared }))
        },
        TargetFacts::Key => Some((PROPERTY, declared)),
        TargetFacts::Variable { exported, elsewhere } => {
            let m1 = if exported { declared | EXPORTED } else { declared };
            Some((VARIABLE, if elsewhere { m1 | IMPORTED } else { m1 }))
        },
        TargetFacts::Keyword { aliased, elsewhere, in_package } => {
            let m0: u32 = if o.definition { DECLARATION } else { 0 };
            if aliased {
                let m1 = if elsewhere { m0 | IMPORTED } else { m0 };
                Some((KEYWORD, if in_package { m1 | DEFAULT_LIBRARY } else { m1 }))
            } else {
                Some((KEYWORD, m0))
            }
        },
        TargetFacts::Module { package } => Some((NAMESPACE, if package { DEFAULT_LIBRARY } else { 0 })),
        TargetFacts::Unresolved => None,
    }
}

/// The raw tokens the index's occurrences give, in order, at priority 1: an
/// anchor, property (a key too), variable, keyword or module path, with the
/// modifiers its facts call for; an unresolved name gives none. Every kind
/// is a type the legend lists.
pub fn token_kinds(occurrences: &Vec<OccurrenceFacts>) -> (raw: Vec<RawToken>)
    ensures
        raw@ == occurrence_tokens(occurrences@, occurrences@.len()),
        kinds_ok(raw@),
{
    let mut raw: Vec<RawToken> = Vec::new();
    let mut k: usize = 0;
    while k < occurrences.len()
        invariant
            k <= occurrences@.len(),
            raw@ == occurrence_tokens(occurrences@, k as nat),
            kinds_ok(raw@),
        decreases occurrences@.len() - k,
    {
        let o = &occurrences[k];
        match classify(o) {
            Some((kind, modifiers)) => {
                raw.push(RawToken { start: o.start, end: o.end, kind, modifiers, priority: 1 });
            },
            None => {},
        }
        k = k + 1;
    }
    raw
}

/// The raw tokens the syntax gives that the index does not carry, in order,
/// at priority 5 and with no modifiers: comments, keywords, numbers, and
/// escapes (as strings).
pub fn syntax_kinds(tokens: &Vec<SyntaxToken>) -> (raw: Vec<RawToken>)
    ensures
        raw@ == syntax_tokens(tokens@, tokens@.len()),
        kinds_ok(raw@),
{
    let mut raw: Vec<RawToken> = Vec::new();
    let mut k: usize = 0;
    while k < tokens.len()
        invariant
            k <= tokens@.len(),
            raw@ == syntax_tokens(tokens@, k as nat),
            kinds_ok(raw@),
        decreases tokens@.len() - k,
    {
        let t = &tokens[k];
        let kind = match t.class {
            SyntaxClass::Comment => Some(COMMENT),
            SyntaxClass::Keyword => Some(KEYWORD),
            SyntaxClass::Number => Some(NUMBER),
            SyntaxClass::Escape => Some(STRING),
            SyntaxClass::Other => None,
        };
        match kind {
            Some(kind) => {
                raw.push(RawToken { start: t.start, end: t.end, kind, modifiers: 0, priority: 5 });
            },
            None => {},
        }
        k = k + 1;
    }
    raw
}

} // verus!
