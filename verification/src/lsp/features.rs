//! Classifying the line under the cursor for completion.
//!
//! Everything offered is contextual: the words that belong at the head of an
//! unindented line are not the ones that belong after `extends`, and neither
//! belongs inside `@{...}`. The line is classified first; the list is built
//! from the class.
use vstd::prelude::*;

use crate::lsp::convert::{boundary_index, char_index, line_begin, on_boundary};
use crate::text::{
    alphanumeric, byte_len, chars_eq, chars_of, end_of_text, is_alphanumeric, is_space,
    is_whitespace, len_utf8, lines, lines_of, skip_spaces, slice_chars, string_of, trim,
    trim_start, utf8_width,
};

verus! {

// ---- specifications ----------------------------------------------------------------

/// A `//` at index `i` that begins a comment: only at the start of the text or
/// after whitespace, which keeps the `//` of a URL in prose from swallowing
/// the rest of the line.
pub open spec fn comment_at(cs: Seq<char>, i: int) -> bool {
    0 <= i && i + 1 < cs.len() && cs[i] == '/' && cs[i + 1] == '/' && (i == 0 || is_space(cs[i - 1]))
}

/// Whether a comment has begun anywhere in `cs`.
pub open spec fn has_comment(cs: Seq<char>) -> bool {
    exists|i: int| comment_at(cs, i)
}

/// The sigil of the interpolation opened by the `{` at index `i`: the brace
/// together with a `$`, `#` or `@` written just before it.
pub open spec fn sigil_of(cs: Seq<char>, i: int) -> Seq<char> {
    if i > 0 && cs[i - 1] == '$' {
        seq!['$', '{']
    } else if i > 0 && cs[i - 1] == '#' {
        seq!['#', '{']
    } else if i > 0 && cs[i - 1] == '@' {
        seq!['@', '{']
    } else {
        seq!['{']
    }
}

/// The interpolations still open at the end of `cs`, innermost last: each
/// with its sigil and the index just past its brace. A `}` closes the
/// innermost one, if any is open.
pub open spec fn interpolations(cs: Seq<char>) -> Seq<(Seq<char>, int)>
    decreases cs.len(),
{
    if cs.len() == 0 {
        Seq::empty()
    } else {
        let open = interpolations(cs.drop_last());
        let i = cs.len() - 1;
        if cs[i] == '}' {
            if open.len() > 0 {
                open.drop_last()
            } else {
                open
            }
        } else if cs[i] == '{' {
            open.push((sigil_of(cs, i), i + 1))
        } else {
            open
        }
    }
}

/// The innermost interpolation the cursor is inside.
pub open spec fn open_interpolation_of(cs: Seq<char>) -> Option<(Seq<char>, int)> {
    let open = interpolations(cs);
    if open.len() > 0 {
        Some(open.last())
    } else {
        None
    }
}

/// Whether a string literal is open at the end of `cs`, and whether the
/// character before was an escaping backslash inside one.
pub open spec fn string_state(cs: Seq<char>) -> (bool, bool)
    decreases cs.len(),
{
    if cs.len() == 0 {
        (false, false)
    } else {
        let (open, escaped) = string_state(cs.drop_last());
        let c = cs.last();
        if escaped {
            (open, false)
        } else if c == '\\' && open {
            (open, true)
        } else if c == '"' {
            (!open, false)
        } else {
            (open, false)
        }
    }
}

/// A character that can be part of a member path: a name character or a dot.
pub open spec fn path_char(c: char) -> bool {
    alphanumeric(c) || c == '_' || c == '.' || c == '-'
}

/// Where the path being written at the end of `cs` begins: just past the last
/// character that cannot be part of one.
pub open spec fn token_start(cs: Seq<char>) -> int
    decreases cs.len(),
{
    if cs.len() == 0 {
        0
    } else if !path_char(cs.last()) {
        cs.len() as int
    } else {
        token_start(cs.drop_last())
    }
}

/// The index of the last occurrence of `c` in `cs`.
pub open spec fn last_index_of(cs: Seq<char>, c: char) -> Option<int>
    decreases cs.len(),
{
    if cs.len() == 0 {
        None
    } else if cs.last() == c {
        Some(cs.len() - 1)
    } else {
        last_index_of(cs.drop_last(), c)
    }
}

/// The path written before the last `.` of the path at the end of `cs`, when
/// the cursor is completing a member.
pub open spec fn member_path_of(cs: Seq<char>) -> Option<Seq<char>> {
    let token = cs.subrange(token_start(cs), cs.len() as int);
    match last_index_of(token, '.') {
        Some(d) => Some(token.take(d)),
        None => None,
    }
}

/// The path before the cursor can be cut out: the character that ends the
/// search for its start, if any, is a single byte.
pub open spec fn member_path_defined(cs: Seq<char>) -> bool {
    token_start(cs) == 0 || utf8_width(cs[token_start(cs) - 1]) == 1
}

/// What follows `w`, if `t` begins with that whole word.
pub open spec fn word_after_of(t: Seq<char>, w: Seq<char>) -> Option<Seq<char>> {
    if w.len() <= t.len() && t.take(w.len() as int) == w && (t.len() == w.len() || is_space(
        t[w.len() as int],
    )) {
        Some(t.skip(w.len() as int))
    } else {
        None
    }
}

/// Whether `w` is written at index `i` of `t`.
pub open spec fn occurs_at(t: Seq<char>, w: Seq<char>, i: int) -> bool {
    0 <= i && i + w.len() <= t.len() && t.subrange(i, i + w.len()) == w
}

/// Whether the occurrence of `w` at `i` stands as a whole word.
pub open spec fn whole_at(t: Seq<char>, w: Seq<char>, i: int) -> bool {
    (i == 0 || is_space(t[i - 1])) && (i + w.len() == t.len() || is_space(t[i + w.len()]))
}

/// Where `w` last stands as a whole word in `t` before `search`, found as a
/// search backwards would find it: the last occurrence that ends by `search`,
/// and if that is inside a longer word, the search goes on from where that
/// occurrence begins.
pub open spec fn word_position_below(t: Seq<char>, w: Seq<char>, search: int) -> Option<int>
    decreases search,
{
    if w.len() == 0 || search < w.len() {
        None
    } else if occurs_at(t, w, search - w.len()) {
        if whole_at(t, w, search - w.len()) {
            Some(search - w.len())
        } else {
            word_position_below(t, w, search - w.len())
        }
    } else {
        word_position_below(t, w, search - 1)
    }
}

/// The index of the first `c` at or after `i`.
pub open spec fn index_from(cs: Seq<char>, c: char, i: int) -> Option<int>
    decreases cs.len() - i,
{
    if i < 0 || i >= cs.len() {
        None
    } else if cs[i] == c {
        Some(i)
    } else {
        index_from(cs, c, i + 1)
    }
}

/// The index of the first whitespace character at or after `i`.
pub open spec fn space_from(cs: Seq<char>, i: int) -> Option<int>
    decreases cs.len() - i,
{
    if i < 0 || i >= cs.len() {
        None
    } else if is_space(cs[i]) {
        Some(i)
    } else {
        space_from(cs, i + 1)
    }
}

/// Whether `cs` holds whitespace anywhere.
pub open spec fn has_space(cs: Seq<char>) -> bool {
    exists|j: int| 0 <= j < cs.len() && is_space(cs[j])
}

/// `name:` split off the front of a line: the name and the rest. A key takes
/// the first colon, holds no whitespace, and does not begin with a brace, a
/// bracket or a sigil.
pub open spec fn split_key_of(t: Seq<char>) -> Option<(Seq<char>, Seq<char>)> {
    match index_from(t, ':', 0) {
        None => None,
        Some(k) => {
            let name = t.take(k);
            if name.len() == 0 || has_space(name) || name[0] == '{' || name[0] == '[' || name[0]
                == '#' || name[0] == '@' || name[0] == '$' {
                None
            } else {
                Some((name, t.skip(k + 1)))
            }
        },
    }
}

/// Where the value begins in what follows a key, scanning from `i` with a
/// `::` constraint open or not: every colon flips the state, and the first
/// other character that is not whitespace while no constraint is open starts
/// the value. `None` when a constraint is still open at the end.
pub open spec fn tail_from(cs: Seq<char>, i: int, open: bool) -> Option<int>
    decreases cs.len() - i,
{
    if i < 0 || i >= cs.len() {
        if open {
            None
        } else {
            Some(cs.len() as int)
        }
    } else if cs[i] == ':' {
        tail_from(cs, i + 1, !open)
    } else if !open && !is_space(cs[i]) {
        Some(i)
    } else {
        tail_from(cs, i + 1, open)
    }
}

/// Where the text after a key leaves the cursor: `None` inside a type
/// constraint, or the index where the value begins.
pub open spec fn key_tail_of(after: Seq<char>) -> Option<int> {
    if after.len() == 0 || after[0] != ':' {
        Some(0)
    } else {
        tail_from(after, 0, false)
    }
}

/// Whether what was written is prose rather than a name being completed:
/// once leading whitespace is gone, it holds whitespace or a full stop.
pub open spec fn is_prose_of(w: Seq<char>) -> bool {
    let t = trim_start(w);
    has_space(t) || t.contains('.')
}

// ---- helpers ---------------------------------------------------------------------

/// Whether the cursor is past a `//` that begins a comment.
pub fn in_comment(prefix: &str) -> (r: bool)
    ensures
        r == has_comment(prefix@),
{
    let cs = chars_of(prefix);
    comment_in(&cs)
}

fn comment_in(cs: &[char]) -> (r: bool)
    ensures
        r == has_comment(cs@),
{
    let mut i: usize = 0;
    while i < cs.len() && cs.len() - i > 1
        invariant
            i <= cs.len(),
            forall|j: int| 0 <= j < i ==> !comment_at(cs@, j),
        decreases cs.len() - i,
    {
        if cs[i] == '/' && cs[i + 1] == '/' && (i == 0 || is_whitespace(cs[i - 1])) {
            assert(comment_at(cs@, i as int));
            return true;
        }
        i = i + 1;
    }
    assert forall|j: int| !comment_at(cs@, j) by {
        if 0 <= j < i {
        }
    }
    false
}

/// The sigil of the interpolation opened by the `{` at `i`.
fn sigil_at(cs: &[char], i: usize) -> (r: &'static str)
    requires
        i < cs.len(),
    ensures
        r@ == sigil_of(cs@, i as int),
{
    proof {
        reveal_strlit("${");
        reveal_strlit("#{");
        reveal_strlit("@{");
        reveal_strlit("{");
    }
    if i > 0 && cs[i - 1] == '$' {
        "${"
    } else if i > 0 && cs[i - 1] == '#' {
        "#{"
    } else if i > 0 && cs[i - 1] == '@' {
        "@{"
    } else {
        "{"
    }
}

/// The innermost interpolation the cursor is inside: its sigil, and the index
/// just past its opening brace.
fn open_interpolation(cs: &[char]) -> (r: Option<(&'static str, usize)>)
    ensures
        match (r, open_interpolation_of(cs@)) {
            (Some((sigil, open)), Some((s, o))) => sigil@ == s && open == o,
            (None, None) => true,
            _ => false,
        },
{
    let mut stack: Vec<(&'static str, usize)> = Vec::new();
    let mut i: usize = 0;
    while i < cs.len()
        invariant
            i <= cs.len(),
            stack@.len() == interpolations(cs@.take(i as int)).len(),
            forall|k: int|
                0 <= k < stack@.len() ==> (#[trigger] stack@[k]).0@ == interpolations(
                    cs@.take(i as int),
                )[k].0 && stack@[k].1 == interpolations(cs@.take(i as int))[k].1,
        decreases cs.len() - i,
    {
        let c = cs[i];
        let ghost before = interpolations(cs@.take(i as int));
        proof {
            assert(cs@.take(i + 1).drop_last() =~= cs@.take(i as int));
        }
        if c == '}' {
            let _ = stack.pop();
        } else if c == '{' {
            let sigil = sigil_at(cs, i);
            proof {
                assert(sigil_of(cs@.take(i + 1), i as int) == sigil_of(cs@, i as int));
            }
            stack.push((sigil, i + 1));
        }
        i = i + 1;
        proof {
            let after = interpolations(cs@.take(i as int));
            if c == '}' && before.len() > 0 {
                assert(after =~= before.drop_last());
            }
        }
    }
    proof {
        assert(cs@.take(i as int) =~= cs@);
    }
    if stack.len() > 0 {
        let top = stack[stack.len() - 1];
        Some(top)
    } else {
        None
    }
}

/// Whether the cursor sits inside a string literal in an expression.
pub fn in_string(inside: &str) -> (r: bool)
    ensures
        r == string_state(inside@).0,
{
    let cs = chars_of(inside);
    string_open(&cs)
}

fn string_open(cs: &[char]) -> (r: bool)
    ensures
        r == string_state(cs@).0,
{
    let mut open = false;
    let mut escaped = false;
    let mut i: usize = 0;
    while i < cs.len()
        invariant
            i <= cs.len(),
            (open, escaped) == string_state(cs@.take(i as int)),
        decreases cs.len() - i,
    {
        let c = cs[i];
        proof {
            assert(cs@.take(i + 1).drop_last() =~= cs@.take(i as int));
        }
        if escaped {
            escaped = false;
        } else if c == '\\' && open {
            escaped = true;
        } else if c == '"' {
            open = !open;
        }
        i = i + 1;
    }
    proof {
        assert(cs@.take(i as int) =~= cs@);
    }
    open
}

/// The path written before a trailing `.`, if the cursor is completing a
/// member: `self.`, `Anchor.`, `Anchor.nested.par` give everything up to the
/// last dot.
fn member_path(cs: &[char]) -> (r: Option<Vec<char>>)
    ensures
        match (r, member_path_of(cs@)) {
            (Some(v), Some(m)) => v@ == m,
            (None, None) => true,
            _ => false,
        },
{
    let mut start = cs.len();
    proof {
        assert(cs@.take(cs@.len() as int) =~= cs@);
    }
    while start > 0
        invariant
            start <= cs.len(),
            token_start(cs@) == token_start(cs@.take(start as int)),
        ensures
            token_start(cs@) == token_start(cs@.take(start as int)),
            start == 0 || !path_char(cs@[start - 1]),
        decreases start,
    {
        let c = cs[start - 1];
        let name = is_alphanumeric(c) || c == '_' || c == '.' || c == '-';
        proof {
            assert(cs@.take(start as int).drop_last() =~= cs@.take(start - 1));
        }
        if !name {
            break;
        }
        start = start - 1;
    }
    proof {
        if start == 0 {
            assert(cs@.take(0) =~= Seq::<char>::empty());
        } else {
            assert(cs@.take(start as int).last() == cs@[start - 1]);
        }
    }
    let ghost token = cs@.subrange(token_start(cs@), cs@.len() as int);
    let mut dot = cs.len();
    proof {
        assert(token.take(dot - start) =~= token);
    }
    while dot > start
        invariant
            start <= dot <= cs.len(),
            start == token_start(cs@),
            token == cs@.subrange(start as int, cs@.len() as int),
            last_index_of(token, '.') == last_index_of(token.take(dot - start), '.'),
        decreases dot,
    {
        proof {
            assert(token.take(dot - start).drop_last() =~= token.take(dot - start - 1));
        }
        if cs[dot - 1] == '.' {
            let path = slice_chars(cs, start, dot - 1);
            proof {
                assert(token.take(dot - start - 1) =~= cs@.subrange(start as int, dot - 1));
            }
            return Some(path);
        }
        dot = dot - 1;
    }
    proof {
        assert(token.take(0) =~= Seq::<char>::empty());
    }
    None
}

proof fn lemma_token_start_bound(cs: Seq<char>)
    ensures
        0 <= token_start(cs) <= cs.len(),
    decreases cs.len(),
{
    if cs.len() > 0 && path_char(cs.last()) {
        lemma_token_start_bound(cs.drop_last());
    }
}

/// Whether `t` begins with the whole word `w`.
fn begins_with_word(t: &[char], w: &[char]) -> (r: bool)
    ensures
        r == word_after_of(t@, w@) is Some,
{
    if w.len() > t.len() {
        return false;
    }
    let mut i: usize = 0;
    while i < w.len()
        invariant
            w.len() <= t.len(),
            i <= w.len(),
            t@.take(i as int) == w@.take(i as int),
        decreases w.len() - i,
    {
        if t[i] != w[i] {
            proof {
                assert(t@.take(w.len() as int)[i as int] != w@[i as int]);
            }
            return false;
        }
        i = i + 1;
        proof {
            assert(t@.take(i as int) =~= w@.take(i as int));
        }
    }
    proof {
        assert(w@.take(w.len() as int) =~= w@);
    }
    w.len() == t.len() || is_whitespace(t[w.len()])
}

/// Where `w` last stands as a whole word in `t`. The word must not be empty:
/// the search for an empty word would never move.
fn word_position(t: &[char], w: &[char]) -> (r: Option<usize>)
    requires
        w.len() > 0,
    ensures
        match (r, word_position_below(t@, w@, t@.len() as int)) {
            (Some(i), Some(j)) => i == j,
            (None, None) => true,
            _ => false,
        },
{
    let mut search = t.len();
    while search >= w.len()
        invariant
            search <= t.len(),
            w.len() > 0,
            word_position_below(t@, w@, search as int) == word_position_below(t@, w@, t@.len() as int),
        decreases search,
    {
        let i = search - w.len();
        let mut k: usize = 0;
        while k < w.len() && t[i + k] == w[k]
            invariant
                i + w.len() <= t.len(),
                k <= w.len(),
                forall|m: int| 0 <= m < k ==> t@[i + m] == w@[m],
            decreases w.len() - k,
        {
            k = k + 1;
        }
        if k == w.len() {
            proof {
                assert(t@.subrange(i as int, i + w.len()) =~= w@);
            }
            let before = i == 0 || is_whitespace(t[i - 1]);
            let after = i + w.len() == t.len() || is_whitespace(t[i + w.len()]);
            if before && after {
                return Some(i);
            }
            search = i;
        } else {
            proof {
                assert(t@.subrange(i as int, i + w.len())[k as int] != w@[k as int]);
            }
            search = search - 1;
        }
    }
    None
}

/// The index of the first `c` in `cs` at or after `from`.
pub(crate) fn find_from(cs: &[char], c: char, from: usize) -> (r: Option<usize>)
    ensures
        match (r, index_from(cs@, c, from as int)) {
            (Some(i), Some(j)) => i == j,
            (None, None) => true,
            _ => false,
        },
{
    let mut i = from;
    while i < cs.len()
        invariant
            from <= i,
            index_from(cs@, c, i as int) == index_from(cs@, c, from as int),
        decreases cs.len() - i,
    {
        if cs[i] == c {
            return Some(i);
        }
        i = i + 1;
    }
    None
}

/// The index of the first whitespace character in `cs` at or after `from`.
fn find_space_from(cs: &[char], from: usize) -> (r: Option<usize>)
    ensures
        match (r, space_from(cs@, from as int)) {
            (Some(i), Some(j)) => i == j,
            (None, None) => true,
            _ => false,
        },
{
    let mut i = from;
    while i < cs.len()
        invariant
            from <= i,
            space_from(cs@, i as int) == space_from(cs@, from as int),
        decreases cs.len() - i,
    {
        if is_whitespace(cs[i]) {
            return Some(i);
        }
        i = i + 1;
    }
    None
}

proof fn lemma_space_from(cs: Seq<char>, i: int)
    requires
        0 <= i,
    ensures
        match space_from(cs, i) {
            Some(j) => i <= j < cs.len() && is_space(cs[j]) && forall|m: int| i <= m < j ==> !is_space(cs[m]),
            None => forall|m: int| i <= m < cs.len() ==> !is_space(cs[m]),
        },
    decreases cs.len() - i,
{
    if i < cs.len() && !is_space(cs[i]) {
        lemma_space_from(cs, i + 1);
    }
}

/// Whether `cs` holds whitespace.
fn holds_space(cs: &[char]) -> (r: bool)
    ensures
        r == has_space(cs@),
{
    let found = find_space_from(cs, 0);
    proof {
        lemma_space_from(cs@, 0);
    }
    found.is_some()
}

/// Splits `name:` off the front of a line: the name, and the index just past
/// its colon.
pub fn split_key(t: &[char]) -> (r: Option<(Vec<char>, usize)>)
    ensures
        match (r, split_key_of(t@)) {
            (Some((name, rest)), Some((n, after))) => name@ == n && rest <= t.len() && t@.skip(
                rest as int,
            ) == after,
            (None, None) => true,
            _ => false,
        },
{
    let colon = match find_from(t, ':', 0) {
        None => return None,
        Some(k) => k,
    };
    proof {
        lemma_index_from(t@, ':', 0);
    }
    let name = slice_chars(t, 0, colon);
    proof {
        assert(name@ =~= t@.take(colon as int));
    }
    if name.len() == 0 || holds_space(&name) {
        return None;
    }
    let first = name[0];
    if first == '{' || first == '[' || first == '#' || first == '@' || first == '$' {
        return None;
    }
    proof {
        assert(t@.skip(colon + 1) =~= t@.skip(colon + 1));
    }
    Some((name, colon + 1))
}

pub(crate) proof fn lemma_index_from(cs: Seq<char>, c: char, i: int)
    requires
        0 <= i,
    ensures
        match index_from(cs, c, i) {
            Some(j) => i <= j < cs.len() && cs[j] == c,
            None => true,
        },
    decreases cs.len() - i,
{
    if i < cs.len() && cs[i] != c {
        lemma_index_from(cs, c, i + 1);
    }
}

/// Where the text after a key leaves the cursor: `None` while a `::`
/// constraint is open, or the index where the value begins.
pub fn key_tail(after: &[char]) -> (r: Option<usize>)
    ensures
        match (r, key_tail_of(after@)) {
            (Some(i), Some(j)) => i == j,
            (None, None) => true,
            _ => false,
        },
{
    if after.len() == 0 || after[0] != ':' {
        return Some(0);
    }
    let mut open = false;
    let mut i: usize = 0;
    while i < after.len()
        invariant
            i <= after.len(),
            after@.len() > 0 && after@[0] == ':',
            tail_from(after@, i as int, open) == tail_from(after@, 0, false),
        decreases after.len() - i,
    {
        let c = after[i];
        if c == ':' {
            open = !open;
        } else if !open && !is_whitespace(c) {
            proof {
                assert(tail_from(after@, i as int, open) == Some(i as int));
            }
            return Some(i);
        }
        i = i + 1;
    }
    if open {
        None
    } else {
        Some(after.len())
    }
}

/// Whether what was written is prose rather than a name being completed.
fn is_prose(w: &[char]) -> (r: bool)
    ensures
        r == is_prose_of(w@),
{
    let start = skip_spaces(w, 0);
    let t = slice_chars(w, start, w.len());
    proof {
        assert(w@.subrange(0, w@.len() as int) =~= w@);
    }
    if holds_space(&t) {
        return true;
    }
    let dot = find_from(&t, '.', 0);
    proof {
        lemma_index_from(t@, '.', 0);
        if dot is None {
            assert forall|m: int| 0 <= m < t@.len() implies t@[m] != '.' by {
                lemma_no_index(t@, '.', 0, m);
            }
        }
    }
    dot.is_some()
}

proof fn lemma_no_index(cs: Seq<char>, c: char, i: int, m: int)
    requires
        0 <= i <= m < cs.len(),
        index_from(cs, c, i) is None,
    ensures
        cs[m] != c,
    decreases m - i,
{
    if i < m {
        lemma_no_index(cs, c, i + 1, m);
    }
}


// ---- the classes ---------------------------------------------------------------------

/// What the line up to the cursor is, for completion.
#[derive(Debug, PartialEq, Eq)]
pub enum Context {
    /// Nothing sensible can be offered: a comment, a verbatim block, or the
    /// middle of a name the editor is in no position to invent.
    Nothing,
    /// After `use` or `from`, where a module path goes.
    ModulePath,
    /// After `from <path>`, where `import` or `export` goes.
    ImportDirection,
    /// After `from <path> import`, where the imported names go.
    ImportName { module: String },
    /// The head of an unindented line, with the modifiers already written.
    Declaration { exported: bool, is_abstract: bool },
    /// After `extends` in a declaration head.
    Bases,
    /// Inside a `::` type constraint.
    TypeConstraint,
    /// Inside an interpolation, with the sigil that opened it and the path
    /// before a trailing `.`, if there is one.
    Expression { sigil: &'static str, member_of: Option<String> },
    /// Where a value goes, with the key whose constraints say what is valid
    /// there; a list item has none to name.
    Value { key: Option<String> },
    /// The head of an indented line, where a key goes.
    Body,
}

/// A class of line, with its text as characters.
pub enum ContextView {
    Nothing,
    ModulePath,
    ImportDirection,
    ImportName { module: Seq<char> },
    Declaration { exported: bool, is_abstract: bool },
    Bases,
    TypeConstraint,
    Expression { sigil: Seq<char>, member_of: Option<Seq<char>> },
    Value { key: Option<Seq<char>> },
    Body,
}

pub open spec fn text_of(s: Option<String>) -> Option<Seq<char>> {
    match s {
        Some(t) => Some(t@),
        None => None,
    }
}

impl View for Context {
    type V = ContextView;

    open spec fn view(&self) -> ContextView {
        match self {
            Context::Nothing => ContextView::Nothing,
            Context::ModulePath => ContextView::ModulePath,
            Context::ImportDirection => ContextView::ImportDirection,
            Context::ImportName { module } => ContextView::ImportName { module: module@ },
            Context::Declaration { exported, is_abstract } => ContextView::Declaration {
                exported: *exported,
                is_abstract: *is_abstract,
            },
            Context::Bases => ContextView::Bases,
            Context::TypeConstraint => ContextView::TypeConstraint,
            Context::Expression { sigil, member_of } => ContextView::Expression {
                sigil: sigil@,
                member_of: text_of(*member_of),
            },
            Context::Value { key } => ContextView::Value { key: text_of(*key) },
            Context::Body => ContextView::Body,
        }
    }
}

pub open spec fn use_word() -> Seq<char> {
    seq!['u', 's', 'e']
}

pub open spec fn from_word() -> Seq<char> {
    seq!['f', 'r', 'o', 'm']
}

pub open spec fn import_word() -> Seq<char> {
    seq!['i', 'm', 'p', 'o', 'r', 't']
}

pub open spec fn export_word() -> Seq<char> {
    seq!['e', 'x', 'p', 'o', 'r', 't']
}

pub open spec fn abstract_word() -> Seq<char> {
    seq!['a', 'b', 's', 't', 'r', 'a', 'c', 't']
}

pub open spec fn extends_word() -> Seq<char> {
    seq!['e', 'x', 't', 'e', 'n', 'd', 's']
}

pub open spec fn as_word() -> Seq<char> {
    seq!['a', 's']
}

/// The words of `cs` from index `i` on, as `split_whitespace` yields them,
/// with `current` the part of a word already passed.
pub open spec fn words_from(cs: Seq<char>, i: int, current: Seq<char>) -> Seq<Seq<char>>
    decreases cs.len() - i,
{
    let done = if current.len() > 0 {
        seq![current]
    } else {
        Seq::empty()
    };
    if i < 0 || i >= cs.len() {
        done
    } else if is_space(cs[i]) {
        done + words_from(cs, i + 1, Seq::empty())
    } else {
        words_from(cs, i + 1, current.push(cs[i]))
    }
}

/// The words of `cs`, as `split_whitespace` yields them.
pub open spec fn words(cs: Seq<char>) -> Seq<Seq<char>> {
    words_from(cs, 0, Seq::empty())
}

/// How many characters of list-item marker begin a trimmed line: `++`, `+`
/// or `-`.
pub open spec fn item_marker(t: Seq<char>) -> Option<int> {
    if t.len() >= 2 && t[0] == '+' && t[1] == '+' {
        Some(2)
    } else if t.len() >= 1 && (t[0] == '+' || t[0] == '-') {
        Some(1)
    } else {
        None
    }
}

/// A value is something to choose only while it is still short enough to be
/// a name: nothing written yet, or prose, has nothing to complete.
pub open spec fn value_context_of(key: Option<Seq<char>>, written: Seq<char>) -> ContextView {
    if trim(written).len() == 0 || is_prose_of(written) {
        ContextView::Nothing
    } else {
        ContextView::Value { key }
    }
}

/// An unindented line that begins with `from`: the module path is still
/// being written until whitespace follows it; then comes the direction, and
/// after `import` or `export`, the names.
pub open spec fn import_context_of(rest: Seq<char>) -> ContextView {
    match space_from(rest, 0) {
        None => ContextView::ModulePath,
        Some(q) => {
            let after = trim_start(rest.skip(q + 1));
            if word_after_of(after, import_word()) is Some || word_after_of(after, export_word()) is Some {
                ContextView::ImportName { module: rest.take(q) }
            } else {
                ContextView::ImportDirection
            }
        },
    }
}

/// The words already said at the head of a declaration: the last word is
/// dropped while it is still being typed.
pub open spec fn said_words(p: Seq<char>, t: Seq<char>) -> Seq<Seq<char>> {
    let ws = words(t);
    if ws.len() > 0 && !(p.len() > 0 && is_space(p.last())) {
        ws.drop_last()
    } else {
        ws
    }
}

/// The head of an unindented line: only `export` and `abstract` can have
/// been said before the declaration keyword; anything else is a name the
/// author is writing.
pub open spec fn declaration_of(p: Seq<char>, t: Seq<char>) -> ContextView {
    let ws = said_words(p, t);
    if forall|k: int| 0 <= k < ws.len() ==> ws[k] == export_word() || ws[k] == abstract_word() {
        ContextView::Declaration {
            exported: ws.contains(export_word()),
            is_abstract: ws.contains(abstract_word()),
        }
    } else {
        ContextView::Nothing
    }
}

/// The class of an unindented head that is neither an import nor a key:
/// after `extends` come the bases; after `as`, a keyword being invented;
/// otherwise the declaration's modifiers.
pub open spec fn head_context_of(p: Seq<char>, t: Seq<char>) -> ContextView {
    match (word_position_below(t, extends_word(), t.len() as int), word_position_below(
        t,
        as_word(),
        t.len() as int,
    )) {
        (Some(e), Some(a)) => if a > e {
            ContextView::Nothing
        } else {
            ContextView::Bases
        },
        (Some(_), None) => ContextView::Bases,
        (None, Some(_)) => ContextView::Nothing,
        (None, None) => declaration_of(p, t),
    }
}

/// The class of a line that is not inside an interpolation or a comment.
pub open spec fn line_context_of(p: Seq<char>) -> ContextView {
    let indented = p.len() > 0 && (p[0] == ' ' || p[0] == '\t');
    let t = trim_start(p);
    if !indented && word_after_of(t, use_word()) is Some {
        ContextView::ModulePath
    } else if !indented && word_after_of(t, from_word()) is Some {
        import_context_of(trim_start(t.skip(4)))
    } else if item_marker(t) is Some {
        value_context_of(None, t.skip(item_marker(t)->0))
    } else if split_key_of(t) is Some {
        let (key, after) = split_key_of(t)->0;
        match key_tail_of(after) {
            None => ContextView::TypeConstraint,
            Some(v) => value_context_of(Some(key), after.skip(v)),
        }
    } else if indented {
        if is_prose_of(t) {
            ContextView::Nothing
        } else {
            ContextView::Body
        }
    } else {
        head_context_of(p, t)
    }
}

/// The class of the line up to the cursor. A comment has nothing to offer; an
/// open interpolation wins over whatever it is written inside, unless the
/// cursor is in a string, which has no members.
pub open spec fn context_of(p: Seq<char>) -> ContextView {
    if has_comment(p) {
        ContextView::Nothing
    } else {
        match open_interpolation_of(p) {
            Some((sigil, open)) => {
                let inside = p.skip(open);
                if string_state(inside).0 {
                    ContextView::Nothing
                } else {
                    ContextView::Expression { sigil, member_of: member_path_of(inside) }
                }
            },
            None => line_context_of(p),
        }
    }
}

/// The lines `context` is defined on: where it reads a member path inside an
/// interpolation, the search for the path's start stops at a character of a
/// single byte.
pub open spec fn context_defined(p: Seq<char>) -> bool {
    match open_interpolation_of(p) {
        Some((_, open)) => has_comment(p) || string_state(p.skip(open)).0 || member_path_defined(
            p.skip(open),
        ),
        None => true,
    }
}

proof fn lemma_interpolations_bound(cs: Seq<char>)
    ensures
        forall|k: int|
            0 <= k < interpolations(cs).len() ==> 1 <= (#[trigger] interpolations(cs)[k]).1 <= cs.len(),
    decreases cs.len(),
{
    if cs.len() > 0 {
        let before = interpolations(cs.drop_last());
        lemma_interpolations_bound(cs.drop_last());
        let i = cs.len() - 1;
        if cs[i] == '}' {
            if before.len() > 0 {
                assert forall|k: int| 0 <= k < before.drop_last().len() implies 1 <= (
                #[trigger] before.drop_last()[k]).1 <= cs.len() by {
                    assert(before.drop_last()[k] == before[k]);
                }
            }
        } else if cs[i] == '{' {
            let after = before.push((sigil_of(cs, i), i + 1));
            assert forall|k: int| 0 <= k < after.len() implies 1 <= (#[trigger] after[k]).1 <= cs.len() by {
                if k < before.len() {
                    assert(after[k] == before[k]);
                }
            }
        }
    }
}

/// The words of `cs`, each a copy, as `split_whitespace` yields them.
pub fn split_words(cs: &[char]) -> (out: Vec<Vec<char>>)
    ensures
        out@.len() == words(cs@).len(),
        forall|k: int| 0 <= k < out@.len() ==> #[trigger] out@[k]@ == words(cs@)[k],
{
    let mut out: Vec<Vec<char>> = Vec::new();
    let mut current: Vec<char> = Vec::new();
    let mut i: usize = 0;
    while i < cs.len()
        invariant
            i <= cs.len(),
            words(cs@) == out@.map_values(|v: Vec<char>| v@) + words_from(cs@, i as int, current@),
        decreases cs.len() - i,
    {
        let c = cs[i];
        let ghost before = out@.map_values(|v: Vec<char>| v@);
        if is_whitespace(c) {
            if current.len() > 0 {
                let ghost cur = current@;
                out.push(current);
                current = Vec::new();
                proof {
                    assert(out@.map_values(|v: Vec<char>| v@) =~= before.push(cur));
                    assert(before + (seq![cur] + words_from(cs@, i + 1, Seq::empty())) =~= before.push(cur)
                        + words_from(cs@, i + 1, Seq::empty()));
                }
            } else {
                proof {
                    assert(Seq::<Seq<char>>::empty() + words_from(cs@, i + 1, Seq::empty())
                        =~= words_from(cs@, i + 1, Seq::empty()));
                    assert(current@ =~= Seq::<char>::empty());
                }
            }
        } else {
            current.push(c);
        }
        i = i + 1;
    }
    let ghost before = out@.map_values(|v: Vec<char>| v@);
    if current.len() > 0 {
        let ghost cur = current@;
        out.push(current);
        proof {
            assert(out@.map_values(|v: Vec<char>| v@) =~= before.push(cur));
            assert(before + seq![cur] =~= before.push(cur));
        }
    } else {
        proof {
            assert(before + Seq::<Seq<char>>::empty() =~= before);
        }
    }
    proof {
        let m = out@.map_values(|v: Vec<char>| v@);
        assert forall|k: int| 0 <= k < out@.len() implies #[trigger] out@[k]@ == words(cs@)[k] by {
            assert(m[k] == out@[k]@);
        }
    }
    out
}

/// A copy of `cs` without leading or trailing whitespace.
pub fn trim_chars(cs: &[char]) -> (out: Vec<char>)
    ensures
        out@ == trim(cs@),
{
    let i = skip_spaces(cs, 0);
    let j = end_of_text(cs, i);
    assert(cs@.subrange(0, cs@.len() as int) =~= cs@);
    slice_chars(cs, i, j)
}

/// The class of a value: a name being chosen, or nothing to offer.
fn value_context(key: Option<String>, written: &[char]) -> (c: Context)
    ensures
        c@ == value_context_of(text_of(key), written@),
{
    let trimmed = trim_chars(written);
    if trimmed.len() == 0 || is_prose(written) {
        Context::Nothing
    } else {
        Context::Value { key }
    }
}

/// Classifies the line up to the cursor.
pub fn context(prefix: &str) -> (c: Context)
    requires
        context_defined(prefix@),
    ensures
        c@ == context_of(prefix@),
{
    let p = chars_of(prefix);
    if comment_in(&p) {
        return Context::Nothing;
    }
    match open_interpolation(&p) {
        Some((sigil, open)) => {
            proof {
                lemma_interpolations_bound(p@);
            }
            let inside = slice_chars(&p, open, p.len());
            proof {
                assert(inside@ =~= p@.skip(open as int));
            }
            if string_open(&inside) {
                return Context::Nothing;
            }
            let member_of = match member_path(&inside) {
                Some(m) => Some(string_of(&m)),
                None => None,
            };
            return Context::Expression { sigil, member_of };
        },
        None => {},
    }
    line_context(&p)
}

fn line_context(p: &[char]) -> (c: Context)
    ensures
        c@ == line_context_of(p@),
{
    let indented = p.len() > 0 && (p[0] == ' ' || p[0] == '\t');
    let start = skip_spaces(p, 0);
    let t = slice_chars(p, start, p.len());
    proof {
        assert(p@.subrange(0, p@.len() as int) =~= p@);
    }
    if !indented {
        let use_w = vec!['u', 's', 'e'];
        proof {
            assert(use_w@ =~= use_word());
        }
        if begins_with_word(&t, &use_w) {
            return Context::ModulePath;
        }
        let from_w = vec!['f', 'r', 'o', 'm'];
        proof {
            assert(from_w@ =~= from_word());
        }
        if begins_with_word(&t, &from_w) {
            return import_context(&t);
        }
    }
    let marker: usize = if t.len() >= 2 && t[0] == '+' && t[1] == '+' {
        2
    } else if t.len() >= 1 && (t[0] == '+' || t[0] == '-') {
        1
    } else {
        0
    };
    if marker > 0 {
        let written = slice_chars(&t, marker, t.len());
        proof {
            assert(written@ =~= t@.skip(marker as int));
        }
        return value_context(None, &written);
    }
    match split_key(&t) {
        Some((key, rest)) => {
            let after = slice_chars(&t, rest, t.len());
            proof {
                assert(after@ =~= t@.skip(rest as int));
            }
            return match key_tail(&after) {
                None => Context::TypeConstraint,
                Some(v) => {
                    proof {
                        lemma_tail_bound(after@, 0, false);
                    }
                    let written = slice_chars(&after, v, after.len());
                    proof {
                        assert(written@ =~= after@.skip(v as int));
                    }
                    value_context(Some(string_of(&key)), &written)
                },
            };
        },
        None => {},
    }
    if indented {
        return if is_prose(&t) {
            Context::Nothing
        } else {
            Context::Body
        };
    }
    head_context(p, &t)
}

pub proof fn lemma_tail_bound(cs: Seq<char>, i: int, open: bool)
    requires
        0 <= i,
    ensures
        match tail_from(cs, i, open) {
            Some(j) => j <= cs.len(),
            None => true,
        },
    decreases cs.len() - i,
{
    if i < cs.len() && !(cs[i] != ':' && !open && !is_space(cs[i])) {
        if cs[i] == ':' {
            lemma_tail_bound(cs, i + 1, !open);
        } else {
            lemma_tail_bound(cs, i + 1, open);
        }
    }
}

/// After `from`: the module path, the direction, or the names.
fn import_context(t: &[char]) -> (c: Context)
    requires
        word_after_of(t@, from_word()) is Some,
    ensures
        c@ == import_context_of(trim_start(t@.skip(4))),
{
    let rs = skip_spaces(t, 4);
    let rest = slice_chars(t, rs, t.len());
    proof {
        assert(t@.subrange(4, t@.len() as int) =~= t@.skip(4));
    }
    match find_space_from(&rest, 0) {
        None => Context::ModulePath,
        Some(q) => {
            proof {
                lemma_space_from(rest@, 0);
            }
            let module = slice_chars(&rest, 0, q);
            let a0 = skip_spaces(&rest, q + 1);
            let after = slice_chars(&rest, a0, rest.len());
            proof {
                assert(module@ =~= rest@.take(q as int));
                assert(rest@.subrange(q + 1, rest@.len() as int) =~= rest@.skip(q + 1));
            }
            let import_w = vec!['i', 'm', 'p', 'o', 'r', 't'];
            let export_w = vec!['e', 'x', 'p', 'o', 'r', 't'];
            proof {
                assert(import_w@ =~= import_word());
                assert(export_w@ =~= export_word());
            }
            if begins_with_word(&after, &import_w) || begins_with_word(&after, &export_w) {
                Context::ImportName { module: string_of(&module) }
            } else {
                Context::ImportDirection
            }
        },
    }
}

proof fn lemma_contains_push(s: Seq<Seq<char>>, a: Seq<char>, x: Seq<char>)
    ensures
        s.push(a).contains(x) == (s.contains(x) || a == x),
{
    if s.contains(x) {
        let i = choose|i: int| 0 <= i < s.len() && s[i] == x;
        assert(s.push(a)[i] == x);
    }
    if a == x {
        assert(s.push(a)[s.len() as int] == x);
    }
    if s.push(a).contains(x) {
        let i = choose|i: int| 0 <= i < s.push(a).len() && s.push(a)[i] == x;
        if i < s.len() {
            assert(s[i] == x);
        }
    }
}

/// An unindented head that is neither an import nor a key.
fn head_context(p: &[char], t: &[char]) -> (c: Context)
    ensures
        c@ == head_context_of(p@, t@),
{
    let extends_w = vec!['e', 'x', 't', 'e', 'n', 'd', 's'];
    let as_w = vec!['a', 's'];
    proof {
        assert(extends_w@ =~= extends_word());
        assert(as_w@ =~= as_word());
    }
    let extends = word_position(t, &extends_w);
    let alias = word_position(t, &as_w);
    match (extends, alias) {
        (Some(e), Some(a)) => {
            return if a > e {
                Context::Nothing
            } else {
                Context::Bases
            };
        },
        (Some(_), None) => {
            return Context::Bases;
        },
        (None, Some(_)) => {
            return Context::Nothing;
        },
        (None, None) => {},
    }
    let export_w = vec!['e', 'x', 'p', 'o', 'r', 't'];
    let abstract_w = vec!['a', 'b', 's', 't', 'r', 'a', 'c', 't'];
    proof {
        assert(export_w@ =~= export_word());
        assert(abstract_w@ =~= abstract_word());
    }
    let ws = split_words(t);
    let ends_in_space = p.len() > 0 && is_whitespace(p[p.len() - 1]);
    let n = if ws.len() > 0 && !ends_in_space {
        ws.len() - 1
    } else {
        ws.len()
    };
    let ghost said = said_words(p@, t@);
    proof {
        assert(said.len() == n);
        assert(forall|k: int| 0 <= k < n ==> said[k] == ws@[k]@);
    }
    let mut exported = false;
    let mut is_abstract = false;
    let mut k: usize = 0;
    while k < n
        invariant
            n <= ws.len(),
            k <= n,
            said.len() == n,
            said == said_words(p@, t@),
            word_position_below(t@, extends_word(), t@.len() as int) is None,
            word_position_below(t@, as_word(), t@.len() as int) is None,
            export_w@ == export_word(),
            abstract_w@ == abstract_word(),
            forall|m: int| 0 <= m < n ==> said[m] == ws@[m]@,
            forall|m: int| 0 <= m < k ==> said[m] == export_word() || said[m] == abstract_word(),
            exported == said.take(k as int).contains(export_word()),
            is_abstract == said.take(k as int).contains(abstract_word()),
        decreases n - k,
    {
        let ghost before = said.take(k as int);
        proof {
            assert(said.take(k + 1) =~= before.push(said[k as int]));
        }
        let word: &Vec<char> = &ws[k];
        let is_export = chars_eq(word.as_slice(), export_w.as_slice());
        let is_abstract_word = chars_eq(word.as_slice(), abstract_w.as_slice());
        proof {
            assert(word@ == ws@[k as int]@);
            assert(is_export == (said[k as int] == export_word()));
            assert(is_abstract_word == (said[k as int] == abstract_word()));
        }
        if is_export {
            exported = true;
        } else if is_abstract_word {
            is_abstract = true;
        } else {
            proof {
                assert(!(said[k as int] == export_word() || said[k as int] == abstract_word()));
            }
            return Context::Nothing;
        }
        proof {
            lemma_contains_push(before, said[k as int], export_word());
            lemma_contains_push(before, said[k as int], abstract_word());
        }
        k = k + 1;
    }
    proof {
        assert(said.take(n as int) =~= said);
    }
    Context::Declaration { exported, is_abstract }
}


// ---- escape blocks, indentation, enclosing keys ------------------------------------

/// A line that opens or closes an escape block: a run of backslashes alone.
pub open spec fn escape_run(t: Seq<char>) -> bool {
    t.len() > 0 && forall|j: int| 0 <= j < t.len() ==> t[j] == '\\'
}

/// The length of the run that opened the escape block still open after the
/// lines `ls`, if one is. A block closes on a run of the same length as the
/// one that opened it, which is what lets it hold a shorter run.
pub open spec fn escape_open(ls: Seq<Seq<char>>) -> Option<nat>
    decreases ls.len(),
{
    if ls.len() == 0 {
        None
    } else {
        let before = escape_open(ls.drop_last());
        let t = trim(ls.last());
        if escape_run(t) {
            match before {
                Some(open) => if t.len() == open {
                    None
                } else {
                    Some(open)
                },
                None => Some(t.len()),
            }
        } else {
            before
        }
    }
}

fn all_backslashes(t: &[char]) -> (r: bool)
    ensures
        r == forall|j: int| 0 <= j < t@.len() ==> t@[j] == '\\',
{
    let mut i: usize = 0;
    while i < t.len()
        invariant
            i <= t.len(),
            forall|j: int| 0 <= j < i ==> t@[j] == '\\',
        decreases t.len() - i,
    {
        if t[i] != '\\' {
            return false;
        }
        i = i + 1;
    }
    true
}

/// Whether the line beginning at byte `line_start` sits inside an escape
/// block, whose contents are not Piton: the delimiters above it are counted.
/// A code fence is just text, so it is not verbatim.
pub fn verbatim_at(text: &str, line_start: usize) -> (r: bool)
    requires
        line_start <= byte_len(text@),
        on_boundary(text@, line_start as int),
    ensures
        r == escape_open(lines_of(text@.take(boundary_index(text@, line_start as int) as int))) is Some,
{
    let cs = chars_of(text);
    let k = char_index(&cs, line_start);
    proof {
        crate::lsp::convert::lemma_boundary_index_bound(cs@, line_start as int);
    }
    let before = slice_chars(&cs, 0, k);
    proof {
        assert(before@ =~= cs@.take(k as int));
    }
    let ls = lines(&before);
    let ghost all = lines_of(before@);
    let mut escape: Option<usize> = None;
    let mut i: usize = 0;
    while i < ls.len()
        invariant
            i <= ls.len(),
            ls@.len() == all.len(),
            forall|m: int| 0 <= m < ls@.len() ==> #[trigger] ls@[m]@ == all[m],
            match (escape, escape_open(all.take(i as int))) {
                (Some(a), Some(b)) => a == b,
                (None, None) => true,
                _ => false,
            },
        decreases ls.len() - i,
    {
        let t = trim_chars(&ls[i]);
        proof {
            assert(all.take(i + 1).drop_last() =~= all.take(i as int));
            assert(ls@[i as int]@ == all[i as int]);
        }
        if t.len() > 0 && all_backslashes(&t) {
            escape = match escape {
                Some(open) => if t.len() == open {
                    None
                } else {
                    Some(open)
                },
                None => Some(t.len()),
            };
        }
        i = i + 1;
    }
    proof {
        assert(all.take(i as int) =~= all);
    }
    escape.is_some()
}

/// How many spaces and tabs a line begins with.
pub open spec fn indent_of(cs: Seq<char>) -> nat
    decreases cs.len(),
{
    if cs.len() > 0 && (cs[0] == ' ' || cs[0] == '\t') {
        1 + indent_of(cs.drop_first())
    } else {
        0
    }
}

pub fn indent_from(cs: &[char], from: usize) -> (n: usize)
    requires
        from <= cs.len(),
    ensures
        n == indent_of(cs@.subrange(from as int, cs@.len() as int)),
{
    let mut i = from;
    while i < cs.len() && (cs[i] == ' ' || cs[i] == '\t')
        invariant
            from <= i <= cs.len(),
            indent_of(cs@.subrange(from as int, cs@.len() as int)) == (i - from) + indent_of(
                cs@.subrange(i as int, cs@.len() as int),
            ),
        decreases cs.len() - i,
    {
        assert(cs@.subrange(i as int, cs@.len() as int).drop_first() =~= cs@.subrange(
            i + 1,
            cs@.len() as int,
        ));
        i = i + 1;
    }
    i - from
}

/// The width of a line's indentation: its leading spaces and tabs, a byte
/// each.
pub fn indent_width(line: &str) -> (n: usize)
    ensures
        n == indent_of(line@),
{
    let cs = chars_of(line);
    assert(cs@.subrange(0, cs@.len() as int) =~= cs@);
    indent_from(&cs, 0)
}

/// The start of the line holding index `k`.
pub fn line_start_of(cs: &[char], k: usize) -> (s: usize)
    requires
        k <= cs.len(),
    ensures
        s == line_begin(cs@, k as int),
{
    let mut j = k;
    while j > 0 && cs[j - 1] != '\n'
        invariant
            j <= k <= cs.len(),
            line_begin(cs@, j as int) == line_begin(cs@, k as int),
        decreases j,
    {
        j = j - 1;
    }
    j
}

/// The byte offset of character index `i`.
pub fn bytes_before(cs: &[char], i: usize) -> (n: usize)
    requires
        i <= cs.len(),
        byte_len(cs@) <= usize::MAX,
    ensures
        n == byte_len(cs@.take(i as int)),
{
    let mut j: usize = 0;
    let mut n: usize = 0;
    proof {
        assert(cs@.take(0) =~= Seq::<char>::empty());
        assert(cs@.take(cs@.len() as int) =~= cs@);
    }
    while j < i
        invariant
            j <= i <= cs.len(),
            n == byte_len(cs@.take(j as int)),
            byte_len(cs@) <= usize::MAX,
            cs@.take(cs@.len() as int) == cs@,
        decreases i - j,
    {
        proof {
            crate::lsp::convert::lemma_take_step(cs@, j as int);
            crate::lsp::convert::lemma_byte_len_prefix_mono(cs@, j + 1, cs@.len() as int);
        }
        n = n + len_utf8(cs[j]);
        j = j + 1;
    }
    n
}

/// The key a more-indented line belongs to, searching the lines above the one
/// ending at index `end`: the first less-indented line with something on it
/// decides, whether or not it turns out to be a key. With the key comes the
/// index of its first character.
pub open spec fn enclosing_from(cs: Seq<char>, end: int, indent: nat) -> Option<(Seq<char>, int)>
    decreases end,
{
    if end <= 0 || end > cs.len() {
        None
    } else {
        let start = line_begin(cs, end - 1);
        let line = cs.subrange(start, end - 1);
        if trim(line).len() == 0 || indent_of(line) >= indent {
            if 0 <= start < end {
                enclosing_from(cs, start, indent)
            } else {
                None
            }
        } else {
            match split_key_of(trim_start(line)) {
                Some((key, _)) => Some((key, start + indent_of(line))),
                None => None,
            }
        }
    }
}

proof fn lemma_indent_prefix(cs: Seq<char>)
    ensures
        indent_of(cs) <= cs.len(),
        trim_start(cs) == trim_start(cs.skip(indent_of(cs) as int)),
    decreases cs.len(),
{
    if cs.len() > 0 && (cs[0] == ' ' || cs[0] == '\t') {
        lemma_indent_prefix(cs.drop_first());
        assert(cs.drop_first().skip(indent_of(cs.drop_first()) as int) =~= cs.skip(indent_of(cs) as int));
    } else {
        assert(cs.skip(0) =~= cs);
    }
}

/// The key a more-indented line belongs to, and the byte offset of the key on
/// the line it is written on. `line_start` is where the line begins; the byte
/// before it is the end of the line above.
pub fn enclosing_key(text: &str, line_start: usize) -> (r: Option<(String, usize)>)
    requires
        line_start <= byte_len(text@),
        on_boundary(text@, line_start as int),
        line_start == 0 || utf8_width(text@[boundary_index(text@, line_start as int) - 1]) == 1,
    ensures
        ({
            let k = boundary_index(text@, line_start as int) as int;
            match (r, enclosing_from(text@, k, indent_of(text@.skip(k)))) {
                (Some((key, offset)), Some((name, at))) => key@ == name && offset == byte_len(
                    text@.take(at),
                ),
                (None, None) => true,
                _ => false,
            }
        }),
{
    let cs = chars_of(text);
    let total = crate::text::str_len(text);
    let k = char_index(&cs, line_start);
    proof {
        crate::lsp::convert::lemma_boundary_index_bound(cs@, line_start as int);
        assert(cs@.subrange(k as int, cs@.len() as int) =~= cs@.skip(k as int));
    }
    let indent = indent_from(&cs, k);
    let mut end = k;
    while end > 0
        invariant
            end <= k <= cs.len(),
            cs@ == text@,
            k == boundary_index(text@, line_start as int),
            total == byte_len(cs@),
            indent == indent_of(cs@.skip(k as int)),
            enclosing_from(cs@, end as int, indent as nat) == enclosing_from(cs@, k as int, indent as nat),
        decreases end,
    {
        let start = line_start_of(&cs, end - 1);
        proof {
            crate::lsp::convert::lemma_line_begin_facts(cs@, end - 1);
        }
        let line = slice_chars(&cs, start, end - 1);
        let t = trim_chars(&line);
        let li = indent_from(&line, 0);
        proof {
            assert(line@.subrange(0, line@.len() as int) =~= line@);
        }
        if t.len() == 0 || li >= indent {
            end = start;
        } else {
            let ts = skip_spaces(&line, 0);
            let tl = slice_chars(&line, ts, line.len());
            proof {
                lemma_indent_prefix(line@);
                assert(tl@ == trim_start(line@));
                assert(enclosing_from(cs@, end as int, indent as nat) == match split_key_of(tl@) {
                    Some((key, _)) => Some((key, start + indent_of(line@))),
                    None => None,
                });
            }
            return match split_key(&tl) {
                Some((key, _)) => {
                    let at = bytes_before(&cs, start + li);
                    Some((string_of(&key), at))
                },
                None => None,
            };
        }
    }
    None
}

// ---- the word being replaced ---------------------------------------------------------

/// A character of a name.
pub open spec fn name_char(c: char) -> bool {
    alphanumeric(c) || c == '_' || c == '-'
}

/// Whether `c` belongs to the word being completed in a line of this class.
/// A path carries `@`, `/` and `.`; `*` is a name of its own in an import
/// list; inside an interpolation the sigil and a dot end the name; elsewhere
/// `@` and `#` are half-written sigils.
pub open spec fn in_word(ctx: ContextView, c: char) -> bool {
    match ctx {
        ContextView::Expression { .. } => name_char(c),
        ContextView::ModulePath => !is_space(c),
        ContextView::ImportName { .. } => name_char(c) || c == '*',
        _ => name_char(c) || c == '@' || c == '#',
    }
}

/// Where the word ending at index `k` begins.
pub open spec fn word_start(ctx: ContextView, cs: Seq<char>, k: int) -> int
    decreases k,
{
    if k <= 0 || k > cs.len() || !in_word(ctx, cs[k - 1]) {
        k
    } else {
        word_start(ctx, cs, k - 1)
    }
}

/// Where an edit replacing the word before index `k` begins: `-` never begins
/// a name, so a word starting with one is the marker of a list item, and the
/// marker stays.
pub open spec fn replace_from(ctx: ContextView, cs: Seq<char>, k: int) -> int {
    let s = word_start(ctx, cs, k);
    if s < k && cs[s] == '-' {
        s + 1
    } else {
        s
    }
}

fn word_char(context: &Context, c: char) -> (r: bool)
    ensures
        r == in_word(context@, c),
{
    let name = is_alphanumeric(c) || c == '_' || c == '-';
    match context {
        Context::Expression { .. } => name,
        Context::ModulePath => !is_whitespace(c),
        Context::ImportName { .. } => name || c == '*',
        _ => name || c == '@' || c == '#',
    }
}

/// The byte offset where a completion edit begins: the start of the word
/// under the cursor, as the line's class reads words.
pub fn replace_start(context: &Context, text: &str, cursor: usize) -> (r: usize)
    requires
        cursor <= byte_len(text@),
        on_boundary(text@, cursor as int),
    ensures
        r == byte_len(text@.take(replace_from(context@, text@, boundary_index(text@, cursor as int) as int))),
{
    let cs = chars_of(text);
    let k = char_index(&cs, cursor);
    proof {
        crate::lsp::convert::lemma_boundary_index_bound(cs@, cursor as int);
        if cursor as int == byte_len(cs@) {
            crate::lsp::convert::lemma_boundary_index(cs@, cursor as int, cs@.len() as int);
            assert(cs@.take(cs@.len() as int) =~= cs@);
        }
    }
    let mut j = k;
    let mut bytes = cursor;
    while j > 0 && word_char(context, cs[j - 1])
        invariant
            j <= k <= cs.len(),
            bytes == byte_len(cs@.take(j as int)),
            word_start(context@, cs@, j as int) == word_start(context@, cs@, k as int),
        decreases j,
    {
        proof {
            crate::lsp::convert::lemma_take_step(cs@, j - 1);
        }
        bytes = bytes - len_utf8(cs[j - 1]);
        j = j - 1;
    }
    if j < k && cs[j] == '-' {
        proof {
            crate::lsp::convert::lemma_take_step(cs@, j as int);
            crate::lsp::convert::lemma_byte_len_prefix_mono(cs@, j + 1, k as int);
        }
        bytes = bytes + 1;
    }
    bytes
}


// ---- where a line sits ------------------------------------------------------------------

/// Searching up through `ls` from line `j`: whether the first line above with
/// something on it and less indentation than `indent` is itself indented.
pub open spec fn nested_from(ls: Seq<Seq<char>>, j: int, indent: nat) -> bool
    decreases j,
{
    if j <= 0 || j > ls.len() {
        false
    } else {
        let line = ls[j - 1];
        if trim(line).len() == 0 || indent_of(line) >= indent {
            nested_from(ls, j - 1, indent)
        } else {
            indent_of(line) > 0
        }
    }
}

/// Whether the line holding byte `offset` sits inside a property's dictionary
/// rather than directly in an anchor body: the first less-indented line above
/// is a key, which is indented, or a declaration, which is not.
pub fn in_nested_block(text: &str, offset: usize) -> (r: bool)
    requires
        offset <= byte_len(text@),
        on_boundary(text@, offset as int),
    ensures
        ({
            let k = line_begin(text@, boundary_index(text@, offset as int) as int);
            let above = lines_of(text@.take(k));
            r == nested_from(above, above.len() as int, indent_of(text@.skip(k)))
        }),
{
    let cs = chars_of(text);
    let k0 = char_index(&cs, offset);
    proof {
        crate::lsp::convert::lemma_boundary_index_bound(cs@, offset as int);
    }
    let k = line_start_of(&cs, k0);
    proof {
        crate::lsp::convert::lemma_line_begin_facts(cs@, k0 as int);
        assert(cs@.subrange(k as int, cs@.len() as int) =~= cs@.skip(k as int));
    }
    let indent = indent_from(&cs, k);
    let before = slice_chars(&cs, 0, k);
    proof {
        assert(before@ =~= cs@.take(k as int));
    }
    let ls = lines(&before);
    let ghost all = lines_of(before@);
    let mut j = ls.len();
    while j > 0
        invariant
            j <= ls.len(),
            ls@.len() == all.len(),
            forall|m: int| 0 <= m < ls@.len() ==> #[trigger] ls@[m]@ == all[m],
            nested_from(all, j as int, indent as nat) == nested_from(all, all.len() as int, indent as nat),
            cs@ == text@,
            k == line_begin(text@, boundary_index(text@, offset as int) as int),
            indent == indent_of(text@.skip(k as int)),
            all == lines_of(text@.take(k as int)),
        decreases j,
    {
        let line = &ls[j - 1];
        proof {
            assert(ls@[j - 1]@ == all[j - 1]);
            assert(line@.subrange(0, line@.len() as int) =~= line@);
        }
        let t = trim_chars(line);
        let width = indent_from(line, 0);
        if t.len() == 0 || width >= indent {
            j = j - 1;
        } else {
            return width > 0;
        }
    }
    false
}

/// A line break at `p` followed, before `end`, by a line that starts at
/// column zero with something other than whitespace.
pub open spec fn margin_line_at(cs: Seq<char>, p: int, end: int) -> bool {
    p + 1 < end && cs[p] == '\n' && cs[p + 1] != '\n' && cs[p + 1] != ' ' && cs[p + 1] != '\t'
}

/// Whether any line between two offsets, after the first, starts at column
/// zero with something other than whitespace.
pub fn returns_to_column_zero(text: &str, from: usize, to: usize) -> (r: bool)
    requires
        to <= byte_len(text@),
        on_boundary(text@, from as int),
        on_boundary(text@, to as int),
    ensures
        ({
            let f = if from < to { from as int } else { to as int };
            let a = boundary_index(text@, f) as int;
            let b = boundary_index(text@, to as int) as int;
            r == exists|p: int| a <= p && #[trigger] margin_line_at(text@, p, b)
        }),
{
    let cs = chars_of(text);
    let f = if from < to {
        from
    } else {
        to
    };
    let a = char_index(&cs, f);
    let b = char_index(&cs, to);
    proof {
        crate::lsp::convert::lemma_boundary_index_bound(cs@, to as int);
        crate::fmt::lemma_boundary_mono(cs@, f as int, to as int);
    }
    let mut p = a;
    while p < b && b - p > 1
        invariant
            a <= p <= b <= cs.len(),
            cs@ == text@,
            f == (if from < to { from } else { to }),
            a == boundary_index(text@, f as int),
            b == boundary_index(text@, to as int),
            forall|q: int| a <= q < p ==> !#[trigger] margin_line_at(cs@, q, b as int),
        decreases b - p,
    {
        if cs[p] == '\n' && cs[p + 1] != '\n' && cs[p + 1] != ' ' && cs[p + 1] != '\t' {
            proof {
                let fi = if from < to { from as int } else { to as int };
                let bi = boundary_index(text@, to as int) as int;
                assert(b as int == bi);
                assert(margin_line_at(text@, p as int, bi));
                assert(boundary_index(text@, fi) as int <= p);
            }
            return true;
        }
        p = p + 1;
    }
    assert forall|q: int| a <= q implies !#[trigger] margin_line_at(cs@, q, b as int) by {
        if q < p {
        }
    }
    false
}

/// A text cut to at most `limit` characters: whole but without its trailing
/// whitespace when it fits, else its first `limit` characters and an ellipsis
/// on a line of its own.
pub open spec fn truncated(cs: Seq<char>, limit: nat) -> Seq<char> {
    if cs.len() <= limit {
        crate::text::trim_end(cs)
    } else {
        cs.take(limit as int) + seq!['\n', '\u{2026}']
    }
}

/// Cuts a preview down to at most `limit` characters.
pub fn truncate(text: &str, limit: usize) -> (out: String)
    ensures
        out@ == truncated(text@, limit as nat),
{
    let cs = chars_of(text);
    if cs.len() <= limit {
        let end = end_of_text(&cs, 0);
        proof {
            assert(cs@.subrange(0, cs@.len() as int) =~= cs@);
        }
        let kept = slice_chars(&cs, 0, end);
        return string_of(&kept);
    }
    let kept = slice_chars(&cs, 0, limit);
    let mut out = string_of(&kept);
    crate::text::push_char(&mut out, '\n');
    crate::text::push_char(&mut out, '\u{2026}');
    proof {
        assert(out@ =~= cs@.take(limit as int) + seq!['\n', '\u{2026}']);
    }
    out
}


// ---- a name for an import that says where it came from ------------------------------

/// A path without the slashes at its end.
pub open spec fn without_trailing_slashes(cs: Seq<char>) -> Seq<char>
    decreases cs.len(),
{
    if cs.len() > 0 && cs.last() == '/' {
        without_trailing_slashes(cs.drop_last())
    } else {
        cs
    }
}

/// A path without the `.pi` extensions at its end.
pub open spec fn without_extension(cs: Seq<char>) -> Seq<char>
    decreases cs.len(),
{
    if cs.len() >= 3 && cs.subrange(cs.len() - 3, cs.len() as int) == seq!['.', 'p', 'i'] {
        without_extension(cs.take(cs.len() - 3))
    } else {
        cs
    }
}

/// A segment without the `@` signs it begins with.
pub open spec fn without_at(cs: Seq<char>) -> Seq<char>
    decreases cs.len(),
{
    if cs.len() > 0 && cs[0] == '@' {
        without_at(cs.drop_first())
    } else {
        cs
    }
}

/// The segments that name a directory or file, each without its leading `@`.
pub open spec fn naming_segments(segs: Seq<Seq<char>>) -> Seq<Seq<char>>
    decreases segs.len(),
{
    if segs.len() == 0 {
        segs
    } else {
        let rest = naming_segments(segs.drop_last());
        let s = segs.last();
        if s.len() == 0 || s == seq!['.'] || s == seq!['.', '.'] {
            rest
        } else {
            rest.push(without_at(s))
        }
    }
}

/// The pieces of a text between its `-` and `_` separators.
pub open spec fn word_pieces(cs: Seq<char>) -> Seq<Seq<char>>
    decreases cs.len(),
{
    if cs.len() == 0 {
        seq![Seq::<char>::empty()]
    } else {
        let rest = word_pieces(cs.drop_last());
        if cs.last() == '-' || cs.last() == '_' {
            rest.push(Seq::<char>::empty())
        } else {
            rest.update(rest.len() - 1, rest.last().push(cs.last()))
        }
    }
}

/// A piece with its first character upper-cased.
pub open spec fn capitalized(piece: Seq<char>) -> Seq<char> {
    if piece.len() == 0 {
        piece
    } else {
        crate::text::uppercase_of(piece[0]) + piece.drop_first()
    }
}

/// The pieces capitalized and run together.
pub open spec fn camel(pieces: Seq<Seq<char>>) -> Seq<char>
    decreases pieces.len(),
{
    if pieces.len() == 0 {
        Seq::empty()
    } else {
        camel(pieces.drop_last()) + capitalized(pieces.last())
    }
}

pub open spec fn imported_word() -> Seq<char> {
    seq!['I', 'm', 'p', 'o', 'r', 't', 'e', 'd']
}

/// A local name for `name` imported from `path` that says where it came
/// from: the last directory or file the path names (not `index`, and not the
/// name itself), capitalized at each `-` or `_`, then the name.
pub open spec fn qualified_alias_of(path: Seq<char>, name: Seq<char>) -> Seq<char> {
    let all = naming_segments(crate::path::segments(without_extension(without_trailing_slashes(path))));
    let parts = if all.len() > 0 && all.last() == seq!['i', 'n', 'd', 'e', 'x'] {
        all.drop_last()
    } else {
        all
    };
    let stem = if parts.len() > 0 { parts.last() } else { imported_word() };
    let rest = if parts.len() > 0 { parts.drop_last() } else { parts };
    let chosen = if stem == name {
        if rest.len() > 0 { rest.last() } else { imported_word() }
    } else {
        stem
    };
    camel(word_pieces(chosen)) + name
}

fn last_is(cs: &Vec<char>, word: &Vec<char>) -> (r: bool)
    ensures
        r == (cs@ == word@),
{
    chars_eq(cs.as_slice(), word.as_slice())
}

/// A local name for `name` imported from `path` that says where it came
/// from: `./lib/Type` gives `LibType`, `./other` gives `OtherButton`.
pub fn qualified_alias(path: &str, name: &str) -> (alias: String)
    ensures
        alias@ == qualified_alias_of(path@, name@),
{
    let cs = chars_of(path);
    let mut end = cs.len();
    proof {
        assert(cs@.take(end as int) =~= cs@);
    }
    while end > 0 && cs[end - 1] == '/'
        invariant
            end <= cs.len(),
            without_trailing_slashes(cs@) == without_trailing_slashes(cs@.take(end as int)),
        decreases end,
    {
        proof {
            assert(cs@.take(end as int).drop_last() =~= cs@.take(end - 1));
        }
        end = end - 1;
    }
    proof {
        if end > 0 {
            assert(cs@.take(end as int).last() == cs@[end - 1]);
        }
    }
    let ghost stripped = cs@.take(end as int);
    while end >= 3 && cs[end - 3] == '.' && cs[end - 2] == 'p' && cs[end - 1] == 'i'
        invariant
            end <= cs.len(),
            without_extension(stripped) == without_extension(cs@.take(end as int)),
        decreases end,
    {
        proof {
            let t = cs@.take(end as int);
            assert(t.subrange(t.len() - 3, t.len() as int) =~= seq!['.', 'p', 'i']);
            assert(t.take(t.len() - 3) =~= cs@.take(end - 3));
        }
        end = end - 3;
    }
    proof {
        let t = cs@.take(end as int);
        if t.len() >= 3 && t.subrange(t.len() - 3, t.len() as int) == seq!['.', 'p', 'i'] {
            assert(t.subrange(t.len() - 3, t.len() as int)[0] == cs@[end - 3]);
            assert(t.subrange(t.len() - 3, t.len() as int)[1] == cs@[end - 2]);
            assert(t.subrange(t.len() - 3, t.len() as int)[2] == cs@[end - 1]);
        }
    }
    let trimmed = slice_chars(&cs, 0, end);
    proof {
        assert(trimmed@ =~= cs@.take(end as int));
    }
    // The segments between slashes, kept when they name something.
    let mut parts: Vec<Vec<char>> = Vec::new();
    let mut current: Vec<char> = Vec::new();
    let mut i: usize = 0;
    proof {
        assert(trimmed@.take(0) =~= Seq::<char>::empty());
        assert(crate::path::segments(Seq::<char>::empty()) =~= seq![Seq::<char>::empty()]);
        assert(parts@.map_values(|v: Vec<char>| v@) =~= naming_segments(Seq::<Seq<char>>::empty()));
    }
    while i < trimmed.len()
        invariant
            i <= trimmed.len(),
            crate::path::segments(trimmed@.take(i as int)).len() >= 1,
            crate::path::segments(trimmed@.take(i as int)).last() == current@,
            parts@.map_values(|v: Vec<char>| v@) == naming_segments(crate::path::segments(trimmed@.take(i as int)).drop_last()),
        decreases trimmed.len() - i,
    {
        let c = trimmed[i];
        let ghost before = crate::path::segments(trimmed@.take(i as int));
        proof {
            assert(trimmed@.take(i + 1).drop_last() =~= trimmed@.take(i as int));
        }
        if c == '/' {
            let ghost kept = parts@.map_values(|v: Vec<char>| v@);
            let keep = !(current.len() == 0 || (current.len() == 1 && current[0] == '.') || (current.len() == 2
                && current[0] == '.' && current[1] == '.'));
            proof {
                if current@ == seq!['.'] {
                    assert(current@[0] == '.');
                }
                if current@ == seq!['.', '.'] {
                    assert(current@[0] == '.' && current@[1] == '.');
                }
                if current.len() == 1 && current[0] == '.' {
                    assert(current@ =~= seq!['.']);
                }
                if current.len() == 2 && current[0] == '.' && current[1] == '.' {
                    assert(current@ =~= seq!['.', '.']);
                }
                let after = crate::path::segments(trimmed@.take(i + 1));
                assert(after == before.push(Seq::<char>::empty()));
                assert(after.drop_last() =~= before);
                assert(before =~= before.drop_last().push(current@));
            }
            if keep {
                let piece = without_leading_at(&current);
                let ghost p = piece@;
                parts.push(piece);
                proof {
                    assert(parts@.map_values(|v: Vec<char>| v@) =~= kept.push(p));
                }
            }
            current = Vec::new();
        } else {
            current.push(c);
            proof {
                let after = crate::path::segments(trimmed@.take(i + 1));
                assert(after == before.update(before.len() - 1, before.last().push(c)));
                assert(after.drop_last() =~= before.drop_last());
            }
        }
        i = i + 1;
    }
    proof {
        assert(trimmed@.take(i as int) =~= trimmed@);
        let all_segs = crate::path::segments(trimmed@);
        assert(all_segs =~= all_segs.drop_last().push(current@));
    }
    let keep_last = !(current.len() == 0 || (current.len() == 1 && current[0] == '.') || (current.len() == 2
        && current[0] == '.' && current[1] == '.'));
    proof {
        if current@ == seq!['.'] {
            assert(current@[0] == '.');
        }
        if current@ == seq!['.', '.'] {
            assert(current@[0] == '.' && current@[1] == '.');
        }
        if current.len() == 1 && current[0] == '.' {
            assert(current@ =~= seq!['.']);
        }
        if current.len() == 2 && current[0] == '.' && current[1] == '.' {
            assert(current@ =~= seq!['.', '.']);
        }
    }
    if keep_last {
        let ghost kept = parts@.map_values(|v: Vec<char>| v@);
        let piece = without_leading_at(&current);
        let ghost p = piece@;
        parts.push(piece);
        proof {
            assert(parts@.map_values(|v: Vec<char>| v@) =~= kept.push(p));
        }
    }
    let ghost all = parts@.map_values(|v: Vec<char>| v@);
    let index_word = vec!['i', 'n', 'd', 'e', 'x'];
    if parts.len() > 0 && last_is(&parts[parts.len() - 1], &index_word) {
        let _ = parts.pop();
        proof {
            assert(parts@.map_values(|v: Vec<char>| v@) =~= all.drop_last());
        }
    }
    let ghost kept_parts = parts@.map_values(|v: Vec<char>| v@);
    let imported = vec!['I', 'm', 'p', 'o', 'r', 't', 'e', 'd'];
    let name_chars = chars_of(name);
    let mut stem: Vec<char> = match parts.pop() {
        Some(s) => s,
        None => imported.clone(),
    };
    proof {
        if kept_parts.len() > 0 {
            assert(parts@.map_values(|v: Vec<char>| v@) =~= kept_parts.drop_last());
        } else {
            assert(parts@.map_values(|v: Vec<char>| v@) =~= kept_parts);
        }
    }
    if chars_eq(stem.as_slice(), name_chars.as_slice()) {
        stem = match parts.pop() {
            Some(s) => s,
            None => imported.clone(),
        };
    }
    let mut out = String::new();
    let mut k: usize = 0;
    let mut at_start = true;
    proof {
        assert(stem@.take(0) =~= Seq::<char>::empty());
        let one = seq![Seq::<char>::empty()];
        assert(word_pieces(stem@.take(0)) == one);
        assert(one.drop_last() =~= Seq::<Seq<char>>::empty());
        assert(one.last() == Seq::<char>::empty());
        assert(camel(Seq::<Seq<char>>::empty()) == Seq::<char>::empty());
        assert(capitalized(Seq::<char>::empty()) == Seq::<char>::empty());
        assert(camel(one) == camel(one.drop_last()) + capitalized(one.last()));
        assert(camel(one) =~= Seq::<char>::empty());
    }
    while k < stem.len()
        invariant
            k <= stem.len(),
            word_pieces(stem@.take(k as int)).len() >= 1,
            at_start == (word_pieces(stem@.take(k as int)).last().len() == 0),
            out@ == camel(word_pieces(stem@.take(k as int))),
        decreases stem.len() - k,
    {
        let c = stem[k];
        let ghost before = word_pieces(stem@.take(k as int));
        proof {
            assert(stem@.take(k + 1).drop_last() =~= stem@.take(k as int));
            assert(before =~= before.drop_last().push(before.last()));
        }
        if c == '-' || c == '_' {
            at_start = true;
            proof {
                let after = word_pieces(stem@.take(k + 1));
                assert(after.drop_last() =~= before);
                assert(capitalized(Seq::<char>::empty()) =~= Seq::<char>::empty());
                assert(camel(after) =~= camel(before));
            }
        } else if at_start {
            let upper = crate::text::to_uppercase(c);
            crate::text::push_chars(&mut out, &upper);
            at_start = false;
            proof {
                let after = word_pieces(stem@.take(k + 1));
                assert(after.drop_last() =~= before.drop_last());
                assert(after.last() =~= seq![c]);
                assert(capitalized(seq![c]) =~= crate::text::uppercase_of(c));
            }
        } else {
            crate::text::push_char(&mut out, c);
            proof {
                let after = word_pieces(stem@.take(k + 1));
                let piece = before.last();
                assert(after.drop_last() =~= before.drop_last());
                assert(after.last() =~= piece.push(c));
                assert(capitalized(piece.push(c)) =~= capitalized(piece).push(c));
            }
        }
        k = k + 1;
    }
    proof {
        assert(stem@.take(k as int) =~= stem@);
    }
    crate::text::push_chars(&mut out, &name_chars);
    out
}

/// A segment without the `@` signs it begins with.
fn without_leading_at(cs: &Vec<char>) -> (out: Vec<char>)
    ensures
        out@ == without_at(cs@),
{
    let mut i: usize = 0;
    proof {
        assert(cs@.subrange(0, cs@.len() as int) =~= cs@);
    }
    while i < cs.len() && cs[i] == '@'
        invariant
            i <= cs.len(),
            without_at(cs@) == without_at(cs@.subrange(i as int, cs@.len() as int)),
        decreases cs.len() - i,
    {
        proof {
            assert(cs@.subrange(i as int, cs@.len() as int).drop_first() =~= cs@.subrange(i + 1, cs@.len() as int));
        }
        i = i + 1;
    }
    slice_chars(cs, i, cs.len())
}

// ---- workspace symbols ------------------------------------------------------------------

/// Whether a workspace symbol search for `query` lists a symbol named `name`
/// that is declared in the module at `declared_in`: never one of a package
/// module (its path starts with `@`); otherwise when every character of the
/// query appears in the name, in order, ignoring case.
pub open spec fn listed_by(query: Seq<char>, name: Seq<char>, declared_in: Seq<char>) -> bool {
    &&& !(declared_in.len() > 0 && declared_in[0] == '@')
    &&& crate::lsp::navigation::in_order(crate::lsp::navigation::lowered(query), crate::lsp::navigation::lowered(name))
}

/// Whether a workspace symbol search for `query` lists a symbol named `name`
/// declared in the module at `declared_in`.
pub fn symbol_listed(query: &str, name: &str, declared_in: &str) -> (r: bool)
    ensures
        r == listed_by(query@, name@, declared_in@),
{
    let path = chars_of(declared_in);
    if path.len() > 0 && path[0] == '@' {
        return false;
    }
    crate::lsp::navigation::matches_query(query, name)
}

/// A `//` at the start of what was written, or after whitespace, begins a
/// comment, whatever follows it.
pub proof fn lemma_comment_begins(before: Seq<char>, rest: Seq<char>)
    requires
        before.len() == 0 || is_space(before.last()),
    ensures
        has_comment(before + seq!['/', '/'] + rest),
{
    let cs = before + seq!['/', '/'] + rest;
    let i = before.len() as int;
    assert(cs[i] == '/' && cs[i + 1] == '/');
    if i > 0 {
        assert(cs[i - 1] == before.last());
    }
    assert(comment_at(cs, i));
}

/// Where no `//` is written, no comment has begun.
pub proof fn lemma_no_slashes_no_comment(cs: Seq<char>)
    requires
        forall|i: int| 0 <= i < cs.len() - 1 ==> !(#[trigger] cs[i] == '/' && cs[i + 1] == '/'),
    ensures
        !has_comment(cs),
{
    assert forall|i: int| !comment_at(cs, i) by {
        if 0 <= i && i + 1 < cs.len() {
            assert(!(cs[i] == '/' && cs[i + 1] == '/'));
        }
    }
}

} // verus!
