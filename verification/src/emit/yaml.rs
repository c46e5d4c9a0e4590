//! YAML serialization.
//!
//! The value model maps onto YAML directly. Scalars are quoted only when
//! leaving them bare would change how YAML reads them, which keeps prose
//! readable while staying unambiguous.
use vstd::prelude::*;

use crate::emit::ascii_lowercase;
use crate::emit::json::{deeper, deeper_pad, on_stack};
use crate::emit::value::{
    anchors_known, entries_known, lemma_stack_room, names_known, stack_ok, AnchorInfo, Value,
};
use crate::text::{
    chars_eq, chars_of, flat_map, is_whitespace, lines, lines_of, push_char, push_chars, push_str,
    trim_start,
};

verus! {

/// The characters a bare YAML scalar may not start with.
pub open spec fn yaml_indicator(c: char) -> bool {
    c == '-' || c == '?' || c == ':' || c == ',' || c == '[' || c == ']' || c == '{' || c == '}'
        || c == '#' || c == '&' || c == '*' || c == '!' || c == '|' || c == '>' || c == '\''
        || c == '"' || c == '%' || c == '@' || c == '`'
}

/// Whether `b` appears in `a` as a contiguous run.
pub open spec fn contains_run(a: Seq<char>, b: Seq<char>) -> bool {
    exists|i: int| 0 <= i <= a.len() - b.len() && #[trigger] a.subrange(i, i + b.len()) == b
}

/// Only decimal digits.
pub open spec fn all_digits(cs: Seq<char>) -> bool {
    forall|i: int| 0 <= i < cs.len() ==> crate::text::is_digit(#[trigger] cs[i])
}

/// The part before an exponent: digits with at most one `.`, and at least one
/// digit.
pub open spec fn is_mantissa(cs: Seq<char>) -> bool {
    (cs.len() > 0 && all_digits(cs)) || (exists|d: int|
        0 <= d < cs.len() && cs[d] == '.' && #[trigger] all_digits(cs.take(d)) && all_digits(
            cs.skip(d + 1),
        ) && cs.len() > 1)
}

/// An exponent after its `e`: an optional sign, then digits.
pub open spec fn is_exponent(cs: Seq<char>) -> bool {
    (cs.len() > 0 && all_digits(cs)) || (cs.len() > 1 && (cs[0] == '+' || cs[0] == '-')
        && all_digits(cs.drop_first()))
}

/// A number as `f64::from_str` reads one, after its sign: a mantissa, then
/// optionally `e` or `E` and an exponent.
pub open spec fn is_number(cs: Seq<char>) -> bool {
    ||| (forall|i: int| 0 <= i < cs.len() ==> cs[i] != 'e' && cs[i] != 'E') && is_mantissa(cs)
    ||| exists|m: int|
        0 <= m < cs.len() && (cs[m] == 'e' || cs[m] == 'E') && #[trigger] is_mantissa(cs.take(m))
            && is_exponent(cs.skip(m + 1))
}

/// Whether `f64::from_str` accepts the text: an optional sign, then `inf`,
/// `infinity`, or `nan` in any case, or a number.
pub open spec fn parses_as_float(cs: Seq<char>) -> bool {
    let body = if cs.len() > 0 && (cs[0] == '+' || cs[0] == '-') {
        cs.drop_first()
    } else {
        cs
    };
    ascii_lowercase(body) == "inf"@ || ascii_lowercase(body) == "infinity"@ || ascii_lowercase(body)
        == "nan"@ || is_number(body)
}

/// The words YAML reads as a boolean or null, in lower case: in any case
/// (`True`, `NULL`, `Off`) the bare word would not be read as text.
pub open spec fn yaml_word(lower: Seq<char>) -> bool {
    lower == "true"@ || lower == "false"@ || lower == "null"@ || lower == "yes"@ || lower == "no"@
        || lower == "on"@ || lower == "off"@
}

/// Whether a scalar must be quoted for YAML to read it back as the same text.
pub open spec fn yaml_needs_quotes(t: Seq<char>) -> bool {
    ||| t.len() == 0
    ||| t.contains('\n')
    ||| t[0] == ' '
    ||| t.last() == ' '
    ||| yaml_indicator(t[0])
    ||| contains_run(t, ": "@)
    ||| t.last() == ':'
    ||| contains_run(t, " #"@)
    ||| yaml_word(ascii_lowercase(t))
    ||| t == "~"@
    ||| parses_as_float(t)
}

/// How a double-quoted YAML scalar writes one character.
pub open spec fn yaml_escape(c: char) -> Seq<char> {
    if c == '"' {
        seq!['\\', '"']
    } else if c == '\\' {
        seq!['\\', '\\']
    } else if c == '\n' {
        seq!['\\', 'n']
    } else if c == '\r' {
        seq!['\\', 'r']
    } else if c == '\t' {
        seq!['\\', 't']
    } else {
        seq![c]
    }
}

/// A scalar as YAML writes it.
pub open spec fn yaml_scalar(t: Seq<char>) -> Seq<char> {
    if yaml_needs_quotes(t) {
        seq!['"'] + flat_map(t, |c: char| yaml_escape(c)) + seq!['"']
    } else {
        t
    }
}

fn all_digits_between(cs: &[char], from: usize, to: usize) -> (r: bool)
    requires
        from <= to <= cs.len(),
    ensures
        r == all_digits(cs@.subrange(from as int, to as int)),
{
    let mut i = from;
    while i < to
        invariant
            from <= i <= to <= cs.len(),
            forall|k: int| from <= k < i ==> crate::text::is_digit(cs@[k]),
        decreases to - i,
    {
        if !('0' <= cs[i] && cs[i] <= '9') {
            assert(cs@.subrange(from as int, to as int)[i - from] == cs@[i as int]);
            return false;
        }
        i = i + 1;
    }
    assert forall|k: int| 0 <= k < to - from implies crate::text::is_digit(
        #[trigger] cs@.subrange(from as int, to as int)[k],
    ) by {
        assert(cs@.subrange(from as int, to as int)[k] == cs@[from + k]);
    }
    true
}

fn mantissa_between(cs: &[char], from: usize, to: usize) -> (r: bool)
    requires
        from <= to <= cs.len(),
    ensures
        r == is_mantissa(cs@.subrange(from as int, to as int)),
{
    let ghost m = cs@.subrange(from as int, to as int);
    let mut dot = from;
    while dot < to && cs[dot] != '.'
        invariant
            from <= dot <= to <= cs.len(),
            forall|k: int| from <= k < dot ==> cs@[k] != '.',
        decreases to - dot,
    {
        dot = dot + 1;
    }
    if dot == to {
        let digits = all_digits_between(cs, from, to);
        proof {
            if !digits && is_mantissa(m) {
                let d = choose|d: int|
                    0 <= d < m.len() && m[d] == '.' && #[trigger] all_digits(m.take(d)) && all_digits(
                        m.skip(d + 1),
                    ) && m.len() > 1;
                assert(m[d] == cs@[from + d]);
            }
        }
        to > from && digits
    } else {
        let left = all_digits_between(cs, from, dot);
        let right = all_digits_between(cs, dot + 1, to);
        proof {
            let d = dot - from;
            assert(m.take(d) =~= cs@.subrange(from as int, dot as int));
            assert(m.skip(d + 1) =~= cs@.subrange(dot + 1, to as int));
            assert(m[d] == '.');
            if is_mantissa(m) && !(left && right) {
                if m.len() > 0 && all_digits(m) {
                    assert(crate::text::is_digit(m[d]));
                } else {
                    let e = choose|e: int|
                        0 <= e < m.len() && m[e] == '.' && #[trigger] all_digits(m.take(e))
                            && all_digits(m.skip(e + 1)) && m.len() > 1;
                    if e < d {
                        assert(m[e] == cs@[from + e]);
                    } else if e > d {
                        assert(m.take(e)[d] == m[d]);
                        assert(crate::text::is_digit(m.take(e)[d]));
                    }
                }
            }
        }
        left && right && to - from > 1
    }
}

fn exponent_between(cs: &[char], from: usize, to: usize) -> (r: bool)
    requires
        from <= to <= cs.len(),
    ensures
        r == is_exponent(cs@.subrange(from as int, to as int)),
{
    let ghost x = cs@.subrange(from as int, to as int);
    if from < to && (cs[from] == '+' || cs[from] == '-') {
        let digits = all_digits_between(cs, from + 1, to);
        proof {
            assert(x.drop_first() =~= cs@.subrange(from + 1, to as int));
            assert(x[0] == cs@[from as int]);
            assert(!crate::text::is_digit(x[0]));
        }
        to - from > 1 && digits
    } else {
        let digits = all_digits_between(cs, from, to);
        proof {
            if from < to {
                assert(x[0] == cs@[from as int]);
            }
        }
        from < to && digits
    }
}

/// Whether `f64::from_str` would accept `cs[from..]`.
#[verifier::rlimit(60)]
fn parses_as_float_exec(cs: &[char]) -> (r: bool)
    ensures
        r == parses_as_float(cs@),
{
    let start: usize = if cs.len() > 0 && (cs[0] == '+' || cs[0] == '-') { 1 } else { 0 };
    let ghost body = cs@.subrange(start as int, cs@.len() as int);
    proof {
        if start == 1 {
            assert(body =~= cs@.drop_first());
        } else {
            assert(body =~= cs@);
        }
    }
    let mut lower: Vec<char> = Vec::new();
    let mut i = start;
    while i < cs.len()
        invariant
            start <= i <= cs.len(),
            lower@ == ascii_lowercase(cs@.subrange(start as int, i as int)),
        decreases cs.len() - i,
    {
        let c = cs[i];
        lower.push(if 'A' <= c && c <= 'Z' { ((c as u8) + 32) as char } else { c });
        i = i + 1;
        assert(lower@ =~= ascii_lowercase(cs@.subrange(start as int, i as int)));
    }
    let inf = chars_of("inf");
    let infinity = chars_of("infinity");
    let nan = chars_of("nan");
    if chars_eq(&lower, &inf) || chars_eq(&lower, &infinity) || chars_eq(&lower, &nan) {
        return true;
    }
    let mut e = start;
    while e < cs.len() && cs[e] != 'e' && cs[e] != 'E'
        invariant
            start <= e <= cs.len(),
            forall|k: int| start <= k < e ==> cs@[k] != 'e' && cs@[k] != 'E',
        decreases cs.len() - e,
    {
        e = e + 1;
    }
    if e == cs.len() {
        let r = mantissa_between(cs, start, e);
        proof {
            if is_number(body) && !r {
                let m = choose|m: int|
                    0 <= m < body.len() && (body[m] == 'e' || body[m] == 'E') && #[trigger] is_mantissa(
                        body.take(m),
                    ) && is_exponent(body.skip(m + 1));
                assert(body[m] == cs@[start + m]);
            }
        }
        r
    } else {
        let left = mantissa_between(cs, start, e);
        let right = exponent_between(cs, e + 1, cs.len());
        proof {
            let m = e - start;
            assert(body.take(m) =~= cs@.subrange(start as int, e as int));
            assert(body.skip(m + 1) =~= cs@.subrange(e + 1, cs@.len() as int));
            assert(body[m] == cs@[e as int]);
            if is_number(body) && !(left && right) {
                if forall|i: int| 0 <= i < body.len() ==> body[i] != 'e' && body[i] != 'E' {
                    assert(body[m] != 'e');
                } else {
                    let n = choose|n: int|
                        0 <= n < body.len() && (body[n] == 'e' || body[n] == 'E') && #[trigger] is_mantissa(
                            body.take(n),
                        ) && is_exponent(body.skip(n + 1));
                    if n < m {
                        assert(body[n] == cs@[start + n]);
                    } else if n > m {
                        // the mantissa before `n` would hold the `e` at `m`
                        let t = body.take(n);
                        assert(t[m] == body[m]);
                        if t.len() > 0 && all_digits(t) {
                            assert(crate::text::is_digit(t[m]));
                        } else {
                            let d = choose|d: int|
                                0 <= d < t.len() && t[d] == '.' && #[trigger] all_digits(t.take(d))
                                    && all_digits(t.skip(d + 1)) && t.len() > 1;
                            if m < d {
                                assert(t.take(d)[m] == t[m]);
                                assert(crate::text::is_digit(t.take(d)[m]));
                            } else if m > d {
                                assert(t.skip(d + 1)[m - d - 1] == t[m]);
                                assert(crate::text::is_digit(t.skip(d + 1)[m - d - 1]));
                            }
                        }
                    }
                }
            }
            if left && right {
                assert(is_number(body));
            }
        }
        left && right
    }
}


/// Whether the two characters `a` then `b` appear next to each other.
fn has_pair(cs: &[char], a: char, b: char) -> (r: bool)
    ensures
        r == contains_run(cs@, seq![a, b]),
{
    let mut i: usize = 0;
    while i < cs.len() && i + 1 < cs.len()
        invariant
            i <= cs.len(),
            forall|k: int| 0 <= k < i && k + 1 < cs.len() ==> !(#[trigger] cs@[k] == a && cs@[k + 1] == b),
        decreases cs.len() - i,
    {
        if cs[i] == a && cs[i + 1] == b {
            assert(cs@.subrange(i as int, i + 2) =~= seq![a, b]);
            return true;
        }
        i = i + 1;
    }
    proof {
        if contains_run(cs@, seq![a, b]) {
            let k = choose|k: int| 0 <= k <= cs@.len() - 2 && #[trigger] cs@.subrange(k, k + 2) == seq![a, b];
            assert(cs@.subrange(k, k + 2)[0] == cs@[k]);
            assert(cs@.subrange(k, k + 2)[1] == cs@[k + 1]);
        }
    }
    false
}

fn is_word(cs: &[char], word: &str) -> (r: bool)
    ensures
        r == (cs@ == word@),
{
    let w = chars_of(word);
    chars_eq(cs, &w)
}

fn lowered_ascii(cs: &[char]) -> (out: Vec<char>)
    ensures
        out@ == ascii_lowercase(cs@),
{
    let mut out: Vec<char> = Vec::new();
    let mut i: usize = 0;
    while i < cs.len()
        invariant
            i <= cs.len(),
            out@ == ascii_lowercase(cs@.take(i as int)),
        decreases cs.len() - i,
    {
        let c = cs[i];
        out.push(if 'A' <= c && c <= 'Z' { ((c as u8) + 32) as char } else { c });
        i = i + 1;
        assert(out@ =~= ascii_lowercase(cs@.take(i as int)));
    }
    assert(cs@.take(i as int) =~= cs@);
    out
}

/// Whether a scalar must be quoted for YAML to read it back as the same text.
pub fn yaml_quoting_needed(cs: &[char]) -> (r: bool)
    ensures
        r == yaml_needs_quotes(cs@),
{
    if cs.len() == 0 {
        return true;
    }
    let mut newline = false;
    let mut i: usize = 0;
    while i < cs.len()
        invariant
            i <= cs.len(),
            newline == (exists|k: int| 0 <= k < i && cs@[k] == '\n'),
        decreases cs.len() - i,
    {
        if cs[i] == '\n' {
            newline = true;
        }
        i = i + 1;
    }
    let first = cs[0];
    let last = cs[cs.len() - 1];
    let indicator = first == '-' || first == '?' || first == ':' || first == ',' || first == '['
        || first == ']' || first == '{' || first == '}' || first == '#' || first == '&' || first
        == '*' || first == '!' || first == '|' || first == '>' || first == '\'' || first == '"'
        || first == '%' || first == '@' || first == '`';
    let colon_space = has_pair(cs, ':', ' ');
    let space_hash = has_pair(cs, ' ', '#');
    let lower = lowered_ascii(cs);
    let word = is_word(&lower, "true") || is_word(&lower, "false") || is_word(&lower, "null") || is_word(
        &lower,
        "yes",
    ) || is_word(&lower, "no") || is_word(&lower, "on") || is_word(&lower, "off") || is_word(cs, "~");
    let float = parses_as_float_exec(cs);
    proof {
        reveal_strlit(": ");
        reveal_strlit(" #");
        assert(": "@ =~= seq![':', ' ']);
        assert(" #"@ =~= seq![' ', '#']);
        if newline {
            let k = choose|k: int| 0 <= k < i && cs@[k] == '\n';
            assert(cs@.contains('\n'));
        }
    }
    newline || first == ' ' || last == ' ' || indicator || colon_space || last == ':' || space_hash
        || word || float
}

/// Quotes a scalar, using a double-quoted form when the bare text would be
/// ambiguous or would not survive a round trip.
pub fn quote(text: &str) -> (quoted: String)
    ensures
        quoted@ == yaml_scalar(text@),
{
    let cs = chars_of(text);
    if !yaml_quoting_needed(&cs) {
        return crate::text::string_of(&cs);
    }
    let mut out = String::new();
    push_char(&mut out, '"');
    let mut i: usize = 0;
    while i < cs.len()
        invariant
            i <= cs.len(),
            cs@ == text@,
            out@ == seq!['"'] + flat_map(cs@.take(i as int), |c: char| yaml_escape(c)),
        decreases cs.len() - i,
    {
        let c = cs[i];
        if c == '"' {
            push_str(&mut out, "\\\"");
        } else if c == '\\' {
            push_str(&mut out, "\\\\");
        } else if c == '\n' {
            push_str(&mut out, "\\n");
        } else if c == '\r' {
            push_str(&mut out, "\\r");
        } else if c == '\t' {
            push_str(&mut out, "\\t");
        } else {
            push_char(&mut out, c);
        }
        proof {
            reveal_strlit("\\\"");
            reveal_strlit("\\\\");
            reveal_strlit("\\n");
            reveal_strlit("\\r");
            reveal_strlit("\\t");
            assert(cs@.take(i + 1).drop_last() =~= cs@.take(i as int));
            assert(out@ =~= seq!['"'] + flat_map(cs@.take(i + 1), |c: char| yaml_escape(c)));
        }
        i = i + 1;
    }
    push_char(&mut out, '"');
    assert(cs@.take(i as int) =~= cs@);
    out
}

/// The characters a YAML key may not hold bare.
pub open spec fn yaml_key_special(c: char) -> bool {
    crate::text::is_space(c) || c == ':' || c == '#' || c == '{' || c == '}' || c == '[' || c == ']'
        || c == ',' || c == '&' || c == '*' || c == '!' || c == '|' || c == '>' || c == '\'' || c
        == '"' || c == '%' || c == '@' || c == '`'
}

/// How a YAML map writes a key: quoted as a scalar when it is empty or holds
/// whitespace or punctuation YAML gives meaning to, else as it is.
pub open spec fn yaml_key(key: Seq<char>) -> Seq<char> {
    if key.len() == 0 || exists|i: int| 0 <= i < key.len() && yaml_key_special(#[trigger] key[i]) {
        yaml_scalar(key)
    } else {
        key
    }
}

/// Writes a key the way a YAML map does.
pub fn render_key(key: &str) -> (rendered: String)
    ensures
        rendered@ == yaml_key(key@),
{
    let cs = chars_of(key);
    let mut special = cs.len() == 0;
    let mut i: usize = 0;
    while i < cs.len()
        invariant
            i <= cs.len(),
            cs@ == key@,
            special == (cs@.len() == 0 || exists|k: int| 0 <= k < i && yaml_key_special(#[trigger] cs@[k])),
        decreases cs.len() - i,
    {
        let c = cs[i];
        if is_whitespace(c) || c == ':' || c == '#' || c == '{' || c == '}' || c == '[' || c == ']'
            || c == ',' || c == '&' || c == '*' || c == '!' || c == '|' || c == '>' || c == '\''
            || c == '"' || c == '%' || c == '@' || c == '`' {
            special = true;
        }
        i = i + 1;
    }
    if special {
        quote(key)
    } else {
        crate::text::string_of(&cs)
    }
}


/// How a block sits under a `- ` bullet: its first line moves onto the bullet,
/// and the others follow as they are. An empty block is an empty map.
pub open spec fn bulleted_block(pad: Seq<char>, block: Seq<char>) -> Seq<char> {
    let ls = lines_of(block);
    if ls.len() == 0 {
        pad + "- {}"@ + seq!['\n']
    } else {
        pad + "- "@ + trim_start(ls[0]) + seq!['\n'] + crate::text::concat(
            ls.drop_first().map_values(|l: Seq<char>| l.push('\n')),
        )
    }
}

/// Writes a block under a `- ` bullet, moving the first line onto the bullet.
pub fn push_block(out: &mut String, pad: &str, block: &str)
    ensures
        final(out)@ == old(out)@ + bulleted_block(pad@, block@),
{
    let cs = chars_of(block);
    let ls = lines(&cs);
    if ls.len() == 0 {
        push_str(out, pad);
        push_str(out, "- {}");
        push_char(out, '\n');
        return;
    }
    push_str(out, pad);
    push_str(out, "- ");
    let first = &ls[0];
    let start = crate::text::skip_spaces(first, 0);
    assert(first@.subrange(0, first@.len() as int) =~= first@);
    push_chars(out, &crate::text::slice_chars(first, start, first.len()));
    push_char(out, '\n');
    let ghost head = old(out)@ + pad@ + "- "@ + trim_start(first@) + seq!['\n'];
    let ghost rest = lines_of(block@).drop_first().map_values(|l: Seq<char>| l.push('\n'));
    assert(out@ =~= head);
    let mut i: usize = 1;
    while i < ls.len()
        invariant
            1 <= i <= ls.len(),
            cs@ == block@,
            ls@.len() == lines_of(block@).len(),
            forall|k: int| 0 <= k < ls@.len() ==> #[trigger] ls@[k]@ == lines_of(block@)[k],
            rest == lines_of(block@).drop_first().map_values(|l: Seq<char>| l.push('\n')),
            out@ == head + crate::text::concat(rest.take(i - 1)),
        decreases ls.len() - i,
    {
        push_chars(out, &ls[i]);
        push_char(out, '\n');
        proof {
            assert(rest.take(i as int).drop_last() =~= rest.take(i - 1));
            assert(rest.take(i as int).last() == ls@[i as int]@.push('\n'));
            assert(out@ =~= head + crate::text::concat(rest.take(i as int)));
        }
        i = i + 1;
    }
    assert(rest.take(i - 1) =~= rest);
}


// ---- values ----------------------------------------------------------------------------

/// Where an anchor lives, as a reference names it: its file, `#`, its name.
pub open spec fn reference_text(id: usize, anchors: Seq<AnchorInfo>) -> Seq<char> {
    anchors[id as int].source_path@ + seq!['#'] + anchors[id as int].name@
}

/// A value written on the line of its key or bullet. A reference carries a
/// `!ref` tag inside its quotes; what has no scalar form is `null`.
pub open spec fn scalar_of(v: Value, anchors: Seq<AnchorInfo>) -> Seq<char> {
    match v {
        Value::Null => "null"@,
        Value::Bool(b) => if b { "true"@ } else { "false"@ },
        Value::Number(n) => n@,
        Value::Str(t) => yaml_scalar(t@),
        Value::Reference(id) => yaml_scalar("!ref "@ + reference_text(id, anchors)),
        _ => "null"@,
    }
}

/// What follows a key in a map: a nested map or list on the lines below, or
/// the value on the key's line. An anchor already being written is written
/// as its quoted reference, for it would embed itself.
pub open spec fn yaml_entry(v: Value, anchors: Seq<AnchorInfo>, pad: Seq<char>, stack: Seq<usize>) -> Seq<char>
    decreases anchors.len() - stack.len(), v, 0nat,
{
    match v {
        Value::Dict(inner) => if inner@.len() > 0 {
            seq![':', '\n'] + yaml_map(inner@, anchors, deeper(pad), stack, inner@.len())
        } else {
            ": {}\n"@
        },
        Value::Anchor(id) => if stack.contains(id) || stack.len() >= anchors.len() {
            seq![':', ' '] + yaml_scalar(reference_text(id, anchors)) + seq!['\n']
        } else {
            let ps = anchors[id as int].properties@;
            if ps.len() == 0 {
                ": {}\n"@
            } else {
                seq![':', '\n'] + yaml_map(ps, anchors, deeper(pad), stack.push(id), ps.len())
            }
        },
        Value::List(items) => if items@.len() > 0 {
            seq![':', '\n'] + yaml_list(items@, anchors, pad, stack, items@.len())
        } else {
            ": []\n"@
        },
        Value::Mixed(items) => if items@.len() > 0 {
            seq![':', '\n'] + yaml_list(items@, anchors, pad, stack, items@.len())
        } else {
            ": []\n"@
        },
        _ => seq![':', ' '] + scalar_of(v, anchors) + seq!['\n'],
    }
}

/// A map's first `k` entries, each key at `pad`; a map with no entries is
/// `{}`.
pub open spec fn yaml_map(entries: Seq<(String, Value)>, anchors: Seq<AnchorInfo>, pad: Seq<char>, stack: Seq<usize>, k: nat) -> Seq<char>
    decreases anchors.len() - stack.len(), entries, k,
{
    if entries.len() == 0 {
        pad + "{}\n"@
    } else if k == 0 || k > entries.len() {
        Seq::empty()
    } else {
        yaml_map(entries, anchors, pad, stack, (k - 1) as nat) + pad + yaml_key(entries[k - 1].0@)
            + yaml_entry(entries[k - 1].1, anchors, pad, stack)
    }
}

/// One list item under a `- ` bullet at `pad`: a map starts on the bullet, a
/// nested list goes on the lines below a bare bullet, anything else is a
/// scalar on the bullet's line.
pub open spec fn yaml_item(v: Value, anchors: Seq<AnchorInfo>, pad: Seq<char>, stack: Seq<usize>) -> Seq<char>
    decreases anchors.len() - stack.len(), v, 0nat,
{
    match v {
        Value::Dict(map) if map@.len() > 0 => bulleted_block(
            pad,
            yaml_map(map@, anchors, deeper(pad), stack, map@.len()),
        ),
        Value::Anchor(id) => if stack.contains(id) || stack.len() >= anchors.len() {
            pad + seq!['-', ' '] + yaml_scalar(reference_text(id, anchors)) + seq!['\n']
        } else {
            let ps = anchors[id as int].properties@;
            bulleted_block(pad, yaml_map(ps, anchors, deeper(pad), stack.push(id), ps.len()))
        },
        Value::List(nested) if nested@.len() > 0 => pad + seq!['-', '\n'] + yaml_list(
            nested@,
            anchors,
            deeper(pad),
            stack,
            nested@.len(),
        ),
        Value::Mixed(flattened) => pad + seq!['-', '\n'] + yaml_list(
            flattened@,
            anchors,
            deeper(pad),
            stack,
            flattened@.len(),
        ),
        _ => pad + seq!['-', ' '] + scalar_of(v, anchors) + seq!['\n'],
    }
}

/// A list's first `k` items, each bullet at `pad`.
pub open spec fn yaml_list(items: Seq<Value>, anchors: Seq<AnchorInfo>, pad: Seq<char>, stack: Seq<usize>, k: nat) -> Seq<char>
    decreases anchors.len() - stack.len(), items, k,
{
    if k == 0 || k > items.len() {
        Seq::empty()
    } else {
        yaml_list(items, anchors, pad, stack, (k - 1) as nat) + yaml_item(items[k - 1], anchors, pad, stack)
    }
}

/// A document ends with a line break.
pub open spec fn ended(s: Seq<char>) -> Seq<char> {
    if s.len() > 0 && s.last() == '\n' {
        s
    } else {
        s.push('\n')
    }
}

fn write_reference_text(id: usize, anchors: &Vec<AnchorInfo>) -> (t: String)
    requires
        id < anchors.len(),
    ensures
        t@ == reference_text(id, anchors@),
{
    let mut t = String::new();
    push_str(&mut t, anchors[id].source_path.as_str());
    push_char(&mut t, '#');
    push_str(&mut t, anchors[id].name.as_str());
    assert(t@ =~= reference_text(id, anchors@));
    t
}

fn render_scalar(v: &Value, anchors: &Vec<AnchorInfo>) -> (r: String)
    requires
        names_known(*v, anchors@.len()),
    ensures
        r@ == scalar_of(*v, anchors@),
{
    proof {
        reveal_strlit("null");
        reveal_strlit("true");
        reveal_strlit("false");
        reveal_strlit("!ref ");
    }
    match v {
        Value::Null => String::from_str("null"),
        Value::Bool(b) => String::from_str(if *b { "true" } else { "false" }),
        Value::Number(n) => {
            let mut r = String::new();
            push_str(&mut r, n.as_str());
            r
        },
        Value::Str(t) => quote(t.as_str()),
        Value::Reference(id) => {
            let mut tagged = String::new();
            push_str(&mut tagged, "!ref ");
            let target = write_reference_text(*id, anchors);
            push_str(&mut tagged, target.as_str());
            quote(tagged.as_str())
        },
        _ => String::from_str("null"),
    }
}

fn write_entry(v: &Value, anchors: &Vec<AnchorInfo>, pad: &str, out: &mut String, stack: &mut Vec<usize>)
    requires
        names_known(*v, anchors@.len()),
        anchors_known(anchors@),
        stack_ok(old(stack)@, anchors@.len()),
    ensures
        final(out)@ == old(out)@ + yaml_entry(*v, anchors@, pad@, old(stack)@),
        final(stack)@ == old(stack)@,
    decreases anchors@.len() - old(stack)@.len(), *v, 0nat,
{
    proof {
        reveal_strlit(": {}\n");
        reveal_strlit(": []\n");
    }
    let ghost start = out@;
    match v {
        Value::Dict(inner) => {
            if inner.len() > 0 {
                push_char(out, ':');
                push_char(out, '\n');
                let inner_pad = deeper_pad(pad);
                write_map(inner, anchors, inner_pad.as_str(), out, stack);
                assert(out@ =~= start + yaml_entry(*v, anchors@, pad@, stack@));
            } else {
                push_str(out, ": {}\n");
            }
        },
        Value::Anchor(id) => {
            if on_stack(stack, *id) {
                let target = write_reference_text(*id, anchors);
                let q = quote(target.as_str());
                push_char(out, ':');
                push_char(out, ' ');
                push_str(out, q.as_str());
                push_char(out, '\n');
                assert(out@ =~= start + yaml_entry(*v, anchors@, pad@, stack@));
                return;
            }
            proof {
                lemma_stack_room(stack@, anchors@.len(), *id);
            }
            if anchors[*id].properties.len() == 0 {
                push_str(out, ": {}\n");
            } else {
                push_char(out, ':');
                push_char(out, '\n');
                let inner_pad = deeper_pad(pad);
                let ghost orig = stack@;
                stack.push(*id);
                write_map(&anchors[*id].properties, anchors, inner_pad.as_str(), out, stack);
                stack.pop();
                assert(stack@ =~= orig);
                assert(out@ =~= start + yaml_entry(*v, anchors@, pad@, stack@));
            }
        },
        Value::List(items) => {
            if items.len() > 0 {
                push_char(out, ':');
                push_char(out, '\n');
                write_list(items, anchors, pad, out, stack);
                assert(out@ =~= start + yaml_entry(*v, anchors@, pad@, stack@));
            } else {
                push_str(out, ": []\n");
            }
        },
        Value::Mixed(items) => {
            if items.len() > 0 {
                push_char(out, ':');
                push_char(out, '\n');
                write_list(items, anchors, pad, out, stack);
                assert(out@ =~= start + yaml_entry(*v, anchors@, pad@, stack@));
            } else {
                push_str(out, ": []\n");
            }
        },
        _ => {
            let scalar = render_scalar(v, anchors);
            push_char(out, ':');
            push_char(out, ' ');
            push_str(out, scalar.as_str());
            push_char(out, '\n');
            assert(out@ =~= start + yaml_entry(*v, anchors@, pad@, stack@));
        },
    }
}

fn write_map(entries: &Vec<(String, Value)>, anchors: &Vec<AnchorInfo>, pad: &str, out: &mut String, stack: &mut Vec<usize>)
    requires
        entries_known(entries@, anchors@.len()),
        anchors_known(anchors@),
        stack_ok(old(stack)@, anchors@.len()),
    ensures
        final(out)@ == old(out)@ + yaml_map(entries@, anchors@, pad@, old(stack)@, entries@.len()),
        final(stack)@ == old(stack)@,
    decreases anchors@.len() - old(stack)@.len(), entries@, 1nat,
{
    let ghost start = out@;
    if entries.len() == 0 {
        push_str(out, pad);
        push_str(out, "{}\n");
        proof {
            reveal_strlit("{}\n");
        }
        assert(out@ =~= start + yaml_map(entries@, anchors@, pad@, stack@, entries@.len()));
        return;
    }
    let mut k: usize = 0;
    proof {
        assert(out@ =~= start + yaml_map(entries@, anchors@, pad@, stack@, 0));
    }
    while k < entries.len()
        invariant
            k <= entries@.len(),
            entries@.len() > 0,
            entries_known(entries@, anchors@.len()),
            anchors_known(anchors@),
            stack_ok(stack@, anchors@.len()),
            stack@ == old(stack)@,
            out@ == start + yaml_map(entries@, anchors@, pad@, stack@, k as nat),
        decreases entries@.len() - k,
    {
        push_str(out, pad);
        let key = render_key(entries[k].0.as_str());
        push_str(out, key.as_str());
        write_entry(&entries[k].1, anchors, pad, out, stack);
        k = k + 1;
        assert(out@ =~= start + yaml_map(entries@, anchors@, pad@, stack@, k as nat));
    }
}

fn write_item(v: &Value, anchors: &Vec<AnchorInfo>, pad: &str, out: &mut String, stack: &mut Vec<usize>)
    requires
        names_known(*v, anchors@.len()),
        anchors_known(anchors@),
        stack_ok(old(stack)@, anchors@.len()),
    ensures
        final(out)@ == old(out)@ + yaml_item(*v, anchors@, pad@, old(stack)@),
        final(stack)@ == old(stack)@,
    decreases anchors@.len() - old(stack)@.len(), *v, 0nat,
{
    let ghost start = out@;
    match v {
        Value::Dict(map) => {
            if map.len() > 0 {
                let inner_pad = deeper_pad(pad);
                let mut nested = String::new();
                write_map(map, anchors, inner_pad.as_str(), &mut nested, stack);
                push_block(out, pad, nested.as_str());
                assert(nested@ =~= yaml_map(map@, anchors@, deeper(pad@), stack@, map@.len()));
                return;
            }
        },
        Value::Anchor(id) => {
            if on_stack(stack, *id) {
                let target = write_reference_text(*id, anchors);
                let q = quote(target.as_str());
                push_str(out, pad);
                push_char(out, '-');
                push_char(out, ' ');
                push_str(out, q.as_str());
                push_char(out, '\n');
                assert(out@ =~= start + yaml_item(*v, anchors@, pad@, stack@));
                return;
            }
            proof {
                lemma_stack_room(stack@, anchors@.len(), *id);
            }
            let inner_pad = deeper_pad(pad);
            let mut nested = String::new();
            let ghost orig = stack@;
            stack.push(*id);
            write_map(&anchors[*id].properties, anchors, inner_pad.as_str(), &mut nested, stack);
            stack.pop();
            assert(stack@ =~= orig);
            push_block(out, pad, nested.as_str());
            assert(nested@ =~= yaml_map(anchors@[*id as int].properties@, anchors@, deeper(pad@), stack@.push(*id), anchors@[*id as int].properties@.len()));
            return;
        },
        Value::List(nested) => {
            if nested.len() > 0 {
                push_str(out, pad);
                push_char(out, '-');
                push_char(out, '\n');
                let inner_pad = deeper_pad(pad);
                write_list(nested, anchors, inner_pad.as_str(), out, stack);
                assert(out@ =~= start + yaml_item(*v, anchors@, pad@, stack@));
                return;
            }
        },
        Value::Mixed(flattened) => {
            push_str(out, pad);
            push_char(out, '-');
            push_char(out, '\n');
            let inner_pad = deeper_pad(pad);
            write_list(flattened, anchors, inner_pad.as_str(), out, stack);
            assert(out@ =~= start + yaml_item(*v, anchors@, pad@, stack@));
            return;
        },
        _ => {},
    }
    let scalar = render_scalar(v, anchors);
    push_str(out, pad);
    push_char(out, '-');
    push_char(out, ' ');
    push_str(out, scalar.as_str());
    push_char(out, '\n');
    assert(out@ =~= start + yaml_item(*v, anchors@, pad@, stack@));
}

fn write_list(items: &Vec<Value>, anchors: &Vec<AnchorInfo>, pad: &str, out: &mut String, stack: &mut Vec<usize>)
    requires
        forall|i: int| 0 <= i < items@.len() ==> names_known(#[trigger] items@[i], anchors@.len()),
        anchors_known(anchors@),
        stack_ok(old(stack)@, anchors@.len()),
    ensures
        final(out)@ == old(out)@ + yaml_list(items@, anchors@, pad@, old(stack)@, items@.len()),
        final(stack)@ == old(stack)@,
    decreases anchors@.len() - old(stack)@.len(), items@, 1nat,
{
    let ghost start = out@;
    let mut k: usize = 0;
    proof {
        assert(out@ =~= start + yaml_list(items@, anchors@, pad@, stack@, 0));
    }
    while k < items.len()
        invariant
            k <= items@.len(),
            forall|i: int| 0 <= i < items@.len() ==> names_known(#[trigger] items@[i], anchors@.len()),
            anchors_known(anchors@),
            stack_ok(stack@, anchors@.len()),
            stack@ == old(stack)@,
            out@ == start + yaml_list(items@, anchors@, pad@, stack@, k as nat),
        decreases items@.len() - k,
    {
        write_item(&items[k], anchors, pad, out, stack);
        k = k + 1;
        assert(out@ =~= start + yaml_list(items@, anchors@, pad@, stack@, k as nat));
    }
}

fn end_with_break(out: &mut String)
    ensures
        final(out)@ == ended(old(out)@),
{
    let cs = chars_of(out.as_str());
    if cs.len() == 0 || cs[cs.len() - 1] != '\n' {
        push_char(out, '\n');
    }
}

/// Renders the top-level declarations as a YAML document.
pub fn declarations(map: &Vec<(String, Value)>, anchors: &Vec<AnchorInfo>) -> (out: String)
    requires
        entries_known(map@, anchors@.len()),
        anchors_known(anchors@),
    ensures
        out@ == ended(yaml_map(map@, anchors@, Seq::empty(), Seq::empty(), map@.len())),
{
    let mut out = String::new();
    let mut stack: Vec<usize> = Vec::new();
    proof {
        reveal_strlit("");
        assert(""@ =~= Seq::<char>::empty());
    }
    write_map(map, anchors, "", &mut out, &mut stack);
    end_with_break(&mut out);
    out
}

/// What a single value is as a YAML document: a map or an anchor's
/// properties as a map, a list as a list, anything else as a scalar.
pub open spec fn yaml_document(v: Value, anchors: Seq<AnchorInfo>) -> Seq<char> {
    match v {
        Value::Dict(map) => yaml_map(map@, anchors, Seq::empty(), Seq::empty(), map@.len()),
        Value::Anchor(id) => {
            let ps = anchors[id as int].properties@;
            yaml_map(ps, anchors, Seq::empty(), seq![id], ps.len())
        },
        Value::List(items) => yaml_list(items@, anchors, Seq::empty(), Seq::empty(), items@.len()),
        Value::Mixed(items) => yaml_list(items@, anchors, Seq::empty(), Seq::empty(), items@.len()),
        _ => scalar_of(v, anchors),
    }
}

/// Renders a single value as a YAML document.
pub fn value(v: &Value, anchors: &Vec<AnchorInfo>) -> (out: String)
    requires
        names_known(*v, anchors@.len()),
        anchors_known(anchors@),
    ensures
        out@ == ended(yaml_document(*v, anchors@)),
{
    let mut out = String::new();
    let mut stack: Vec<usize> = Vec::new();
    proof {
        reveal_strlit("");
        assert(""@ =~= Seq::<char>::empty());
    }
    match v {
        Value::Dict(map) => write_map(map, anchors, "", &mut out, &mut stack),
        Value::Anchor(id) => {
            stack.push(*id);
            proof {
                assert(stack@ =~= seq![*id]);
            }
            write_map(&anchors[*id].properties, anchors, "", &mut out, &mut stack);
        },
        Value::List(items) => write_list(items, anchors, "", &mut out, &mut stack),
        Value::Mixed(items) => write_list(items, anchors, "", &mut out, &mut stack),
        _ => {
            let scalar = render_scalar(v, anchors);
            push_str(&mut out, scalar.as_str());
        },
    }
    end_with_break(&mut out);
    out
}

/// A value YAML would misread bare is written double-quoted: one that holds a
/// line break, `: ` or ` #` (the start of a comment) anywhere, starts or ends
/// with a space, or ends with `:`; and so is the empty value.
pub proof fn lemma_misread_values_quoted(t: Seq<char>, i: int)
    requires
        t.len() == 0 || (0 <= i < t.len() && {
            ||| t[i] == '\n'
            ||| i + 1 < t.len() && t[i] == ':' && t[i + 1] == ' '
            ||| i + 1 < t.len() && t[i] == ' ' && t[i + 1] == '#'
            ||| i == 0 && t[0] == ' '
            ||| i == t.len() - 1 && (t[i] == ' ' || t[i] == ':')
        }),
    ensures
        yaml_scalar(t).len() >= 2,
        yaml_scalar(t)[0] == '"',
        yaml_scalar(t).last() == '"',
{
    reveal_strlit(": ");
    reveal_strlit(" #");
    if t.len() > 0 {
        if t[i] == '\n' {
            assert(t.contains('\n'));
        } else if i + 1 < t.len() && t[i] == ':' && t[i + 1] == ' ' {
            assert(t.subrange(i, i + 2) =~= ": "@);
            assert(contains_run(t, ": "@));
        } else if i + 1 < t.len() && t[i] == ' ' && t[i + 1] == '#' {
            assert(t.subrange(i, i + 2) =~= " #"@);
            assert(contains_run(t, " #"@));
        } else if i == t.len() - 1 {
            assert(t.last() == t[i]);
        }
    }
    assert(yaml_needs_quotes(t));
}

/// A value YAML would read as a boolean or null is written double-quoted,
/// in whatever case it is spelled: `True`, `NULL`, `Off` and the like.
pub proof fn lemma_boolean_words_quoted(t: Seq<char>)
    requires
        ascii_lowercase(t) == "true"@ || ascii_lowercase(t) == "false"@ || ascii_lowercase(t) == "null"@
            || ascii_lowercase(t) == "yes"@ || ascii_lowercase(t) == "no"@ || ascii_lowercase(t) == "on"@
            || ascii_lowercase(t) == "off"@,
    ensures
        yaml_scalar(t)[0] == '"',
        yaml_scalar(t).last() == '"',
        yaml_scalar(t).len() >= 2,
{
    assert(yaml_needs_quotes(t));
}

/// A value starting with a character YAML reads as syntax (`-`, `?`, `:`,
/// `,`, brackets, braces, `#`, `&`, `*`, `!`, `|`, `>`, quotes, `%`, `@`,
/// a backtick) is written double-quoted.
pub proof fn lemma_indicator_start_quoted(t: Seq<char>)
    requires
        t.len() > 0,
        t[0] == '-' || t[0] == '?' || t[0] == ':' || t[0] == ',' || t[0] == '[' || t[0] == ']' || t[0] == '{'
            || t[0] == '}' || t[0] == '#' || t[0] == '&' || t[0] == '*' || t[0] == '!' || t[0] == '|' || t[0]
            == '>' || t[0] == '\'' || t[0] == '"' || t[0] == '%' || t[0] == '@' || t[0] == '`',
    ensures
        yaml_scalar(t)[0] == '"',
        yaml_scalar(t).last() == '"',
{
    assert(yaml_needs_quotes(t));
}

} // verus!
