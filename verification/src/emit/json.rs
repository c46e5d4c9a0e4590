//! JSON serialization.
//!
//! Anchors serialize as their resolved content. References do not: a
//! reference must not silently become an embedded copy or a bare name, so it
//! serializes as an explicit `$ref` object naming the anchor and the file it
//! came from. A string is written between double quotes with the characters
//! JSON cannot hold bare escaped.
use vstd::prelude::*;

use crate::emit::value::{
    anchors_known, entries_known, lemma_stack_room, names_known, stack_ok, AnchorInfo, Value,
};
use crate::text::{chars_of, flat_map, hex_char, hex_digit, push_char, push_str};

verus! {

/// How JSON writes one character inside a string.
pub open spec fn json_escape(c: char) -> Seq<char> {
    if c == '"' {
        seq!['\\', '"']
    } else if c == '\\' {
        seq!['\\', '\\']
    } else if c == '\n' {
        seq!['\\', 'n']
    } else if c == '\r' {
        seq!['\\', 'r']
    } else if c == '\t' {
        seq!['\\', 't']
    } else if (c as u32) < 0x20 {
        seq!['\\', 'u', '0', '0', hex_char((c as u32) / 16), hex_char((c as u32) % 16)]
    } else {
        seq![c]
    }
}

/// Quotes and escapes a JSON string.
pub fn quote(text: &str) -> (out: String)
    ensures
        out@ == quoted(text@),
{
    let cs = chars_of(text);
    let mut out = String::new();
    push_char(&mut out, '"');
    let mut i: usize = 0;
    while i < cs.len()
        invariant
            i <= cs.len(),
            cs@ == text@,
            out@ == seq!['"'] + escaped(cs@.take(i as int)),
        decreases cs.len() - i,
    {
        let c = cs[i];
        let v = c as u32;
        if c == '"' {
            push_str(&mut out, "\\\"");
        } else if c == '\\' {
            push_str(&mut out, "\\\\");
        } else if c == '\n' {
            push_str(&mut out, "\\n");
        } else if c == '\r' {
            push_str(&mut out, "\\r");
        } else if c == '\t' {
            push_str(&mut out, "\\t");
        } else if v < 0x20 {
            push_str(&mut out, "\\u00");
            push_char(&mut out, hex_digit(v / 16));
            push_char(&mut out, hex_digit(v % 16));
        } else {
            push_char(&mut out, c);
        }
        proof {
            reveal_strlit("\\\"");
            reveal_strlit("\\\\");
            reveal_strlit("\\n");
            reveal_strlit("\\r");
            reveal_strlit("\\t");
            reveal_strlit("\\u00");
            assert(cs@.take(i + 1).drop_last() =~= cs@.take(i as int));
            assert(out@ =~= seq!['"'] + escaped(cs@.take(i + 1)));
        }
        i = i + 1;
    }
    push_char(&mut out, '"');
    assert(cs@.take(i as int) =~= cs@);
    out
}



/// A string's characters, each as JSON writes it inside quotes.
pub open spec fn escaped(t: Seq<char>) -> Seq<char>
    decreases t.len(),
{
    if t.len() == 0 {
        Seq::empty()
    } else {
        escaped(t.drop_last()) + json_escape(t.last())
    }
}

/// A string as JSON writes it.
pub open spec fn quoted(t: Seq<char>) -> Seq<char> {
    seq!['"'] + escaped(t) + seq!['"']
}

/// The value of a hexadecimal digit, or -1 for any other character.
pub open spec fn hex_value(c: char) -> int {
    if '0' <= c <= '9' {
        c as int - 48
    } else if 'a' <= c <= 'f' {
        c as int - 87
    } else if 'A' <= c <= 'F' {
        c as int - 55
    } else {
        -1
    }
}

/// The character a one-letter escape stands for in a JSON string.
pub open spec fn simple_unescape(c: char) -> Option<char> {
    if c == '"' {
        Some('"')
    } else if c == '\\' {
        Some('\\')
    } else if c == '/' {
        Some('/')
    } else if c == 'b' {
        Some('\u{8}')
    } else if c == 'f' {
        Some('\u{c}')
    } else if c == 'n' {
        Some('\n')
    } else if c == 'r' {
        Some('\r')
    } else if c == 't' {
        Some('\t')
    } else {
        None
    }
}

/// The value four hexadecimal digits from index 2 of `s` write.
pub open spec fn hex4(s: Seq<char>) -> int {
    hex_value(s[2]) * 4096 + hex_value(s[3]) * 256 + hex_value(s[4]) * 16 + hex_value(s[5])
}

/// What a JSON reader makes of the text between a string's quotes: each
/// character as it is but for a quote or a control character, which cannot
/// stand bare, and each escape (`\"`, `\\`, `\/`, `\b`, `\f`, `\n`, `\r`,
/// `\t`, `\uXXXX`) as the character it stands for. `None` when the text is
/// not a string body. A `\u` escape of half a surrogate pair is read as no
/// string here: this library never writes one.
pub open spec fn json_read(s: Seq<char>) -> Option<Seq<char>>
    decreases s.len(),
{
    if s.len() == 0 {
        Some(Seq::empty())
    } else if s[0] == '"' || (s[0] as u32) < 0x20 {
        None
    } else if s[0] != '\\' {
        match json_read(s.drop_first()) {
            Some(r) => Some(seq![s[0]] + r),
            None => None,
        }
    } else if s.len() >= 2 && simple_unescape(s[1]) is Some {
        match json_read(s.skip(2)) {
            Some(r) => Some(seq![simple_unescape(s[1])->0] + r),
            None => None,
        }
    } else if s.len() >= 6 && s[1] == 'u' && hex_value(s[2]) >= 0 && hex_value(s[3]) >= 0 && hex_value(s[4])
        >= 0 && hex_value(s[5]) >= 0 && !(0xD800 <= hex4(s) <= 0xDFFF) {
        match json_read(s.skip(6)) {
            Some(r) => Some(seq![hex4(s) as char] + r),
            None => None,
        }
    } else {
        None
    }
}

proof fn lemma_escaped_front(t: Seq<char>)
    requires
        t.len() > 0,
    ensures
        escaped(t) == json_escape(t[0]) + escaped(t.drop_first()),
    decreases t.len(),
{
    if t.len() == 1 {
        assert(t.drop_last() =~= Seq::<char>::empty());
        assert(t.drop_first() =~= Seq::<char>::empty());
        assert(escaped(t) =~= json_escape(t[0]) + escaped(t.drop_first()));
    } else {
        lemma_escaped_front(t.drop_last());
        assert(t.drop_last().drop_first() =~= t.drop_first().drop_last());
        assert(t.drop_first().last() == t.last());
        assert(escaped(t) =~= json_escape(t[0]) + escaped(t.drop_first()));
    }
}

proof fn lemma_hex_char(d: u32)
    requires
        d < 16,
    ensures
        hex_value(crate::text::hex_char(d)) == d,
        0x30 <= crate::text::hex_char(d) as u32 <= 0x66,
{
}

proof fn lemma_read_escape(c: char, rest: Seq<char>)
    ensures
        json_read(json_escape(c) + rest) == match json_read(rest) {
            Some(r) => Some(seq![c] + r),
            None => None::<Seq<char>>,
        },
{
    let s = json_escape(c) + rest;
    let e = json_escape(c);
    if c == '"' || c == '\\' || c == '\n' || c == '\r' || c == '\t' {
        assert(s.skip(2) =~= rest);
    } else if (c as u32) < 0x20 {
        let v = c as u32;
        lemma_hex_char(v / 16);
        lemma_hex_char(v % 16);
        assert(s[0] == '\\' && s[1] == 'u' && s[2] == '0' && s[3] == '0');
        assert(hex4(s) == v) by (nonlinear_arith)
            requires
                hex4(s) == hex_value(s[2]) * 4096 + hex_value(s[3]) * 256 + hex_value(s[4]) * 16 + hex_value(s[5]),
                hex_value(s[2]) == 0,
                hex_value(s[3]) == 0,
                hex_value(s[4]) == v / 16,
                hex_value(s[5]) == v % 16,
        ;
        assert(s.skip(6) =~= rest);
        assert((v as int) as char == c);
    } else {
        assert(s.drop_first() =~= rest);
    }
}

/// What JSON writes of a string reads back as that string: a reader makes
/// of the text between the quotes exactly the characters written, and no
/// character of it is a control character.
pub proof fn lemma_quote_reads_back(t: Seq<char>)
    ensures
        json_read(escaped(t)) == Some(t),
        quoted(t)[0] == '"' && quoted(t).last() == '"',
        forall|i: int| 0 <= i < quoted(t).len() ==> (#[trigger] quoted(t)[i]) as u32 >= 0x20,
    decreases t.len(),
{
    if t.len() == 0 {
        assert(quoted(t) =~= seq!['"', '"']);
    } else {
        lemma_escaped_front(t);
        lemma_quote_reads_back(t.drop_first());
        lemma_read_escape(t[0], escaped(t.drop_first()));
        assert(seq![t[0]] + t.drop_first() =~= t);
        let e = json_escape(t[0]);
        assert forall|i: int| 0 <= i < e.len() implies (#[trigger] e[i]) as u32 >= 0x20 by {
            let v = t[0] as u32;
            if (v < 0x20) && !(t[0] == '\n' || t[0] == '\r' || t[0] == '\t') {
                lemma_hex_char(v / 16);
                lemma_hex_char(v % 16);
            }
        }
        let q = quoted(t);
        let qr = quoted(t.drop_first());
        assert forall|i: int| 0 <= i < q.len() implies (#[trigger] q[i]) as u32 >= 0x20 by {
            if 1 <= i < 1 + e.len() {
                assert(q[i] == e[i - 1]);
            } else if i >= 1 + e.len() {
                assert(q[i] == qr[i - e.len()]);
            }
        }
    }
}

/// How a reference is written: a `$ref` object naming the anchor and the
/// file it came from.
pub open spec fn reference_of(id: usize, anchors: Seq<AnchorInfo>) -> Seq<char> {
    "{\"$ref\": "@ + quoted(anchors[id as int].source_path@ + seq!['#'] + anchors[id as int].name@)
        + seq!['}']
}

/// One nesting level deeper than `pad`.
pub open spec fn deeper(pad: Seq<char>) -> Seq<char> {
    pad + seq![' ', ' ']
}

/// A value as JSON, its lines after the first indented by `pad`, with the
/// anchors in `stack` being written around it: an anchor already being
/// written is written as a reference, for it would embed itself.
pub open spec fn json_of(v: Value, anchors: Seq<AnchorInfo>, pad: Seq<char>, stack: Seq<usize>) -> Seq<char>
    decreases anchors.len() - stack.len(), v, 0nat,
{
    match v {
        Value::Null => "null"@,
        Value::Bool(b) => if b { "true"@ } else { "false"@ },
        Value::Number(n) => n@,
        Value::Str(t) => quoted(t@),
        Value::List(items) => if items@.len() == 0 {
            "[]"@
        } else {
            "[\n"@ + json_items(items@, anchors, pad, stack, items@.len()) + pad + seq![']']
        },
        Value::Mixed(items) => if items@.len() == 0 {
            "[]"@
        } else {
            "[\n"@ + json_items(items@, anchors, pad, stack, items@.len()) + pad + seq![']']
        },
        Value::Dict(entries) => if entries@.len() == 0 {
            "{}"@
        } else {
            "{\n"@ + json_entries(entries@, anchors, pad, stack, entries@.len()) + pad + seq!['}']
        },
        Value::Anchor(id) => if stack.contains(id) || stack.len() >= anchors.len() {
            reference_of(id, anchors)
        } else {
            let ps = anchors[id as int].properties@;
            if ps.len() == 0 {
                "{}"@
            } else {
                "{\n"@ + json_entries(ps, anchors, pad, stack.push(id), ps.len()) + pad + seq!['}']
            }
        },
        Value::Reference(id) => reference_of(id, anchors),
    }
}

/// What separates item `k` of `len` from the next: a comma, unless it is
/// the last.
pub open spec fn separator(k: nat, len: nat) -> Seq<char> {
    if k + 1 < len { seq![','] } else { Seq::empty() }
}

/// The first `k` items of an array, one to a line.
pub open spec fn json_items(items: Seq<Value>, anchors: Seq<AnchorInfo>, pad: Seq<char>, stack: Seq<usize>, k: nat) -> Seq<char>
    decreases anchors.len() - stack.len(), items, k,
{
    if k == 0 || k > items.len() {
        Seq::empty()
    } else {
        json_items(items, anchors, pad, stack, (k - 1) as nat) + deeper(pad) + json_of(
            items[k - 1],
            anchors,
            deeper(pad),
            stack,
        ) + separator((k - 1) as nat, items.len()) + seq!['\n']
    }
}

/// The first `k` entries of an object, one to a line.
pub open spec fn json_entries(entries: Seq<(String, Value)>, anchors: Seq<AnchorInfo>, pad: Seq<char>, stack: Seq<usize>, k: nat) -> Seq<char>
    decreases anchors.len() - stack.len(), entries, k,
{
    if k == 0 || k > entries.len() {
        Seq::empty()
    } else {
        json_entries(entries, anchors, pad, stack, (k - 1) as nat) + deeper(pad) + quoted(entries[k - 1].0@)
            + seq![':', ' '] + json_of(entries[k - 1].1, anchors, deeper(pad), stack) + separator(
            (k - 1) as nat,
            entries.len(),
        ) + seq!['\n']
    }
}

pub(crate) fn on_stack(stack: &Vec<usize>, id: usize) -> (r: bool)
    ensures
        r == stack@.contains(id),
{
    let mut i: usize = 0;
    while i < stack.len()
        invariant
            i <= stack.len(),
            forall|j: int| 0 <= j < i ==> stack@[j] != id,
        decreases stack.len() - i,
    {
        if stack[i] == id {
            return true;
        }
        i = i + 1;
    }
    false
}

fn write_reference(id: usize, anchors: &Vec<AnchorInfo>, out: &mut String)
    requires
        id < anchors.len(),
    ensures
        final(out)@ == old(out)@ + reference_of(id, anchors@),
{
    let mut target = String::new();
    push_str(&mut target, anchors[id].source_path.as_str());
    push_char(&mut target, '#');
    push_str(&mut target, anchors[id].name.as_str());
    assert(target@ =~= anchors@[id as int].source_path@ + seq!['#'] + anchors@[id as int].name@);
    let q = quote(target.as_str());
    let ghost start = out@;
    push_str(out, "{\"$ref\": ");
    push_str(out, q.as_str());
    push_char(out, '}');
    assert(out@ =~= start + reference_of(id, anchors@));
}

pub(crate) fn deeper_pad(pad: &str) -> (inner: String)
    ensures
        inner@ == deeper(pad@),
{
    let mut inner = String::new();
    push_str(&mut inner, pad);
    push_str(&mut inner, "  ");
    proof {
        reveal_strlit("  ");
    }
    assert(inner@ =~= deeper(pad@));
    inner
}

fn write_value(v: &Value, anchors: &Vec<AnchorInfo>, pad: &str, out: &mut String, stack: &mut Vec<usize>)
    requires
        names_known(*v, anchors@.len()),
        anchors_known(anchors@),
        stack_ok(old(stack)@, anchors@.len()),
    ensures
        final(out)@ == old(out)@ + json_of(*v, anchors@, pad@, old(stack)@),
        final(stack)@ == old(stack)@,
    decreases anchors@.len() - old(stack)@.len(), *v, 0nat,
{
    proof {
        reveal_strlit("null");
        reveal_strlit("true");
        reveal_strlit("false");
    }
    match v {
        Value::Null => push_str(out, "null"),
        Value::Bool(b) => push_str(out, if *b { "true" } else { "false" }),
        Value::Number(n) => push_str(out, n.as_str()),
        Value::Str(t) => {
            let q = quote(t.as_str());
            push_str(out, q.as_str());
        },
        Value::List(items) => write_array(items, anchors, pad, out, stack),
        Value::Mixed(items) => write_array(items, anchors, pad, out, stack),
        Value::Dict(entries) => write_object(entries, anchors, pad, out, stack),
        Value::Anchor(id) => {
            if on_stack(stack, *id) {
                write_reference(*id, anchors, out);
                return;
            }
            proof {
                lemma_stack_room(stack@, anchors@.len(), *id);
            }
            stack.push(*id);
            write_object(&anchors[*id].properties, anchors, pad, out, stack);
            stack.pop();
        },
        Value::Reference(id) => write_reference(*id, anchors, out),
    }
}

fn write_array(items: &Vec<Value>, anchors: &Vec<AnchorInfo>, pad: &str, out: &mut String, stack: &mut Vec<usize>)
    requires
        forall|i: int| 0 <= i < items@.len() ==> names_known(#[trigger] items@[i], anchors@.len()),
        anchors_known(anchors@),
        stack_ok(old(stack)@, anchors@.len()),
    ensures
        final(out)@ == old(out)@ + (if items@.len() == 0 {
            "[]"@
        } else {
            "[\n"@ + json_items(items@, anchors@, pad@, old(stack)@, items@.len()) + pad@ + seq![']']
        }),
        final(stack)@ == old(stack)@,
    decreases anchors@.len() - old(stack)@.len(), items@, 1nat,
{
    let ghost start = out@;
    if items.len() == 0 {
        push_str(out, "[]");
        return;
    }
    let inner = deeper_pad(pad);
    push_str(out, "[\n");
    let ghost head = out@;
    let mut k: usize = 0;
    while k < items.len()
        invariant
            k <= items@.len(),
            forall|i: int| 0 <= i < items@.len() ==> names_known(#[trigger] items@[i], anchors@.len()),
            anchors_known(anchors@),
            stack_ok(stack@, anchors@.len()),
            stack@ == old(stack)@,
            inner@ == deeper(pad@),
            out@ == head + json_items(items@, anchors@, pad@, stack@, k as nat),
        decreases items@.len() - k,
    {
        push_str(out, inner.as_str());
        write_value(&items[k], anchors, inner.as_str(), out, stack);
        if k + 1 < items.len() {
            push_char(out, ',');
        }
        push_char(out, '\n');
        k = k + 1;
        assert(out@ =~= head + json_items(items@, anchors@, pad@, stack@, k as nat));
    }
    push_str(out, pad);
    push_char(out, ']');
    proof {
        reveal_strlit("[]");
        reveal_strlit("[\n");
    }
    assert(out@ =~= start + ("[\n"@ + json_items(items@, anchors@, pad@, stack@, items@.len()) + pad@ + seq![']']));
}

fn write_object(entries: &Vec<(String, Value)>, anchors: &Vec<AnchorInfo>, pad: &str, out: &mut String, stack: &mut Vec<usize>)
    requires
        entries_known(entries@, anchors@.len()),
        anchors_known(anchors@),
        stack_ok(old(stack)@, anchors@.len()),
    ensures
        final(out)@ == old(out)@ + (if entries@.len() == 0 {
            "{}"@
        } else {
            "{\n"@ + json_entries(entries@, anchors@, pad@, old(stack)@, entries@.len()) + pad@ + seq!['}']
        }),
        final(stack)@ == old(stack)@,
    decreases anchors@.len() - old(stack)@.len(), entries@, 1nat,
{
    let ghost start = out@;
    if entries.len() == 0 {
        push_str(out, "{}");
        return;
    }
    let inner = deeper_pad(pad);
    push_str(out, "{\n");
    let ghost head = out@;
    let mut k: usize = 0;
    while k < entries.len()
        invariant
            k <= entries@.len(),
            entries_known(entries@, anchors@.len()),
            anchors_known(anchors@),
            stack_ok(stack@, anchors@.len()),
            stack@ == old(stack)@,
            inner@ == deeper(pad@),
            out@ == head + json_entries(entries@, anchors@, pad@, stack@, k as nat),
        decreases entries@.len() - k,
    {
        push_str(out, inner.as_str());
        let key = quote(entries[k].0.as_str());
        push_str(out, key.as_str());
        push_str(out, ": ");
        write_value(&entries[k].1, anchors, inner.as_str(), out, stack);
        if k + 1 < entries.len() {
            push_char(out, ',');
        }
        push_char(out, '\n');
        k = k + 1;
        proof {
            reveal_strlit(": ");
        }
        assert(out@ =~= head + json_entries(entries@, anchors@, pad@, stack@, k as nat));
    }
    push_str(out, pad);
    push_char(out, '}');
    proof {
        reveal_strlit("{}");
        reveal_strlit("{\n");
    }
    assert(out@ =~= start + ("{\n"@ + json_entries(entries@, anchors@, pad@, stack@, entries@.len()) + pad@ + seq!['}']));
}

/// Renders a value as JSON.
pub fn value(v: &Value, anchors: &Vec<AnchorInfo>) -> (out: String)
    requires
        names_known(*v, anchors@.len()),
        anchors_known(anchors@),
    ensures
        out@ == json_of(*v, anchors@, Seq::empty(), Seq::empty()),
{
    let mut out = String::new();
    let mut stack: Vec<usize> = Vec::new();
    write_value(v, anchors, "", &mut out, &mut stack);
    proof {
        reveal_strlit("");
        assert(""@ =~= Seq::<char>::empty());
    }
    out
}

/// Renders the top-level declarations as a JSON object, ending the file with
/// a line break.
pub fn declarations(map: &Vec<(String, Value)>, anchors: &Vec<AnchorInfo>) -> (out: String)
    requires
        entries_known(map@, anchors@.len()),
        anchors_known(anchors@),
    ensures
        out@ == json_of(Value::Dict(*map), anchors@, Seq::empty(), Seq::empty()) + seq!['\n'],
{
    let mut out = String::new();
    let mut stack: Vec<usize> = Vec::new();
    write_object(map, anchors, "", &mut out, &mut stack);
    push_char(&mut out, '\n');
    proof {
        reveal_strlit("");
        assert(""@ =~= Seq::<char>::empty());
    }
    out
}

} // verus!
