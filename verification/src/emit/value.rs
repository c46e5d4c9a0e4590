//! The resolved values the emitters write, as they read them.
use vstd::prelude::*;

verus! {

/// A resolved value, as the emitters read it. What only the compiler works
/// out arrives worked out: a number in the form piton writes it, a string
/// with its interpolations written as plain text, and the items that text
/// mixed with list items reads as.
#[derive(Debug)]
pub enum Value {
    Null,
    Bool(bool),
    Number(String),
    Str(String),
    List(Vec<Value>),
    Mixed(Vec<Value>),
    Dict(Vec<(String, Value)>),
    /// An anchor written in place, by its index among the anchors.
    Anchor(usize),
    /// A reference to an anchor, by its index among the anchors.
    Reference(usize),
}

/// What the emitters read of an anchor: its name, the path of the file that
/// declares it as it is displayed, and its resolved properties in order.
#[derive(Debug)]
pub struct AnchorInfo {
    pub name: String,
    pub source_path: String,
    pub properties: Vec<(String, Value)>,
}

/// Every anchor that `v` names is one of the first `n`.
pub open spec fn names_known(v: Value, n: nat) -> bool
    decreases v,
{
    match v {
        Value::List(items) => forall|i: int| 0 <= i < items@.len() ==> names_known(#[trigger] items@[i], n),
        Value::Mixed(items) => forall|i: int| 0 <= i < items@.len() ==> names_known(#[trigger] items@[i], n),
        Value::Dict(entries) => forall|i: int| 0 <= i < entries@.len() ==> names_known(#[trigger] entries@[i].1, n),
        Value::Anchor(id) => id < n,
        Value::Reference(id) => id < n,
        _ => true,
    }
}

/// Every anchor that a property names is one of the first `n`.
pub open spec fn entries_known(entries: Seq<(String, Value)>, n: nat) -> bool {
    forall|i: int| 0 <= i < entries.len() ==> names_known(#[trigger] entries[i].1, n)
}

/// The anchors name only one another.
pub open spec fn anchors_known(anchors: Seq<AnchorInfo>) -> bool {
    forall|a: int| 0 <= a < anchors.len() ==> entries_known(#[trigger] anchors[a].properties@, anchors.len())
}

/// The anchors being written, innermost last: each one once, and each one of
/// the anchors.
pub open spec fn stack_ok(stack: Seq<usize>, n: nat) -> bool {
    &&& forall|i: int, j: int| 0 <= i < j < stack.len() ==> stack[i] != stack[j]
    &&& forall|i: int| 0 <= i < stack.len() ==> stack[i] < n
}

/// A stack that holds each of `n` anchors at most once holds at most `n`.
pub proof fn lemma_stack_bound(stack: Seq<usize>, n: nat)
    requires
        stack_ok(stack, n),
    ensures
        stack.len() <= n,
    decreases n,
{
    if n == 0 {
        if stack.len() > 0 {
            assert(stack[0] < 0);
        }
    } else {
        let top = (n - 1) as usize;
        if stack.contains(top) {
            let j = choose|j: int| 0 <= j < stack.len() && stack[j] == top;
            let rest = stack.remove(j);
            assert forall|a: int, b: int| 0 <= a < b < rest.len() implies rest[a] != rest[b] by {
                let x = if a < j { a } else { a + 1 };
                let y = if b < j { b } else { b + 1 };
                assert(rest[a] == stack[x] && rest[b] == stack[y]);
            }
            assert forall|a: int| 0 <= a < rest.len() implies rest[a] < (n - 1) as nat by {
                let x = if a < j { a } else { a + 1 };
                assert(rest[a] == stack[x]);
                assert(x != j);
            }
            lemma_stack_bound(rest, (n - 1) as nat);
        } else {
            assert forall|a: int| 0 <= a < stack.len() implies stack[a] < (n - 1) as nat by {
                if stack[a] == top {
                    assert(stack.contains(top));
                }
            }
            lemma_stack_bound(stack, (n - 1) as nat);
        }
    }
}

/// An anchor not on the stack leaves room for one more.
pub proof fn lemma_stack_room(stack: Seq<usize>, n: nat, id: usize)
    requires
        stack_ok(stack, n),
        id < n,
        !stack.contains(id),
    ensures
        stack.len() < n,
        stack_ok(stack.push(id), n),
{
    let grown = stack.push(id);
    assert forall|i: int, j: int| 0 <= i < j < grown.len() implies grown[i] != grown[j] by {
        if j == stack.len() {
            assert(stack[i] == grown[i]);
        }
    }
    lemma_stack_bound(grown, n);
}

} // verus!
