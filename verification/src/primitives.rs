//! The first few kinds of nodes, as functions that build them.

use crate::json::{
    json_from_optional_str, json_optional_string, key_precedes, object_entries, object_insert,
    object_new, with_entry,
};
use crate::node::{create_node, hashes_of, node_identity, NodeRepr};
use crate::seq_facts::{lemma_filter_all, lemma_filter_none};
use serde_json::Value;
use vstd::prelude::*;

verus! {

/// Whether `node` is the node of the given kind, properties and children, under
/// the identity that this content has, and offers its first output.
pub open spec fn is_node_of(
    node: NodeRepr,
    kind: Seq<char>,
    props: Seq<(Seq<char>, Value)>,
    children: Seq<NodeRepr>,
) -> bool {
    &&& node.hash == node_identity(kind, props, hashes_of(children))
    &&& node.kind@ == kind
    &&& object_entries(node.props) == props
    &&& node.output_channel == 0
    &&& node.children@ == children
}

/// The node that sends `x` to the output channel that `channel` names.
pub fn root(x: NodeRepr, channel: Value) -> (node: NodeRepr)
    ensures
        is_node_of(node, "root"@, seq![("channel"@, channel)], seq![x]),
{
    let mut props = object_new();
    object_insert(&mut props, "channel", channel);
    proof {
        lemma_first_entry("channel"@, channel);
    }
    let children = vec![x];
    assert(children@ == seq![x]);
    create_node("root", props, children)
}

/// The sine of `x`.
pub fn sin(x: NodeRepr) -> (node: NodeRepr)
    ensures
        is_node_of(node, "sin"@, Seq::empty(), seq![x]),
{
    let children = vec![x];
    assert(children@ == seq![x]);
    create_node("sin", object_new(), children)
}

/// The product of `x` and `y`.
pub fn mul2(x: NodeRepr, y: NodeRepr) -> (node: NodeRepr)
    ensures
        is_node_of(node, "mul"@, Seq::empty(), seq![x, y]),
{
    let children = vec![x, y];
    assert(children@ == seq![x, y]);
    create_node("mul", object_new(), children)
}

/// A ramp from 0 to 1 that repeats `rate` times a second.
pub fn phasor(rate: NodeRepr) -> (node: NodeRepr)
    ensures
        is_node_of(node, "phasor"@, Seq::empty(), seq![rate]),
{
    let children = vec![rate];
    assert(children@ == seq![rate]);
    create_node("phasor", object_new(), children)
}

/// The properties of a constant: the number it holds and, where it has one, the
/// key under which the runtime finds it again.
pub struct ConstNodeProps {
    pub key: Option<String>,
    pub value: Value,
}

/// The JSON value of the key of a constant.
pub open spec fn key_json(key: Option<String>) -> Value {
    json_optional_string(
        match key {
            Some(k) => Some(k@),
            None => None,
        },
    )
}

/// A node that holds a constant.
pub fn constant(props: &ConstNodeProps) -> (node: NodeRepr)
    ensures
        is_node_of(
            node,
            "const"@,
            seq![("key"@, key_json(props.key)), ("value"@, props.value)],
            Seq::empty(),
        ),
{
    let key = match &props.key {
        Some(k) => json_from_optional_str(Some(k.as_str())),
        None => json_from_optional_str(None),
    };
    let mut object = object_new();
    object_insert(&mut object, "key", key);
    object_insert(&mut object, "value", props.value.clone());
    proof {
        lemma_first_entry("key"@, key);
        lemma_key_before_value();
        let first = seq![("key"@, key)];
        lemma_filter_all(first, |e: (Seq<char>, Value)| key_precedes(e.0, "value"@));
        assert(with_entry(first, "value"@, props.value) == seq![
            ("key"@, key),
            ("value"@, props.value),
        ]);
    }
    create_node("const", object, Vec::new())
}

/// An object that gets its first entry holds that entry alone.
proof fn lemma_first_entry(key: Seq<char>, value: Value)
    ensures
        with_entry(Seq::empty(), key, value) == seq![(key, value)],
{
    let none = Seq::<(Seq<char>, Value)>::empty();
    lemma_filter_none(none, |e: (Seq<char>, Value)| key_precedes(e.0, key));
    assert(none.insert(0, (key, value)) == seq![(key, value)]);
}

/// In the order of strings "key" stands before "value".
proof fn lemma_key_before_value()
    ensures
        key_precedes("key"@, "value"@),
{
    reveal_strlit("key");
    reveal_strlit("value");
    assert("key"@[0] == 'k');
    assert("value"@[0] == 'v');
}

} // verus!
