//! The description of a signal graph: a tree of nodes, each under an identity that
//! its content decides.

use crate::json::object_entries;
use serde_json::Value;
use std::collections::hash_map::DefaultHasher;
use std::hash::{Hash, Hasher};
use vstd::prelude::*;
use vstd::std_specs::hash::DefaultHasherAdditionalSpecFns;

verus! {

/// A node of a signal graph, as a caller describes it: an owned tree, each node
/// carrying the identity under which the runtime knows it.
#[derive(Debug, PartialEq)]
pub struct NodeRepr {
    pub hash: i32,
    pub kind: String,
    pub props: serde_json::Map<String, Value>,
    pub output_channel: u32,
    pub children: Vec<NodeRepr>,
}

/// What hashing a string writes to a hasher.
pub uninterp spec fn str_hash_writes(s: Seq<char>) -> Seq<Seq<u8>>;

/// What hashing a JSON object of the given entries writes to a hasher.
pub uninterp spec fn object_hash_writes(entries: Seq<(Seq<char>, Value)>) -> Seq<Seq<u8>>;

/// What hashing an `i32` writes to a hasher.
pub uninterp spec fn i32_hash_writes(x: i32) -> Seq<Seq<u8>>;

/// `Hash::hash` of `str`: what it writes to the hasher comes behind what was
/// written, and the string alone decides it.
#[verifier::external_body]
fn hash_str(s: &str, state: &mut DefaultHasher)
    ensures
        final(state)@ == old(state)@ + str_hash_writes(s@),
{
    s.hash(state)
}

/// `Hash::hash` of `serde_json::Map`: what it writes to the hasher comes behind what
/// was written, and the entries of the object, in the object's order, alone decide
/// it.
#[verifier::external_body]
fn hash_object(m: &serde_json::Map<String, Value>, state: &mut DefaultHasher)
    ensures
        final(state)@ == old(state)@ + object_hash_writes(object_entries(*m)),
{
    m.hash(state)
}

/// `Hash::hash` of `i32`: what it writes to the hasher comes behind what was
/// written, and the number alone decides it.
#[verifier::external_body]
fn hash_i32(x: i32, state: &mut DefaultHasher)
    ensures
        final(state)@ == old(state)@ + i32_hash_writes(x),
{
    x.hash(state)
}

/// The identities of `nodes`, in order.
pub open spec fn hashes_of(nodes: Seq<NodeRepr>) -> Seq<i32> {
    Seq::new(nodes.len(), |i: int| nodes[i].hash)
}

/// What hashing the identities of the children, one after the other, writes to a
/// hasher.
pub open spec fn child_hash_writes(hashes: Seq<i32>) -> Seq<Seq<u8>>
    decreases hashes.len(),
{
    if hashes.len() == 0 {
        Seq::empty()
    } else {
        child_hash_writes(hashes.drop_last()) + i32_hash_writes(hashes.last())
    }
}

/// All that is written to the hasher of a node's identity: the kind, the
/// properties, the identities of the children.
pub open spec fn identity_writes(
    kind: Seq<char>,
    props: Seq<(Seq<char>, Value)>,
    children: Seq<i32>,
) -> Seq<Seq<u8>> {
    str_hash_writes(kind) + object_hash_writes(props) + child_hash_writes(children)
}

/// The identity of the node of the given kind and properties whose children have
/// the given identities: the hash of this content, cut to 32 bits.
pub open spec fn node_identity(
    kind: Seq<char>,
    props: Seq<(Seq<char>, Value)>,
    children: Seq<i32>,
) -> i32 {
    DefaultHasher::spec_finish(identity_writes(kind, props, children)) as i32
}

/// Whether `node` stands under the identity of its content.
pub open spec fn is_content_addressed(node: NodeRepr) -> bool {
    node.hash == node_identity(node.kind@, object_entries(node.props), hashes_of(node.children@))
}

/// Identity is determined by content: two nodes under the identities of their
/// contents, of one kind, with the same properties and with children of the same
/// identities, have the same identity, wherever they stand.
pub proof fn identity_is_determined_by_content(a: NodeRepr, b: NodeRepr)
    requires
        is_content_addressed(a),
        is_content_addressed(b),
        a.kind@ == b.kind@,
        object_entries(a.props) == object_entries(b.props),
        hashes_of(a.children@) == hashes_of(b.children@),
    ensures
        a.hash == b.hash,
{
}

/// Makes the node of the given kind, properties and children. Its identity is the
/// hash of the kind, the properties and the identities of the children; it offers
/// its first output.
pub fn create_node(
    kind: &str,
    props: serde_json::Map<String, Value>,
    children: Vec<NodeRepr>,
) -> (node: NodeRepr)
    ensures
        node.hash == node_identity(kind@, object_entries(props), hashes_of(children@)),
        is_content_addressed(node),
        node.kind@ == kind@,
        node.props == props,
        node.output_channel == 0,
        node.children == children,
{
    let mut hasher = DefaultHasher::new();
    hash_str(kind, &mut hasher);
    hash_object(&props, &mut hasher);
    let mut i: usize = 0;
    while i < children.len()
        invariant
            i <= children.len(),
            hasher@ == str_hash_writes(kind@) + object_hash_writes(object_entries(props))
                + child_hash_writes(hashes_of(children@).take(i as int)),
        decreases children.len() - i,
    {
        proof {
            let hs = hashes_of(children@);
            assert(hs.take(i + 1).drop_last() == hs.take(i as int));
        }
        hash_i32(children[i].hash, &mut hasher);
        i += 1;
    }
    proof {
        let hs = hashes_of(children@);
        assert(hs.take(children.len() as int) == hs);
    }
    NodeRepr {
        hash: hasher.finish() as i32,
        kind: kind.to_string(),
        props,
        output_channel: 0,
        children,
    }
}

/// What the reconciler remembers of a node that it has mounted: the node without
/// its subtrees, the children named by identity.
#[derive(Debug, PartialEq)]
pub struct ShallowNodeRepr {
    hash: i32,
    kind: String,
    props: serde_json::Map<String, Value>,
    output_channel: u32,
    children: Vec<i32>,
}

/// The mathematical content of a [`ShallowNodeRepr`].
pub struct ShallowNodeView {
    pub hash: i32,
    pub kind: Seq<char>,
    pub props: Seq<(Seq<char>, Value)>,
    pub output_channel: u32,
    pub children: Seq<i32>,
}

impl View for ShallowNodeRepr {
    type V = ShallowNodeView;

    closed spec fn view(&self) -> ShallowNodeView {
        ShallowNodeView {
            hash: self.hash,
            kind: self.kind@,
            props: object_entries(self.props),
            output_channel: self.output_channel,
            children: self.children@,
        }
    }
}

impl ShallowNodeRepr {
    /// The identity of the node.
    pub fn hash(&self) -> (hash: i32)
        ensures
            hash == self@.hash,
    {
        self.hash
    }

    /// The kind of the node.
    pub fn kind(&self) -> (kind: &str)
        ensures
            kind@ == self@.kind,
    {
        self.kind.as_str()
    }

    /// The properties that the node had when it was mounted.
    pub fn props(&self) -> (props: &serde_json::Map<String, Value>)
        ensures
            object_entries(*props) == self@.props,
    {
        &self.props
    }

    /// The output of the node that its parent takes.
    pub fn output_channel(&self) -> (output_channel: u32)
        ensures
            output_channel == self@.output_channel,
    {
        self.output_channel
    }

    /// The identities of the children of the node.
    pub fn children(&self) -> (children: &Vec<i32>)
        ensures
            children@ == self@.children,
    {
        &self.children
    }
}

/// The record that stands for `node` once it is mounted.
pub open spec fn shallow_view(node: NodeRepr) -> ShallowNodeView {
    ShallowNodeView {
        hash: node.hash,
        kind: node.kind@,
        props: object_entries(node.props),
        output_channel: node.output_channel,
        children: hashes_of(node.children@),
    }
}

/// The record of `node`: all of it but the subtrees.
pub fn shallow_clone(node: &NodeRepr) -> (record: ShallowNodeRepr)
    ensures
        record@ == shallow_view(*node),
{
    let mut children: Vec<i32> = Vec::new();
    let mut i: usize = 0;
    while i < node.children.len()
        invariant
            i <= node.children.len(),
            children@ == hashes_of(node.children@).take(i as int),
        decreases node.children.len() - i,
    {
        children.push(node.children[i].hash);
        i += 1;
    }
    assert(children@ == hashes_of(node.children@));
    ShallowNodeRepr {
        hash: node.hash,
        kind: node.kind.clone(),
        props: node.props.clone(),
        output_channel: node.output_channel,
        children,
    }
}

/// The number of nodes of the tree under `node`, `node` included.
pub open spec fn tree_size(node: NodeRepr) -> nat
    decreases node,
{
    1 + forest_size(node.children@)
}

/// The number of nodes of all the trees in `nodes`.
pub open spec fn forest_size(nodes: Seq<NodeRepr>) -> nat
    decreases nodes,
{
    if nodes.len() == 0 {
        0
    } else {
        forest_size(nodes.drop_last()) + tree_size(nodes.last())
    }
}

/// The size of two forests laid end to end is the sum of their sizes.
pub proof fn lemma_forest_size_add(a: Seq<NodeRepr>, b: Seq<NodeRepr>)
    ensures
        forest_size(a + b) == forest_size(a) + forest_size(b),
    decreases b.len(),
{
    if b.len() == 0 {
        assert(a + b == a);
    } else {
        lemma_forest_size_add(a, b.drop_last());
        assert((a + b).drop_last() == a + b.drop_last());
    }
}

} // verus!
