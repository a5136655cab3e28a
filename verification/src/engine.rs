//! The control side of the engine: the handle that reconciles graphs and plans the
//! rendering of directives. It makes no call on the native runtime itself: it says
//! which calls to make.

pub use crate::audio::{AudioBuffer, FloatType};
use crate::instruction::{is_ordered, sort_instructions, Instruction, InstructionView};
use crate::json::{entries_of, object_entries};
use crate::node::{
    forest_size, hashes_of, shallow_clone, shallow_view, NodeRepr, ShallowNodeRepr,
    ShallowNodeView,
};
use crate::reconcile::{
    batch_is_ordered_and_committed, emitted_instructions, lemma_forest_size_first,
    mount_instructions, node_instructions, property_instructions, reconciled_batch, records_after,
    visit_order, visited_nodes, walk_instructions,
};
use std::collections::{BTreeMap, HashSet, VecDeque};
use vstd::prelude::*;

verus! {

/// The reconciler: it remembers which nodes the runtime holds and turns each
/// description of a graph into the instructions that bring the runtime to it. Its
/// records only grow: a node that is no longer named stays remembered.
pub struct MainHandle {
    node_map: BTreeMap<i32, ShallowNodeRepr>,
}

impl View for MainHandle {
    type V = Map<i32, ShallowNodeView>;

    closed spec fn view(&self) -> Map<i32, ShallowNodeView> {
        records_of(self.node_map@)
    }
}

/// The content of a map of records.
pub open spec fn records_of(node_map: Map<i32, ShallowNodeRepr>) -> Map<i32, ShallowNodeView> {
    node_map.map_values(|record: ShallowNodeRepr| record@)
}

/// What a client asks for: the graph to bring the runtime to, and the resources
/// that the graph's nodes name.
pub struct Directive<T> {
    pub graph: Option<Vec<NodeRepr>>,
    pub resources: Option<Vec<(String, AudioBuffer<T>)>>,
}

/// One call to make on the native runtime.
pub enum RuntimeCall<T> {
    /// Register `buffer` under `name`.
    AddSharedResource { name: String, buffer: AudioBuffer<T> },
    /// Apply `batch` as one whole.
    ApplyInstructions { batch: Vec<Instruction> },
}

impl<T> Directive<T> {
    /// A directive names each of its resources once.
    pub open spec fn wf(self) -> bool {
        names_apart(resources_of(self))
    }
}

/// The resources that a directive brings, none where it names none.
pub open spec fn resources_of<T>(directive: Directive<T>) -> Seq<(String, AudioBuffer<T>)> {
    match directive.resources {
        Some(resources) => resources@,
        None => Seq::empty(),
    }
}

/// Whether no two of the resources share a name.
pub open spec fn names_apart<T>(resources: Seq<(String, AudioBuffer<T>)>) -> bool {
    forall|i: int, j: int| 0 <= i < j < resources.len() ==> resources[i].0@ != resources[j].0@
}

/// Whether `calls` is what rendering `directive` asks of the runtime while the
/// identities in `mounted` are mounted: one registration for each resource, in the
/// directive's order, and then, where the directive holds a graph, the application
/// of the graph's batch.
pub open spec fn is_render_plan<T>(
    calls: Seq<RuntimeCall<T>>,
    directive: Directive<T>,
    mounted: Set<i32>,
) -> bool {
    let resources = resources_of(directive);
    &&& calls.len() == resources.len() + if directive.graph is Some {
        1int
    } else {
        0int
    }
    &&& forall|i: int|
        0 <= i < resources.len() ==> #[trigger] calls[i] == (RuntimeCall::AddSharedResource {
            name: resources[i].0,
            buffer: resources[i].1,
        })
    &&& directive.graph matches Some(graph) ==> calls.last() matches RuntimeCall::ApplyInstructions {
        batch,
    } && batch.deep_view() == reconciled_batch(graph@, mounted)
}

/// Whether every registration of a resource stands before every application of a
/// batch.
pub open spec fn resources_come_first<T>(calls: Seq<RuntimeCall<T>>) -> bool {
    forall|i: int, j: int|
        0 <= i < calls.len() && 0 <= j < calls.len() && calls[i] is AddSharedResource
            && calls[j] is ApplyInstructions ==> i < j
}

/// A plan of a rendering has the resources first.
pub proof fn render_plan_has_resources_first<T>(
    calls: Seq<RuntimeCall<T>>,
    directive: Directive<T>,
    mounted: Set<i32>,
)
    requires
        is_render_plan(calls, directive, mounted),
    ensures
        resources_come_first(calls),
{
    let resources = resources_of(directive);
    assert forall|i: int, j: int|
        0 <= i < calls.len() && 0 <= j < calls.len() && calls[i] is AddSharedResource
            && calls[j] is ApplyInstructions implies i < j by {
        if j < resources.len() {
            assert(calls[j] is AddSharedResource);
        }
    }
}

/// The empty directive is a no-op: it asks nothing of the runtime and leaves the
/// records as they are.
pub proof fn empty_directive_asks_nothing<T>(
    calls: Seq<RuntimeCall<T>>,
    directive: Directive<T>,
    records: Map<i32, ShallowNodeView>,
)
    requires
        directive.graph is None,
        directive.resources is None,
        is_render_plan(calls, directive, records.dom()),
    ensures
        calls.len() == 0,
        records_after_render(directive, records) == records,
{
}

/// The records after rendering `directive`: those of the pass over its graph, the
/// same as before where it holds none.
pub open spec fn records_after_render<T>(
    directive: Directive<T>,
    records: Map<i32, ShallowNodeView>,
) -> Map<i32, ShallowNodeView> {
    match directive.graph {
        Some(graph) => records_after(visited_nodes(graph@), records),
        None => records,
    }
}

/// Whether each record stands under the identity that it holds.
pub open spec fn keyed_by_identity(records: Map<i32, ShallowNodeView>) -> bool {
    forall|hash: i32| #[trigger] records.contains_key(hash) ==> records[hash].hash == hash
}

/// The nodes that wait in a queue of references.
pub open spec fn waiting(queue: Seq<&NodeRepr>) -> Seq<NodeRepr> {
    Seq::new(queue.len(), |i: int| *queue[i])
}

/// Puts one instruction at the end of `out`.
fn push_instruction(out: &mut Vec<Instruction>, instruction: Instruction)
    ensures
        final(out).deep_view() == old(out).deep_view().push(instruction@),
{
    out.push(instruction);
    assert(out.deep_view() =~= old(out).deep_view().push(instruction@));
}

/// Puts what mounts `node` at the end of `out`.
fn push_mount(node: &NodeRepr, out: &mut Vec<Instruction>)
    ensures
        final(out).deep_view() == old(out).deep_view() + mount_instructions(*node),
{
    let ghost before = out.deep_view();
    push_instruction(out, Instruction::Create { hash: node.hash, kind: node.kind.clone() });
    assert(mount_instructions(*node).take(1) == seq![mount_instructions(*node)[0]]);
    let mut i: usize = 0;
    while i < node.children.len()
        invariant
            i <= node.children.len(),
            out.deep_view() == before + mount_instructions(*node).take(i + 1),
        decreases node.children.len() - i,
    {
        let child = &node.children[i];
        push_instruction(
            out,
            Instruction::AppendChild {
                parent: node.hash,
                child: child.hash,
                output_channel: child.output_channel,
            },
        );
        proof {
            let all = mount_instructions(*node);
            assert(all.take(i + 2) == all.take(i + 1).push(all[i + 1]));
        }
        i += 1;
    }
    assert(mount_instructions(*node).take(i + 1) == mount_instructions(*node));
}

/// Puts one write for each property of `node` at the end of `out`.
fn push_properties(node: &NodeRepr, out: &mut Vec<Instruction>)
    ensures
        final(out).deep_view() == old(out).deep_view() + property_instructions(*node),
{
    let ghost before = out.deep_view();
    let entries = entries_of(&node.props);
    let mut i: usize = 0;
    while i < entries.len()
        invariant
            i <= entries.len(),
            entries@.len() == object_entries(node.props).len(),
            forall|k: int|
                0 <= k < entries@.len() ==> (#[trigger] entries@[k]).0@ == object_entries(
                    node.props,
                )[k].0 && entries@[k].1 == object_entries(node.props)[k].1,
            out.deep_view() == before + property_instructions(*node).take(i as int),
        decreases entries.len() - i,
    {
        push_instruction(
            out,
            Instruction::SetProperty {
                hash: node.hash,
                name: entries[i].0.clone(),
                value: entries[i].1.clone(),
            },
        );
        proof {
            let all = property_instructions(*node);
            assert(all.take(i + 1) == all.take(i as int).push(all[i as int]));
        }
        i += 1;
    }
    assert(property_instructions(*node).take(i as int) == property_instructions(*node));
}

/// The identities of `nodes`, in order.
fn node_hashes(nodes: &Vec<NodeRepr>) -> (hashes: Vec<i32>)
    ensures
        hashes@ == hashes_of(nodes@),
{
    let mut hashes: Vec<i32> = Vec::new();
    let mut i: usize = 0;
    while i < nodes.len()
        invariant
            i <= nodes.len(),
            hashes@ == hashes_of(nodes@).take(i as int),
        decreases nodes.len() - i,
    {
        hashes.push(nodes[i].hash);
        i += 1;
    }
    assert(hashes@ == hashes_of(nodes@));
    hashes
}

/// Lets `nodes` wait at the end of `queue`.
fn enqueue<'a>(nodes: &'a Vec<NodeRepr>, queue: &mut VecDeque<&'a NodeRepr>)
    ensures
        waiting(final(queue)@) == waiting(old(queue)@) + nodes@,
{
    let mut i: usize = 0;
    while i < nodes.len()
        invariant
            i <= nodes.len(),
            waiting(queue@) == waiting(old(queue)@) + nodes@.take(i as int),
        decreases nodes.len() - i,
    {
        let ghost before = queue@;
        queue.push_back(&nodes[i]);
        proof {
            assert(nodes@.take(i + 1) == nodes@.take(i as int).push(nodes@[i as int]));
            assert(waiting(queue@) == waiting(before).push(nodes@[i as int]));
        }
        i += 1;
    }
    assert(nodes@.take(i as int) == nodes@);
}

impl MainHandle {
    #[verifier::type_invariant]
    spec fn records_are_keyed(self) -> bool {
        keyed_by_identity(self@)
    }

    /// A handle that has mounted nothing.
    pub fn new() -> (handle: MainHandle)
        ensures
            handle@ == Map::<i32, ShallowNodeView>::empty(),
            keyed_by_identity(handle@),
    {
        let node_map: BTreeMap<i32, ShallowNodeRepr> = BTreeMap::new();
        assert(records_of(node_map@) =~= Map::<i32, ShallowNodeView>::empty());
        MainHandle { node_map }
    }

    /// The record of the node of identity `hash`; `None` while it is not mounted.
    pub fn record(&self, hash: i32) -> (record: Option<&ShallowNodeRepr>)
        ensures
            match record {
                Some(r) => self@.contains_key(hash) && r@ == self@[hash],
                None => !self@.contains_key(hash),
            },
    {
        self.node_map.get(&hash)
    }

    /// The number of nodes that are mounted.
    pub fn mounted(&self) -> (count: usize)
        ensures
            count == self@.len(),
    {
        proof {
            assert(self@.dom() =~= self.node_map@.dom());
        }
        self.node_map.len()
    }

    /// Walks the graph under `roots` breadth first, each identity once, and returns
    /// the batch that brings the runtime to it: a node that was not mounted is
    /// created, gets its children attached and is remembered; every visited node
    /// has all its properties written; the roots are activated; the batch is
    /// committed. The batch is sorted by opcode.
    pub fn reconcile(&mut self, roots: &Vec<NodeRepr>) -> (batch: Vec<Instruction>)
        ensures
            batch.deep_view() == reconciled_batch(roots@, old(self)@.dom()),
            is_ordered(batch.deep_view()),
            batch.deep_view().last() == InstructionView::Commit,
            final(self)@ == records_after(visited_nodes(roots@), old(self)@),
            keyed_by_identity(final(self)@),
    {
        let ghost records = self@;
        let ghost total = visit_order(roots@, Set::empty());
        let ghost mut done: Seq<NodeRepr> = Seq::empty();
        proof {
            use_type_invariant(&*self);
        }
        let mut node_map: BTreeMap<i32, ShallowNodeRepr> = BTreeMap::new();
        assert(records_of(node_map@) =~= Map::<i32, ShallowNodeView>::empty());
        std::mem::swap(&mut self.node_map, &mut node_map);
        let mut visited: HashSet<i32> = HashSet::new();
        let mut queue: VecDeque<&NodeRepr> = VecDeque::new();
        let mut instructions: Vec<Instruction> = Vec::new();
        enqueue(roots, &mut queue);
        assert(waiting(queue@) == roots@);
        assert(total == done + visit_order(waiting(queue@), visited@));
        assert(records.dom() =~= records.dom().union(visited@));
        while queue.len() > 0
            invariant
                total == done + visit_order(waiting(queue@), visited@),
                records_of(node_map@) == records_after(done, records),
                records_of(node_map@).dom() == records.dom().union(visited@),
                keyed_by_identity(records_of(node_map@)),
                instructions.deep_view() == walk_instructions(done, records.dom()),
            decreases forest_size(waiting(queue@)),
        {
            let ghost before = waiting(queue@);
            let ghost seen = visited@;
            let ghost held = records_of(node_map@);
            let next = queue.pop_front().unwrap();
            proof {
                lemma_forest_size_first(before);
                assert(waiting(queue@) == before.drop_first());
                assert(*next == before.first());
            }
            if !visited.contains(&next.hash) {
                let ghost sent = instructions.deep_view();
                let mounted = node_map.contains_key(&next.hash);
                assert(mounted == records.dom().contains(next.hash)) by {
                    assert(held.dom().contains(next.hash) == node_map@.contains_key(next.hash));
                }
                if !mounted {
                    push_mount(next, &mut instructions);
                    let record = shallow_clone(next);
                    node_map.insert(next.hash, record);
                    assert(records_of(node_map@) =~= held.insert(next.hash, shallow_view(*next)));
                }
                push_properties(next, &mut instructions);
                enqueue(&next.children, &mut queue);
                visited.insert(next.hash);
                proof {
                    let order = done.push(*next);
                    assert(order.drop_last() == done);
                    assert(order.last() == *next);
                    assert(instructions.deep_view() =~= sent + node_instructions(
                        *next,
                        records.dom(),
                    ));
                    assert(walk_instructions(order, records.dom()) == walk_instructions(
                        done,
                        records.dom(),
                    ) + node_instructions(*next, records.dom()));
                    assert(records_of(node_map@) == records_after(order, records));
                    assert(visit_order(before, seen) == seq![*next] + visit_order(
                        waiting(queue@),
                        visited@,
                    ));
                    assert(done + (seq![*next] + visit_order(waiting(queue@), visited@)) =~= order
                        + visit_order(waiting(queue@), visited@));
                    assert(records_of(node_map@).dom() =~= records.dom().union(visited@));
                    done = order;
                }
            } else {
                assert(visit_order(before, seen) == visit_order(waiting(queue@), visited@));
            }
        }
        self.node_map = node_map;
        assert(done == total);
        let hashes = node_hashes(roots);
        push_instruction(&mut instructions, Instruction::ActivateRoots { roots: hashes });
        push_instruction(&mut instructions, Instruction::Commit);
        assert(instructions.deep_view() == emitted_instructions(roots@, records.dom()));
        proof {
            batch_is_ordered_and_committed(roots@, records.dom());
        }
        sort_instructions(instructions)
    }

    /// Plans the rendering of a directive: the calls to make on the runtime, in the
    /// order in which to make them. The resources are registered first, so that the
    /// graph's batch, which comes last, finds each of them.
    pub fn render<T>(&mut self, directive: Directive<T>) -> (calls: Vec<RuntimeCall<T>>)
        ensures
            is_render_plan(calls@, directive, old(self)@.dom()),
            resources_come_first(calls@),
            final(self)@ == records_after_render(directive, old(self)@),
            keyed_by_identity(final(self)@),
    {
        let ghost mounted = self@.dom();
        proof {
            use_type_invariant(&*self);
        }
        let Directive { graph, resources } = directive;
        let mut calls: Vec<RuntimeCall<T>> = Vec::new();
        if let Some(resources) = resources {
            let ghost all = resources@;
            for resource in it: resources.into_iter()
                invariant
                    it.seq() == all,
                    calls@.len() == it.index(),
                    forall|k: int|
                        0 <= k < calls@.len() ==> #[trigger] calls@[k]
                            == (RuntimeCall::AddSharedResource {
                            name: all[k].0,
                            buffer: all[k].1,
                        }),
            {
                let (name, buffer) = resource;
                calls.push(RuntimeCall::AddSharedResource { name, buffer });
            }
        }
        if let Some(graph) = graph {
            let batch = self.reconcile(&graph);
            calls.push(RuntimeCall::ApplyInstructions { batch });
        }
        proof {
            render_plan_has_resources_first(calls@, directive, mounted);
        }
        calls
    }
}

} // verus!
