//! What reconciling means: which nodes a pass over the roots visits, which
//! instructions it yields, and what it remembers. The handle that does it is in
//! `engine`; what holds of every pass is proved here.

use crate::instruction::{
    has_opcode, instructions_about, is_about, is_ordered, lemma_one_commit, lemma_sorted_add,
    lemma_sorted_filter, lemma_sorted_opcodes, sorted_by_opcode, sorted_is_ordered,
    sorted_of_ordered_is_itself, with_opcode, InstructionView,
};
use crate::json::object_entries;
use crate::node::{
    forest_size, hashes_of, lemma_forest_size_add, shallow_view, tree_size, NodeRepr,
    ShallowNodeView,
};
use crate::seq_facts::{lemma_filter_all, lemma_filter_none};
use vstd::prelude::*;

verus! {

/// The nodes that a breadth-first walk visits, in the order of the visits. The walk
/// starts with `queue` waiting and the identities in `visited` already seen; it
/// visits a node only if its identity has not been seen, and then lets the node's
/// children wait behind all that wait.
pub open spec fn visit_order(queue: Seq<NodeRepr>, visited: Set<i32>) -> Seq<NodeRepr>
    decreases forest_size(queue),
    via visit_order_decreases
{
    if queue.len() == 0 {
        Seq::empty()
    } else {
        let next = queue.first();
        let rest = queue.drop_first();
        if visited.contains(next.hash) {
            visit_order(rest, visited)
        } else {
            seq![next] + visit_order(rest + next.children@, visited.insert(next.hash))
        }
    }
}

#[via_fn]
proof fn visit_order_decreases(queue: Seq<NodeRepr>, visited: Set<i32>) {
    if queue.len() > 0 {
        lemma_forest_size_first(queue);
    }
}

/// The nodes that a pass over `roots` visits, in the order of the visits.
pub open spec fn visited_nodes(roots: Seq<NodeRepr>) -> Seq<NodeRepr> {
    visit_order(roots, Set::empty())
}

/// Whether one of `order` has the identity `hash`.
pub open spec fn visits(order: Seq<NodeRepr>, hash: i32) -> bool {
    exists|k: int| 0 <= k < order.len() && (#[trigger] order[k]).hash == hash
}

/// Whether no two of `nodes` share an identity.
pub open spec fn distinct_hashes(nodes: Seq<NodeRepr>) -> bool {
    forall|i: int, j: int| 0 <= i < j < nodes.len() ==> nodes[i].hash != nodes[j].hash
}

/// The creation of `node`.
pub open spec fn creation(node: NodeRepr) -> InstructionView {
    InstructionView::Create { hash: node.hash, kind: node.kind@ }
}

/// One attachment under `node` for each of its children, in their order.
pub open spec fn attachments(node: NodeRepr) -> Seq<InstructionView> {
    Seq::new(
        node.children@.len(),
        |i: int|
            InstructionView::AppendChild {
                parent: node.hash,
                child: node.children@[i].hash,
                output_channel: node.children@[i].output_channel,
            },
    )
}

/// What mounting `node` sends: its creation, then one attachment for each child.
pub open spec fn mount_instructions(node: NodeRepr) -> Seq<InstructionView> {
    seq![creation(node)] + attachments(node)
}

/// One property write for each entry of `node`'s properties, in the mapping's order.
pub open spec fn property_instructions(node: NodeRepr) -> Seq<InstructionView> {
    let entries = object_entries(node.props);
    Seq::new(
        entries.len(),
        |i: int|
            InstructionView::SetProperty {
                hash: node.hash,
                name: entries[i].0,
                value: entries[i].1,
            },
    )
}

/// What a visit of `node` sends while the identities in `mounted` are mounted.
pub open spec fn node_instructions(node: NodeRepr, mounted: Set<i32>) -> Seq<InstructionView> {
    if mounted.contains(node.hash) {
        property_instructions(node)
    } else {
        mount_instructions(node) + property_instructions(node)
    }
}

/// What the visits of `order` send, one after the other.
pub open spec fn walk_instructions(order: Seq<NodeRepr>, mounted: Set<i32>) -> Seq<
    InstructionView,
>
    decreases order.len(),
{
    if order.len() == 0 {
        Seq::empty()
    } else {
        walk_instructions(order.drop_last(), mounted) + node_instructions(order.last(), mounted)
    }
}

/// The end of every batch: the activation of the roots, then the commit.
pub open spec fn batch_end(roots: Seq<NodeRepr>) -> Seq<InstructionView> {
    seq![InstructionView::ActivateRoots { roots: hashes_of(roots) }, InstructionView::Commit]
}

/// The instructions of a pass over `roots` in the order of their making: the walk's,
/// the activation of the roots, the commit.
pub open spec fn emitted_instructions(roots: Seq<NodeRepr>, mounted: Set<i32>) -> Seq<
    InstructionView,
> {
    walk_instructions(visited_nodes(roots), mounted) + batch_end(roots)
}

/// The batch that reconciling `roots` yields while the identities in `mounted` are
/// mounted: the instructions of the pass, sorted by opcode.
pub open spec fn reconciled_batch(roots: Seq<NodeRepr>, mounted: Set<i32>) -> Seq<
    InstructionView,
> {
    sorted_by_opcode(emitted_instructions(roots, mounted))
}

/// The records after the visits of `order`: a visited node whose identity had no
/// record gets one, and no record changes.
pub open spec fn records_after(order: Seq<NodeRepr>, records: Map<i32, ShallowNodeView>) -> Map<
    i32,
    ShallowNodeView,
>
    decreases order.len(),
{
    if order.len() == 0 {
        records
    } else {
        let before = records_after(order.drop_last(), records);
        let node = order.last();
        if before.contains_key(node.hash) {
            before
        } else {
            before.insert(node.hash, shallow_view(node))
        }
    }
}

/// Taking the first node off a queue takes its tree off the queue's size.
pub proof fn lemma_forest_size_first(queue: Seq<NodeRepr>)
    requires
        queue.len() > 0,
    ensures
        forest_size(queue) == tree_size(queue.first()) + forest_size(queue.drop_first()),
        forest_size(queue.drop_first() + queue.first().children@) + 1 == forest_size(queue),
{
    let head = seq![queue.first()];
    assert(head.drop_last() == Seq::<NodeRepr>::empty());
    assert(forest_size(head.drop_last()) == 0);
    assert(forest_size(head) == tree_size(queue.first()));
    assert(queue == head + queue.drop_first());
    lemma_forest_size_add(head, queue.drop_first());
    lemma_forest_size_add(queue.drop_first(), queue.first().children@);
}

/// A walk visits no identity twice, and none that was seen before it began.
pub proof fn lemma_visit_order_distinct(queue: Seq<NodeRepr>, visited: Set<i32>)
    ensures
        distinct_hashes(visit_order(queue, visited)),
        forall|i: int|
            0 <= i < visit_order(queue, visited).len() ==> !visited.contains(
                (#[trigger] visit_order(queue, visited)[i]).hash,
            ),
    decreases forest_size(queue),
{
    if queue.len() > 0 {
        lemma_forest_size_first(queue);
        let next = queue.first();
        let rest = queue.drop_first();
        if visited.contains(next.hash) {
            lemma_visit_order_distinct(rest, visited);
        } else {
            let tail = visit_order(rest + next.children@, visited.insert(next.hash));
            lemma_visit_order_distinct(rest + next.children@, visited.insert(next.hash));
            let order = visit_order(queue, visited);
            assert(order == seq![next] + tail);
            assert forall|i: int| 0 <= i < order.len() implies !visited.contains(
                (#[trigger] order[i]).hash,
            ) by {
                if i > 0 {
                    assert(order[i] == tail[i - 1]);
                }
            }
            assert forall|i: int, j: int| 0 <= i < j < order.len() implies order[i].hash
                != order[j].hash by {
                assert(order[j] == tail[j - 1]);
                if i > 0 {
                    assert(order[i] == tail[i - 1]);
                }
            }
        }
    }
}

/// A walk leaves nothing out: the identity of each node that waits, and of each
/// child of each node that the walk visits, was seen before the walk or is visited.
pub proof fn lemma_walk_is_complete(queue: Seq<NodeRepr>, visited: Set<i32>)
    ensures
        forall|i: int|
            0 <= i < queue.len() ==> visited.contains((#[trigger] queue[i]).hash) || visits(
                visit_order(queue, visited),
                queue[i].hash,
            ),
        forall|k: int, c: int|
            0 <= k < visit_order(queue, visited).len() && 0 <= c < visit_order(
                queue,
                visited,
            )[k].children@.len() ==> visited.contains(
                (#[trigger] visit_order(queue, visited)[k].children@[c]).hash,
            ) || visits(
                visit_order(queue, visited),
                visit_order(queue, visited)[k].children@[c].hash,
            ),
    decreases forest_size(queue),
{
    if queue.len() == 0 {
        assert(visit_order(queue, visited).len() == 0);
    } else {
        lemma_forest_size_first(queue);
        let next = queue.first();
        let rest = queue.drop_first();
        let order = visit_order(queue, visited);
        if visited.contains(next.hash) {
            lemma_walk_is_complete(rest, visited);
            assert(order == visit_order(rest, visited));
            assert forall|i: int| 0 <= i < queue.len() implies visited.contains(
                (#[trigger] queue[i]).hash,
            ) || visits(order, queue[i].hash) by {
                if i > 0 {
                    assert(queue[i] == rest[i - 1]);
                }
            }
        } else {
            let later = rest + next.children@;
            let seen = visited.insert(next.hash);
            let tail = visit_order(later, seen);
            lemma_walk_is_complete(later, seen);
            assert(order == seq![next] + tail);
            assert(order[0] == next);
            assert forall|hash: i32| seen.contains(hash) || visits(tail, hash) implies visited.contains(
                hash,
            ) || visits(order, hash) by {
                if visits(tail, hash) {
                    let k = choose|k: int| 0 <= k < tail.len() && (#[trigger] tail[k]).hash == hash;
                    assert(order[k + 1] == tail[k]);
                }
            }
            assert forall|i: int| 0 <= i < queue.len() implies visited.contains(
                (#[trigger] queue[i]).hash,
            ) || visits(order, queue[i].hash) by {
                if i > 0 {
                    assert(queue[i] == later[i - 1]);
                    assert(seen.contains(later[i - 1].hash) || visits(tail, later[i - 1].hash));
                }
            }
            assert forall|k: int, c: int|
                0 <= k < order.len() && 0 <= c < order[k].children@.len() implies visited.contains(
                (#[trigger] order[k].children@[c]).hash,
            ) || visits(order, order[k].children@[c].hash) by {
                let child = order[k].children@[c];
                if k == 0 {
                    assert(child == later[rest.len() + c]);
                    assert(seen.contains(later[rest.len() + c].hash) || visits(
                        tail,
                        later[rest.len() + c].hash,
                    ));
                } else {
                    assert(order[k] == tail[k - 1]);
                    assert(seen.contains(tail[k - 1].children@[c].hash) || visits(
                        tail,
                        tail[k - 1].children@[c].hash,
                    ));
                }
            }
        }
    }
}

/// A pass leaves nothing out: it visits the identity of each root and of each
/// child of each node that it visits. It visits no identity twice: the node that
/// it meets first stands for all that share the identity.
pub proof fn pass_visits_each_identity_once(roots: Seq<NodeRepr>)
    ensures
        distinct_hashes(visited_nodes(roots)),
        forall|i: int|
            0 <= i < roots.len() ==> visits(visited_nodes(roots), (#[trigger] roots[i]).hash),
        forall|k: int, c: int|
            0 <= k < visited_nodes(roots).len() && 0 <= c < visited_nodes(
                roots,
            )[k].children@.len() ==> visits(
                visited_nodes(roots),
                (#[trigger] visited_nodes(roots)[k].children@[c]).hash,
            ),
{
    lemma_visit_order_distinct(roots, Set::empty());
    lemma_walk_is_complete(roots, Set::empty());
}

/// What a visit sends is about the visited node alone, and is ordered: the creation,
/// the attachments, the property writes.
pub proof fn lemma_node_instructions(node: NodeRepr, mounted: Set<i32>)
    ensures
        is_ordered(node_instructions(node, mounted)),
        forall|i: int|
            0 <= i < node_instructions(node, mounted).len() ==> {
                &&& (#[trigger] node_instructions(node, mounted)[i]).subject() == Some(node.hash)
                &&& node_instructions(node, mounted)[i].opcode() <= 3
            },
{
}

/// What the visits of `order` send holds no activation and no commit.
pub proof fn lemma_walk_opcodes(order: Seq<NodeRepr>, mounted: Set<i32>)
    ensures
        forall|i: int|
            0 <= i < walk_instructions(order, mounted).len() ==> (#[trigger] walk_instructions(
                order,
                mounted,
            )[i]).opcode() <= 3,
    decreases order.len(),
{
    if order.len() > 0 {
        let front = walk_instructions(order.drop_last(), mounted);
        let last = node_instructions(order.last(), mounted);
        lemma_walk_opcodes(order.drop_last(), mounted);
        lemma_node_instructions(order.last(), mounted);
        assert forall|i: int| 0 <= i < (front + last).len() implies (#[trigger] (front
            + last)[i]).opcode() <= 3 by {
            if i < front.len() {
                assert((front + last)[i] == front[i]);
            } else {
                assert((front + last)[i] == last[i - front.len()]);
            }
        }
    }
}

/// The visits of `order` send nothing about an identity that none of `order` has.
pub proof fn lemma_walk_about_absent(order: Seq<NodeRepr>, mounted: Set<i32>, hash: i32)
    requires
        forall|k: int| 0 <= k < order.len() ==> (#[trigger] order[k]).hash != hash,
    ensures
        instructions_about(walk_instructions(order, mounted), hash) == Seq::<
            InstructionView,
        >::empty(),
    decreases order.len(),
{
    if order.len() == 0 {
        lemma_filter_none(walk_instructions(order, mounted), is_about(hash));
    } else {
        let front = order.drop_last();
        assert forall|k: int| 0 <= k < front.len() implies (#[trigger] front[k]).hash != hash by {
            assert(front[k] == order[k]);
        }
        lemma_walk_about_absent(front, mounted, hash);
        lemma_node_instructions(order.last(), mounted);
        lemma_filter_none(node_instructions(order.last(), mounted), is_about(hash));
        Seq::filter_distributes_over_add(
            walk_instructions(front, mounted),
            node_instructions(order.last(), mounted),
            is_about(hash),
        );
    }
}

/// Of what the visits of `order` send, the part about a visited node is what its
/// own visit sent.
pub proof fn lemma_walk_about_visited(order: Seq<NodeRepr>, mounted: Set<i32>, k: int)
    requires
        distinct_hashes(order),
        0 <= k < order.len(),
    ensures
        instructions_about(walk_instructions(order, mounted), order[k].hash) == node_instructions(
            order[k],
            mounted,
        ),
    decreases order.len(),
{
    let hash = order[k].hash;
    let front = order.drop_last();
    let last = order.last();
    let none = Seq::<InstructionView>::empty();
    lemma_node_instructions(last, mounted);
    Seq::filter_distributes_over_add(
        walk_instructions(front, mounted),
        node_instructions(last, mounted),
        is_about(hash),
    );
    if k == order.len() - 1 {
        assert forall|j: int| 0 <= j < front.len() implies (#[trigger] front[j]).hash != hash by {
            assert(front[j] == order[j]);
        }
        lemma_walk_about_absent(front, mounted, hash);
        lemma_filter_all(node_instructions(last, mounted), is_about(hash));
        assert(none + node_instructions(last, mounted) == node_instructions(last, mounted));
    } else {
        assert(distinct_hashes(front)) by {
            assert forall|i: int, j: int| 0 <= i < j < front.len() implies front[i].hash
                != front[j].hash by {
                assert(front[i] == order[i] && front[j] == order[j]);
            }
        }
        assert(front[k] == order[k]);
        lemma_walk_about_visited(front, mounted, k);
        lemma_filter_none(node_instructions(last, mounted), is_about(hash));
        assert(node_instructions(order[k], mounted) + none == node_instructions(order[k], mounted));
    }
}

/// A batch is what the walk sent, sorted, and then the activation and the commit.
pub proof fn lemma_batch_shape(roots: Seq<NodeRepr>, mounted: Set<i32>)
    ensures
        reconciled_batch(roots, mounted) == sorted_by_opcode(
            walk_instructions(visited_nodes(roots), mounted),
        ) + batch_end(roots),
{
    let walk = walk_instructions(visited_nodes(roots), mounted);
    lemma_walk_opcodes(visited_nodes(roots), mounted);
    lemma_sorted_add(walk, batch_end(roots));
}

proof fn lemma_about_emitted(roots: Seq<NodeRepr>, mounted: Set<i32>, hash: i32)
    ensures
        instructions_about(emitted_instructions(roots, mounted), hash) == instructions_about(
            walk_instructions(visited_nodes(roots), mounted),
            hash,
        ),
{
    let walk = walk_instructions(visited_nodes(roots), mounted);
    Seq::filter_distributes_over_add(walk, batch_end(roots), is_about(hash));
    lemma_filter_none(batch_end(roots), is_about(hash));
    assert(instructions_about(walk, hash) + Seq::<InstructionView>::empty() == instructions_about(
        walk,
        hash,
    ));
}

/// Every batch is ordered and ends with the activation of the roots and one commit:
/// the opcodes never go down, the last instruction is the commit, the one before it
/// activates the roots in the order given, and all before these create, attach or
/// write a property.
pub proof fn batch_is_ordered_and_committed(roots: Seq<NodeRepr>, mounted: Set<i32>)
    ensures
        is_ordered(reconciled_batch(roots, mounted)),
        reconciled_batch(roots, mounted).len() >= 2,
        reconciled_batch(roots, mounted).last() == InstructionView::Commit,
        reconciled_batch(roots, mounted)[reconciled_batch(roots, mounted).len() - 2]
            == (InstructionView::ActivateRoots { roots: hashes_of(roots) }),
        forall|i: int|
            0 <= i < reconciled_batch(roots, mounted).len() - 2 ==> (#[trigger] reconciled_batch(
                roots,
                mounted,
            )[i]).opcode() <= 3,
        with_opcode(reconciled_batch(roots, mounted), 5) == seq![InstructionView::Commit],
{
    let walk = walk_instructions(visited_nodes(roots), mounted);
    let sorted = sorted_by_opcode(walk);
    let batch = reconciled_batch(roots, mounted);
    lemma_batch_shape(roots, mounted);
    sorted_is_ordered(emitted_instructions(roots, mounted));
    lemma_walk_opcodes(visited_nodes(roots), mounted);
    assert forall|i: int| 0 <= i < walk.len() implies 0 <= (#[trigger] walk[i]).opcode() <= 3 by {}
    lemma_sorted_opcodes(walk, 0, 3);
    lemma_one_commit(sorted, batch_end(roots)[0], batch_end(roots)[1]);
    assert(batch_end(roots) == seq![batch_end(roots)[0], batch_end(roots)[1]]);
    assert forall|i: int| 0 <= i < batch.len() - 2 implies (#[trigger] batch[i]).opcode() <= 3 by {
        assert(batch[i] == sorted[i]);
    }
}

/// A walk from nothing visits nothing and sends nothing.
proof fn lemma_walk_of_nothing(mounted: Set<i32>)
    ensures
        walk_instructions(visited_nodes(Seq::empty()), mounted) == Seq::<InstructionView>::empty(),
{
    assert(visited_nodes(Seq::empty()) == Seq::<NodeRepr>::empty());
}

/// The end of a batch without roots.
proof fn lemma_end_without_roots()
    ensures
        batch_end(Seq::empty()).len() == 2,
        batch_end(Seq::empty())[0] == (InstructionView::ActivateRoots { roots: Seq::empty() }),
        batch_end(Seq::empty())[1] == InstructionView::Commit,
{
    assert(hashes_of(Seq::empty()) == Seq::<i32>::empty());
}

/// A batch without roots is its end.
proof fn lemma_batch_without_roots(mounted: Set<i32>)
    ensures
        reconciled_batch(Seq::empty(), mounted) == batch_end(Seq::empty()),
{
    let none = Seq::<InstructionView>::empty();
    lemma_walk_of_nothing(mounted);
    lemma_batch_shape(Seq::empty(), mounted);
    assert(sorted_by_opcode(none) == none) by {
        assert(is_ordered(none));
        sorted_of_ordered_is_itself(none);
    }
    assert(none + batch_end(Seq::empty()) == batch_end(Seq::empty()));
}

/// Without roots a pass activates nothing and commits, whatever is mounted: the
/// batch that silences all output.
pub proof fn batch_without_roots(mounted: Set<i32>)
    ensures
        reconciled_batch(Seq::empty(), mounted).len() == 2,
        reconciled_batch(Seq::empty(), mounted)[0] == (InstructionView::ActivateRoots {
            roots: Seq::empty(),
        }),
        reconciled_batch(Seq::empty(), mounted)[1] == InstructionView::Commit,
{
    lemma_batch_without_roots(mounted);
    lemma_end_without_roots();
}

/// Of a batch, the part about a visited node is what the node's visit sent, in that
/// order: where the node was not mounted, its creation and one attachment for each
/// child, in the children's order; then, mounted or not, one write for each of its
/// properties.
pub proof fn batch_holds_each_visit(roots: Seq<NodeRepr>, mounted: Set<i32>, k: int)
    requires
        0 <= k < visited_nodes(roots).len(),
    ensures
        instructions_about(reconciled_batch(roots, mounted), visited_nodes(roots)[k].hash)
            == node_instructions(visited_nodes(roots)[k], mounted),
{
    let order = visited_nodes(roots);
    let hash = order[k].hash;
    let walk = walk_instructions(order, mounted);
    lemma_visit_order_distinct(roots, Set::empty());
    lemma_walk_about_visited(order, mounted, k);
    lemma_about_emitted(roots, mounted, hash);
    lemma_sorted_filter(emitted_instructions(roots, mounted), is_about(hash));
    lemma_node_instructions(order[k], mounted);
    sorted_of_ordered_is_itself(node_instructions(order[k], mounted));
}

/// A batch holds nothing about an identity that the pass did not visit.
pub proof fn batch_leaves_unvisited_alone(roots: Seq<NodeRepr>, mounted: Set<i32>, hash: i32)
    requires
        forall|k: int|
            0 <= k < visited_nodes(roots).len() ==> (#[trigger] visited_nodes(roots)[k]).hash
                != hash,
    ensures
        instructions_about(reconciled_batch(roots, mounted), hash) == Seq::<
            InstructionView,
        >::empty(),
{
    let none = Seq::<InstructionView>::empty();
    lemma_walk_about_absent(visited_nodes(roots), mounted, hash);
    lemma_about_emitted(roots, mounted, hash);
    lemma_sorted_filter(emitted_instructions(roots, mounted), is_about(hash));
    assert(is_ordered(none));
    sorted_of_ordered_is_itself(none);
}

/// What mounts a node, taken apart by opcode: one creation, the attachments, no
/// property write.
pub proof fn lemma_mount_by_opcode(node: NodeRepr)
    ensures
        with_opcode(mount_instructions(node), 0).len() == 1,
        with_opcode(mount_instructions(node), 0)[0] == creation(node),
        with_opcode(mount_instructions(node), 2) == attachments(node),
        with_opcode(mount_instructions(node), 3) == Seq::<InstructionView>::empty(),
{
    let create = seq![creation(node)];
    let attach = attachments(node);
    let none = Seq::<InstructionView>::empty();
    Seq::filter_distributes_over_add(create, attach, has_opcode(0));
    Seq::filter_distributes_over_add(create, attach, has_opcode(2));
    Seq::filter_distributes_over_add(create, attach, has_opcode(3));
    lemma_filter_all(create, has_opcode(0));
    lemma_filter_none(create, has_opcode(2));
    lemma_filter_none(create, has_opcode(3));
    lemma_filter_none(attach, has_opcode(0));
    lemma_filter_all(attach, has_opcode(2));
    lemma_filter_none(attach, has_opcode(3));
    assert(create + none == create);
    assert(none + attach == attach);
    assert(none + none == none);
}

/// The property writes of a node are nothing but property writes.
pub proof fn lemma_properties_by_opcode(node: NodeRepr)
    ensures
        with_opcode(property_instructions(node), 0) == Seq::<InstructionView>::empty(),
        with_opcode(property_instructions(node), 2) == Seq::<InstructionView>::empty(),
        with_opcode(property_instructions(node), 3) == property_instructions(node),
{
    lemma_filter_none(property_instructions(node), has_opcode(0));
    lemma_filter_none(property_instructions(node), has_opcode(2));
    lemma_filter_all(property_instructions(node), has_opcode(3));
}

/// What the visit of a node that is not mounted sends, taken apart by opcode: one
/// creation and the attachments.
pub proof fn lemma_first_visit_by_opcode(node: NodeRepr, mounted: Set<i32>)
    requires
        !mounted.contains(node.hash),
    ensures
        with_opcode(node_instructions(node, mounted), 0).len() == 1,
        with_opcode(node_instructions(node, mounted), 0)[0] == creation(node),
        with_opcode(node_instructions(node, mounted), 2) == attachments(node),
{
    let mount = mount_instructions(node);
    let props = property_instructions(node);
    assert(with_opcode(mount + props, 0) == with_opcode(mount, 0)) by {
        lemma_properties_by_opcode(node);
        Seq::filter_distributes_over_add(mount, props, has_opcode(0));
    }
    assert(with_opcode(mount + props, 2) == with_opcode(mount, 2)) by {
        lemma_properties_by_opcode(node);
        Seq::filter_distributes_over_add(mount, props, has_opcode(2));
    }
    lemma_mount_by_opcode(node);
}

/// First mount is complete: of a visited node that was not mounted the batch holds
/// its creation, then one attachment for each child, in the children's order, then
/// the property writes; and all of them stand before the activation of the roots.
pub proof fn first_mount_is_complete(roots: Seq<NodeRepr>, mounted: Set<i32>, k: int)
    requires
        0 <= k < visited_nodes(roots).len(),
        !mounted.contains(visited_nodes(roots)[k].hash),
    ensures
        instructions_about(reconciled_batch(roots, mounted), visited_nodes(roots)[k].hash)
            == mount_instructions(visited_nodes(roots)[k]) + property_instructions(
            visited_nodes(roots)[k],
        ),
        forall|i: int|
            0 <= i < reconciled_batch(roots, mounted).len() && (#[trigger] reconciled_batch(
                roots,
                mounted,
            )[i]).subject() is Some ==> i < reconciled_batch(roots, mounted).len() - 2,
{
    batch_holds_each_visit(roots, mounted, k);
    batch_is_ordered_and_committed(roots, mounted);
}

/// First mount creates once and attaches each child: of the instructions about a
/// visited node that was not mounted, one is a creation, and the attachments are
/// one for each child, in the children's order.
pub proof fn first_mount_creates_once(roots: Seq<NodeRepr>, mounted: Set<i32>, k: int)
    requires
        0 <= k < visited_nodes(roots).len(),
        !mounted.contains(visited_nodes(roots)[k].hash),
    ensures
        with_opcode(
            instructions_about(reconciled_batch(roots, mounted), visited_nodes(roots)[k].hash),
            0,
        ).len() == 1,
        with_opcode(
            instructions_about(reconciled_batch(roots, mounted), visited_nodes(roots)[k].hash),
            0,
        )[0] == creation(visited_nodes(roots)[k]),
        with_opcode(
            instructions_about(reconciled_batch(roots, mounted), visited_nodes(roots)[k].hash),
            2,
        ) == attachments(visited_nodes(roots)[k]),
{
    batch_holds_each_visit(roots, mounted, k);
    lemma_first_visit_by_opcode(visited_nodes(roots)[k], mounted);
}

/// No identity is created twice: of the instructions about one identity at most one
/// is a creation.
pub proof fn identity_is_created_once(roots: Seq<NodeRepr>, mounted: Set<i32>, hash: i32)
    ensures
        with_opcode(instructions_about(reconciled_batch(roots, mounted), hash), 0).len() <= 1,
{
    let order = visited_nodes(roots);
    if visits(order, hash) {
        let k = choose|k: int| 0 <= k < order.len() && (#[trigger] order[k]).hash == hash;
        batch_holds_each_visit(roots, mounted, k);
        if mounted.contains(hash) {
            lemma_properties_by_opcode(order[k]);
        } else {
            lemma_first_visit_by_opcode(order[k], mounted);
        }
    } else {
        batch_leaves_unvisited_alone(roots, mounted, hash);
        lemma_filter_none(Seq::<InstructionView>::empty(), has_opcode(0));
    }
}

/// The records only grow: what was remembered before a pass is remembered after it,
/// unchanged; every visited identity is remembered; and nothing else is.
pub proof fn records_only_grow(order: Seq<NodeRepr>, records: Map<i32, ShallowNodeView>)
    ensures
        forall|hash: i32| #[trigger]
            records.contains_key(hash) ==> records_after(order, records).contains_key(hash)
                && records_after(order, records)[hash] == records[hash],
        forall|k: int|
            0 <= k < order.len() ==> records_after(order, records).contains_key(
                (#[trigger] order[k]).hash,
            ),
        forall|hash: i32| #[trigger]
            records_after(order, records).contains_key(hash) ==> records.contains_key(hash)
                || visits(order, hash),
    decreases order.len(),
{
    if order.len() > 0 {
        let front = order.drop_last();
        records_only_grow(front, records);
        assert forall|k: int| 0 <= k < order.len() implies records_after(
            order,
            records,
        ).contains_key((#[trigger] order[k]).hash) by {
            if k < front.len() {
                assert(front[k] == order[k]);
            }
        }
        assert forall|hash: i32| #[trigger]
            records_after(order, records).contains_key(hash) implies records.contains_key(hash)
            || visits(order, hash) by {
            if !records.contains_key(hash) {
                if records_after(front, records).contains_key(hash) {
                    let k = choose|k: int| 0 <= k < front.len() && (#[trigger] front[k]).hash == hash;
                    assert(order[k] == front[k]);
                } else {
                    assert(order[order.len() - 1].hash == hash);
                }
            }
        }
    }
}

/// A node that a pass mounts is remembered as it was at its visit.
pub proof fn mounted_node_is_remembered(
    order: Seq<NodeRepr>,
    records: Map<i32, ShallowNodeView>,
    k: int,
)
    requires
        distinct_hashes(order),
        0 <= k < order.len(),
        !records.contains_key(order[k].hash),
    ensures
        records_after(order, records)[order[k].hash] == shallow_view(order[k]),
    decreases order.len(),
{
    let front = order.drop_last();
    records_only_grow(front, records);
    if k < order.len() - 1 {
        assert(distinct_hashes(front)) by {
            assert forall|i: int, j: int| 0 <= i < j < front.len() implies front[i].hash
                != front[j].hash by {
                assert(front[i] == order[i] && front[j] == order[j]);
            }
        }
        assert(front[k] == order[k]);
        mounted_node_is_remembered(front, records, k);
    } else {
        if records_after(front, records).contains_key(order[k].hash) {
            let j = choose|j: int| 0 <= j < front.len() && (#[trigger] front[j]).hash == order[k].hash;
            assert(front[j] == order[j]);
        }
    }
}

/// Visits of nodes that are all remembered change no record.
proof fn lemma_records_settled(order: Seq<NodeRepr>, n: int, records: Map<i32, ShallowNodeView>)
    requires
        0 <= n <= order.len(),
        forall|k: int| 0 <= k < order.len() ==> records.contains_key((#[trigger] order[k]).hash),
    ensures
        records_after(order.take(n), records) == records,
        n == order.len() ==> records_after(order, records) == records,
    decreases n,
{
    if n > 0 {
        lemma_records_settled(order, n - 1, records);
        assert(order.take(n).drop_last() == order.take(n - 1));
        assert(order.take(n).last() == order[n - 1]);
    }
    if n == order.len() {
        assert(order.take(n) == order);
    }
}

/// Visits of nodes that are all mounted send property writes only.
proof fn lemma_walk_of_mounted(order: Seq<NodeRepr>, n: int, mounted: Set<i32>)
    requires
        0 <= n <= order.len(),
        forall|k: int| 0 <= k < order.len() ==> mounted.contains((#[trigger] order[k]).hash),
    ensures
        forall|i: int|
            0 <= i < walk_instructions(order.take(n), mounted).len() ==> (
            #[trigger] walk_instructions(order.take(n), mounted)[i]).opcode() == 3,
        n == order.len() ==> forall|i: int|
            0 <= i < walk_instructions(order, mounted).len() ==> (#[trigger] walk_instructions(
                order,
                mounted,
            )[i]).opcode() == 3,
    decreases n,
{
    if n > 0 {
        lemma_walk_of_mounted(order, n - 1, mounted);
        assert(order.take(n).drop_last() == order.take(n - 1));
        assert(order.take(n).last() == order[n - 1]);
        let front = walk_instructions(order.take(n - 1), mounted);
        let last = node_instructions(order[n - 1], mounted);
        assert forall|i: int| 0 <= i < (front + last).len() implies (#[trigger] (front
            + last)[i]).opcode() == 3 by {
            if i < front.len() {
                assert((front + last)[i] == front[i]);
            } else {
                assert((front + last)[i] == last[i - front.len()]);
            }
        }
    }
    if n == order.len() {
        assert(order.take(n) == order);
    }
}

/// After a pass every visited identity is remembered, and a second pass over the same
/// nodes changes no record.
proof fn lemma_remount_records(order: Seq<NodeRepr>, records: Map<i32, ShallowNodeView>)
    ensures
        forall|k: int|
            0 <= k < order.len() ==> records_after(order, records).dom().contains(
                (#[trigger] order[k]).hash,
            ),
        records_after(order, records_after(order, records)) == records_after(order, records),
{
    records_only_grow(order, records);
    lemma_records_settled(order, order.len() as int, records_after(order, records));
}

/// A pass over roots whose visited nodes are all mounted sends no creation and no
/// attachment.
proof fn lemma_remount_opcodes(roots: Seq<NodeRepr>, mounted: Set<i32>)
    requires
        forall|k: int|
            0 <= k < visited_nodes(roots).len() ==> mounted.contains(
                (#[trigger] visited_nodes(roots)[k]).hash,
            ),
    ensures
        forall|i: int|
            0 <= i < reconciled_batch(roots, mounted).len() ==> (#[trigger] reconciled_batch(
                roots,
                mounted,
            )[i]).opcode() >= 3,
{
    let order = visited_nodes(roots);
    let batch = reconciled_batch(roots, mounted);
    let walk = walk_instructions(order, mounted);
    let sorted = sorted_by_opcode(walk);
    lemma_walk_of_mounted(order, order.len() as int, mounted);
    lemma_batch_shape(roots, mounted);
    assert forall|i: int| 0 <= i < walk.len() implies 3 <= (#[trigger] walk[i]).opcode() <= 3 by {}
    lemma_sorted_opcodes(walk, 3, 3);
    assert forall|i: int| 0 <= i < batch.len() implies (#[trigger] batch[i]).opcode() >= 3 by {
        if i < sorted.len() {
            assert(batch[i] == sorted[i]);
        } else {
            assert(batch[i] == batch_end(roots)[i - sorted.len()]);
        }
    }
}

/// Re-mount is idempotent: a second pass over the same roots remembers nothing new
/// and sends no creation and no attachment, but still one write for each property
/// of each visited node, then the activation and the commit.
pub proof fn remount_writes_properties_only(
    roots: Seq<NodeRepr>,
    records: Map<i32, ShallowNodeView>,
)
    ensures
        records_after(visited_nodes(roots), records_after(visited_nodes(roots), records))
            == records_after(visited_nodes(roots), records),
        forall|i: int|
            0 <= i < reconciled_batch(
                roots,
                records_after(visited_nodes(roots), records).dom(),
            ).len() ==> (#[trigger] reconciled_batch(
                roots,
                records_after(visited_nodes(roots), records).dom(),
            )[i]).opcode() >= 3,
        forall|k: int|
            0 <= k < visited_nodes(roots).len() ==> instructions_about(
                reconciled_batch(roots, records_after(visited_nodes(roots), records).dom()),
                (#[trigger] visited_nodes(roots)[k]).hash,
            ) == property_instructions(visited_nodes(roots)[k]),
{
    let order = visited_nodes(roots);
    let after = records_after(order, records);
    lemma_remount_records(order, records);
    lemma_remount_opcodes(roots, after.dom());
    assert forall|k: int| 0 <= k < order.len() implies instructions_about(
        reconciled_batch(roots, after.dom()),
        (#[trigger] order[k]).hash,
    ) == property_instructions(order[k]) by {
        batch_holds_each_visit(roots, after.dom(), k);
        lemma_remount_records(order, records);
    }
}

} // verus!
