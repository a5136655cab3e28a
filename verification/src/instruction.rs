//! The instructions that the native runtime understands, and their order in a batch.

use crate::seq_facts::{
    lemma_filter_all, lemma_filter_commute, lemma_filter_members, lemma_filter_none,
    lemma_filter_push,
};
use serde_json::Value;
use vstd::prelude::*;

verus! {

/// One command to the native runtime. It names nodes by identity alone.
#[derive(Debug, PartialEq)]
pub enum Instruction {
    /// Make the node of identity `hash`, of the given kind.
    Create { hash: i32, kind: String },
    /// Let `parent` take the output `output_channel` of `child` as its next input.
    AppendChild { parent: i32, child: i32, output_channel: u32 },
    /// Give the property `name` of the node `hash` the value `value`.
    SetProperty { hash: i32, name: String, value: Value },
    /// Let the nodes of these identities be the outputs.
    ActivateRoots { roots: Vec<i32> },
    /// The batch is complete.
    Commit,
}

/// The mathematical content of an [`Instruction`].
pub enum InstructionView {
    Create { hash: i32, kind: Seq<char> },
    AppendChild { parent: i32, child: i32, output_channel: u32 },
    SetProperty { hash: i32, name: Seq<char>, value: Value },
    ActivateRoots { roots: Seq<i32> },
    Commit,
}

impl InstructionView {
    /// The opcode under which the runtime knows the instruction.
    pub open spec fn opcode(self) -> int {
        match self {
            InstructionView::Create { .. } => 0,
            InstructionView::AppendChild { .. } => 2,
            InstructionView::SetProperty { .. } => 3,
            InstructionView::ActivateRoots { .. } => 4,
            InstructionView::Commit => 5,
        }
    }

    /// The identity that the instruction changes, where it changes one.
    pub open spec fn subject(self) -> Option<i32> {
        match self {
            InstructionView::Create { hash, .. } => Some(hash),
            InstructionView::AppendChild { parent, .. } => Some(parent),
            InstructionView::SetProperty { hash, .. } => Some(hash),
            InstructionView::ActivateRoots { .. } => None,
            InstructionView::Commit => None,
        }
    }
}

/// Whether an instruction changes the node of identity `hash`.
pub open spec fn is_about(hash: i32) -> spec_fn(InstructionView) -> bool {
    |i: InstructionView| i.subject() == Some(hash)
}

/// The instructions of `batch` that change the node of identity `hash`, in their
/// order in `batch`.
pub open spec fn instructions_about(batch: Seq<InstructionView>, hash: i32) -> Seq<
    InstructionView,
> {
    batch.filter(is_about(hash))
}

impl View for Instruction {
    type V = InstructionView;

    open spec fn view(&self) -> InstructionView {
        match *self {
            Instruction::Create { hash, kind } => InstructionView::Create { hash, kind: kind@ },
            Instruction::AppendChild { parent, child, output_channel } => InstructionView::AppendChild {
                parent,
                child,
                output_channel,
            },
            Instruction::SetProperty { hash, name, value } => InstructionView::SetProperty {
                hash,
                name: name@,
                value,
            },
            Instruction::ActivateRoots { roots } => InstructionView::ActivateRoots { roots: roots@ },
            Instruction::Commit => InstructionView::Commit,
        }
    }
}

impl DeepView for Instruction {
    type V = InstructionView;

    open spec fn deep_view(&self) -> InstructionView {
        self@
    }
}

impl Instruction {
    /// The opcode under which the runtime knows the instruction.
    pub fn opcode(&self) -> (code: u8)
        ensures
            code == self@.opcode(),
    {
        match self {
            Instruction::Create { .. } => 0,
            Instruction::AppendChild { .. } => 2,
            Instruction::SetProperty { .. } => 3,
            Instruction::ActivateRoots { .. } => 4,
            Instruction::Commit => 5,
        }
    }
}

/// Whether an instruction carries opcode `code`.
pub open spec fn has_opcode(code: int) -> spec_fn(InstructionView) -> bool {
    |i: InstructionView| i.opcode() == code
}

/// The instructions of `batch` that carry opcode `code`, in their order in `batch`.
pub open spec fn with_opcode(batch: Seq<InstructionView>, code: int) -> Seq<InstructionView> {
    batch.filter(has_opcode(code))
}

/// `batch` sorted by opcode, instructions of one opcode keeping their order.
pub open spec fn sorted_by_opcode(batch: Seq<InstructionView>) -> Seq<InstructionView> {
    with_opcode(batch, 0) + with_opcode(batch, 2) + with_opcode(batch, 3) + with_opcode(batch, 4)
        + with_opcode(batch, 5)
}

/// Whether the opcodes of `batch` never go down.
pub open spec fn is_ordered(batch: Seq<InstructionView>) -> bool {
    forall|i: int, j: int| 0 <= i <= j < batch.len() ==> batch[i].opcode() <= batch[j].opcode()
}

/// The part of a batch with one opcode, as the batch gets one more instruction.
proof fn lemma_with_opcode_push(batch: Seq<InstructionView>, i: InstructionView, code: int)
    ensures
        with_opcode(batch.push(i), code) == if i.opcode() == code {
            with_opcode(batch, code).push(i)
        } else {
            with_opcode(batch, code)
        },
{
    lemma_filter_push(batch, i, has_opcode(code));
}

/// The part of a batch with one opcode holds that opcode only.
pub proof fn lemma_with_opcode_members(batch: Seq<InstructionView>, code: int)
    ensures
        forall|i: int|
            0 <= i < with_opcode(batch, code).len() ==> (#[trigger] with_opcode(
                batch,
                code,
            )[i]).opcode() == code,
{
    lemma_filter_members(batch, has_opcode(code));
}

/// A sorted batch is ordered.
pub proof fn sorted_is_ordered(batch: Seq<InstructionView>)
    ensures
        is_ordered(sorted_by_opcode(batch)),
{
    lemma_with_opcode_members(batch, 0);
    lemma_with_opcode_members(batch, 2);
    lemma_with_opcode_members(batch, 3);
    lemma_with_opcode_members(batch, 4);
    lemma_with_opcode_members(batch, 5);
}

/// Sorting is stable: the instructions of each opcode keep their order.
pub proof fn sorted_is_stable(batch: Seq<InstructionView>, code: int)
    ensures
        with_opcode(sorted_by_opcode(batch), code) == with_opcode(batch, code),
{
    let p = has_opcode(code);
    let f0 = with_opcode(batch, 0);
    let f2 = with_opcode(batch, 2);
    let f3 = with_opcode(batch, 3);
    let f4 = with_opcode(batch, 4);
    let f5 = with_opcode(batch, 5);
    lemma_with_opcode_members(batch, 0);
    lemma_with_opcode_members(batch, 2);
    lemma_with_opcode_members(batch, 3);
    lemma_with_opcode_members(batch, 4);
    lemma_with_opcode_members(batch, 5);
    Seq::filter_distributes_over_add(f0 + f2 + f3 + f4, f5, p);
    Seq::filter_distributes_over_add(f0 + f2 + f3, f4, p);
    Seq::filter_distributes_over_add(f0 + f2, f3, p);
    Seq::filter_distributes_over_add(f0, f2, p);
    if code == 0 {
        lemma_filter_all(f0, p);
    } else {
        lemma_filter_none(f0, p);
    }
    if code == 2 {
        lemma_filter_all(f2, p);
    } else {
        lemma_filter_none(f2, p);
    }
    if code == 3 {
        lemma_filter_all(f3, p);
    } else {
        lemma_filter_none(f3, p);
    }
    if code == 4 {
        lemma_filter_all(f4, p);
    } else {
        lemma_filter_none(f4, p);
    }
    if code == 5 {
        lemma_filter_all(f5, p);
    } else {
        lemma_filter_none(f5, p);
    }
    if code != 0 && code != 2 && code != 3 && code != 4 && code != 5 {
        lemma_filter_none(batch, p);
    }
}

/// Sorting keeps every instruction, each as often as it occurs.
pub proof fn sorted_is_a_permutation(batch: Seq<InstructionView>)
    ensures
        sorted_by_opcode(batch).to_multiset() == batch.to_multiset(),
        sorted_by_opcode(batch).len() == batch.len(),
    decreases batch.len(),
{
    broadcast use vstd::seq_lib::group_to_multiset_ensures;

    if batch.len() == 0 {
        reveal(Seq::filter);
        assert(sorted_by_opcode(batch) == batch);
    } else {
        let front = batch.drop_last();
        let x = batch.last();
        assert(front.push(x) == batch);
        sorted_is_a_permutation(front);
        lemma_with_opcode_push(front, x, 0);
        lemma_with_opcode_push(front, x, 2);
        lemma_with_opcode_push(front, x, 3);
        lemma_with_opcode_push(front, x, 4);
        lemma_with_opcode_push(front, x, 5);
        let f0 = with_opcode(front, 0);
        let f2 = with_opcode(front, 2);
        let f3 = with_opcode(front, 3);
        let f4 = with_opcode(front, 4);
        let f5 = with_opcode(front, 5);
        lemma_to_multiset_add(f0 + f2 + f3 + f4, f5);
        lemma_to_multiset_add(f0 + f2 + f3, f4);
        lemma_to_multiset_add(f0 + f2, f3);
        lemma_to_multiset_add(f0, f2);
        let g0 = with_opcode(batch, 0);
        let g2 = with_opcode(batch, 2);
        let g3 = with_opcode(batch, 3);
        let g4 = with_opcode(batch, 4);
        let g5 = with_opcode(batch, 5);
        lemma_to_multiset_add(g0 + g2 + g3 + g4, g5);
        lemma_to_multiset_add(g0 + g2 + g3, g4);
        lemma_to_multiset_add(g0 + g2, g3);
        lemma_to_multiset_add(g0, g2);
        assert(sorted_by_opcode(batch).to_multiset() =~= sorted_by_opcode(front).to_multiset().insert(
            x,
        ));
        assert(batch.to_multiset() =~= front.to_multiset().insert(x));
    }
}

/// Two batches laid end to end hold what both hold.
proof fn lemma_to_multiset_add(a: Seq<InstructionView>, b: Seq<InstructionView>)
    ensures
        (a + b).to_multiset() == a.to_multiset().add(b.to_multiset()),
        (a + b).len() == a.len() + b.len(),
{
    vstd::seq_lib::lemma_multiset_commutative(a, b);
}

/// Sorting a batch with one more instruction at its end, whose opcode none in the
/// batch exceeds, leaves that instruction at the end.
pub proof fn lemma_sorted_push(batch: Seq<InstructionView>, x: InstructionView)
    requires
        forall|i: int| 0 <= i < batch.len() ==> (#[trigger] batch[i]).opcode() <= x.opcode(),
    ensures
        sorted_by_opcode(batch.push(x)) == sorted_by_opcode(batch).push(x),
{
    let f0 = with_opcode(batch, 0);
    let f2 = with_opcode(batch, 2);
    let f3 = with_opcode(batch, 3);
    let f4 = with_opcode(batch, 4);
    let f5 = with_opcode(batch, 5);
    let none = Seq::<InstructionView>::empty();
    lemma_with_opcode_push(batch, x, 0);
    lemma_with_opcode_push(batch, x, 2);
    lemma_with_opcode_push(batch, x, 3);
    lemma_with_opcode_push(batch, x, 4);
    lemma_with_opcode_push(batch, x, 5);
    if x.opcode() == 0 {
        lemma_filter_none(batch, has_opcode(2));
        lemma_filter_none(batch, has_opcode(3));
        lemma_filter_none(batch, has_opcode(4));
        lemma_filter_none(batch, has_opcode(5));
        assert(f0.push(x) + none + none + none + none =~= (f0 + none + none + none + none).push(x));
    } else if x.opcode() == 2 {
        lemma_filter_none(batch, has_opcode(3));
        lemma_filter_none(batch, has_opcode(4));
        lemma_filter_none(batch, has_opcode(5));
        assert(f0 + f2.push(x) + none + none + none =~= (f0 + f2 + none + none + none).push(x));
    } else if x.opcode() == 3 {
        lemma_filter_none(batch, has_opcode(4));
        lemma_filter_none(batch, has_opcode(5));
        assert(f0 + f2 + f3.push(x) + none + none =~= (f0 + f2 + f3 + none + none).push(x));
    } else if x.opcode() == 4 {
        lemma_filter_none(batch, has_opcode(5));
        assert(f0 + f2 + f3 + f4.push(x) + none =~= (f0 + f2 + f3 + f4 + none).push(x));
    } else {
        assert(f0 + f2 + f3 + f4 + f5.push(x) =~= (f0 + f2 + f3 + f4 + f5).push(x));
    }
}

/// Sorting an ordered batch laid behind another, which holds no opcode above any of
/// it, sorts the other in its place.
pub proof fn lemma_sorted_add(a: Seq<InstructionView>, b: Seq<InstructionView>)
    requires
        is_ordered(b),
        forall|i: int, j: int|
            0 <= i < a.len() && 0 <= j < b.len() ==> (#[trigger] a[i]).opcode() <= (
            #[trigger] b[j]).opcode(),
    ensures
        sorted_by_opcode(a + b) == sorted_by_opcode(a) + b,
    decreases b.len(),
{
    if b.len() == 0 {
        assert(a + b == a);
        assert(sorted_by_opcode(a) + b == sorted_by_opcode(a));
    } else {
        let front = b.drop_last();
        let x = b.last();
        assert(is_ordered(front)) by {
            assert forall|i: int, j: int| 0 <= i <= j < front.len() implies front[i].opcode()
                <= front[j].opcode() by {
                assert(front[i] == b[i] && front[j] == b[j]);
            }
        }
        assert forall|i: int, j: int| 0 <= i < a.len() && 0 <= j < front.len() implies (
        #[trigger] a[i]).opcode() <= (#[trigger] front[j]).opcode() by {
            assert(front[j] == b[j]);
        }
        lemma_sorted_add(a, front);
        assert forall|i: int| 0 <= i < (a + front).len() implies (#[trigger] (a + front)[i]).opcode()
            <= x.opcode() by {
            if i < a.len() {
                assert((a + front)[i] == a[i]);
                assert(a[i].opcode() <= b[b.len() - 1].opcode());
            } else {
                assert((a + front)[i] == b[i - a.len()]);
            }
        }
        lemma_sorted_push(a + front, x);
        assert((a + front).push(x) == a + b);
        assert((sorted_by_opcode(a) + front).push(x) == sorted_by_opcode(a) + b);
    }
}

/// Sorting a batch that is ordered changes nothing.
pub proof fn sorted_of_ordered_is_itself(batch: Seq<InstructionView>)
    requires
        is_ordered(batch),
    ensures
        sorted_by_opcode(batch) == batch,
{
    let none = Seq::<InstructionView>::empty();
    assert(sorted_by_opcode(none) == none) by {
        reveal(Seq::filter);
    }
    lemma_sorted_add(none, batch);
    assert(none + batch == batch);
}

/// Picking instructions out of a batch and sorting can be done in either order.
pub proof fn lemma_sorted_filter(batch: Seq<InstructionView>, pred: spec_fn(InstructionView) -> bool)
    ensures
        sorted_by_opcode(batch).filter(pred) == sorted_by_opcode(batch.filter(pred)),
{
    let f0 = with_opcode(batch, 0);
    let f2 = with_opcode(batch, 2);
    let f3 = with_opcode(batch, 3);
    let f4 = with_opcode(batch, 4);
    let f5 = with_opcode(batch, 5);
    Seq::filter_distributes_over_add(f0 + f2 + f3 + f4, f5, pred);
    Seq::filter_distributes_over_add(f0 + f2 + f3, f4, pred);
    Seq::filter_distributes_over_add(f0 + f2, f3, pred);
    Seq::filter_distributes_over_add(f0, f2, pred);
    lemma_filter_commute(batch, has_opcode(0), pred);
    lemma_filter_commute(batch, has_opcode(2), pred);
    lemma_filter_commute(batch, has_opcode(3), pred);
    lemma_filter_commute(batch, has_opcode(4), pred);
    lemma_filter_commute(batch, has_opcode(5), pred);
}

/// Every instruction of a sorted batch is one of the batch.
pub proof fn lemma_sorted_sources(batch: Seq<InstructionView>)
    ensures
        forall|i: int|
            0 <= i < sorted_by_opcode(batch).len() ==> batch.contains(
                #[trigger] sorted_by_opcode(batch)[i],
            ),
{
    lemma_filter_members(batch, has_opcode(0));
    lemma_filter_members(batch, has_opcode(2));
    lemma_filter_members(batch, has_opcode(3));
    lemma_filter_members(batch, has_opcode(4));
    lemma_filter_members(batch, has_opcode(5));
}

/// Sorting keeps the bounds that hold of every opcode of a batch.
pub proof fn lemma_sorted_opcodes(batch: Seq<InstructionView>, low: int, high: int)
    requires
        forall|i: int| 0 <= i < batch.len() ==> low <= (#[trigger] batch[i]).opcode() <= high,
    ensures
        forall|i: int|
            0 <= i < sorted_by_opcode(batch).len() ==> low <= (#[trigger] sorted_by_opcode(
                batch,
            )[i]).opcode() <= high,
{
    lemma_sorted_sources(batch);
    let sorted = sorted_by_opcode(batch);
    assert forall|i: int| 0 <= i < sorted.len() implies low <= (#[trigger] sorted[i]).opcode()
        <= high by {
        assert(batch.contains(sorted[i]));
        let k = choose|k: int| 0 <= k < batch.len() && batch[k] == sorted[i];
        assert(low <= batch[k].opcode() <= high);
    }
}

/// A batch that ends with an activation and a commit, behind instructions of lower
/// opcodes, holds one commit: its last instruction.
pub proof fn lemma_one_commit(
    body: Seq<InstructionView>,
    activate: InstructionView,
    commit: InstructionView,
)
    requires
        forall|i: int| 0 <= i < body.len() ==> (#[trigger] body[i]).opcode() <= 3,
        activate.opcode() == 4,
        commit.opcode() == 5,
    ensures
        with_opcode(body + seq![activate, commit], 5) == seq![commit],
{
    lemma_filter_none(body, has_opcode(5));
    lemma_filter_push(body, activate, has_opcode(5));
    lemma_filter_push(body.push(activate), commit, has_opcode(5));
    assert(body + seq![activate, commit] == body.push(activate).push(commit));
    assert(Seq::<InstructionView>::empty().push(commit) == seq![commit]);
}

/// Sorts a batch by opcode, ascending; instructions of one opcode keep their order.
pub fn sort_instructions(batch: Vec<Instruction>) -> (sorted: Vec<Instruction>)
    ensures
        sorted.deep_view() == sorted_by_opcode(batch.deep_view()),
        is_ordered(sorted.deep_view()),
        sorted.deep_view().to_multiset() == batch.deep_view().to_multiset(),
{
    let mut creates: Vec<Instruction> = Vec::new();
    let mut appends: Vec<Instruction> = Vec::new();
    let mut props: Vec<Instruction> = Vec::new();
    let mut roots: Vec<Instruction> = Vec::new();
    let mut commits: Vec<Instruction> = Vec::new();
    let ghost all = batch.deep_view();
    proof {
        reveal(Seq::filter);
        assert(all.take(0) == Seq::<InstructionView>::empty());
        assert(with_opcode(all.take(0), 0) == Seq::<InstructionView>::empty());
        sorted_is_ordered(all);
        sorted_is_a_permutation(all);
    }
    for instruction in it: batch.into_iter()
        invariant
            it.seq().len() == all.len(),
            forall|k: int| 0 <= k < all.len() ==> (#[trigger] it.seq()[k])@ == all[k],
            creates.deep_view() == with_opcode(all.take(it.index() as int), 0),
            appends.deep_view() == with_opcode(all.take(it.index() as int), 2),
            props.deep_view() == with_opcode(all.take(it.index() as int), 3),
            roots.deep_view() == with_opcode(all.take(it.index() as int), 4),
            commits.deep_view() == with_opcode(all.take(it.index() as int), 5),
    {
        proof {
            let k = it.index() as int;
            let done = all.take(k);
            assert(all.take(k + 1) == done.push(all[k]));
            lemma_with_opcode_push(done, all[k], 0);
            lemma_with_opcode_push(done, all[k], 2);
            lemma_with_opcode_push(done, all[k], 3);
            lemma_with_opcode_push(done, all[k], 4);
            lemma_with_opcode_push(done, all[k], 5);
        }
        let code = instruction.opcode();
        if code == 0 {
            let ghost before = creates.deep_view();
            creates.push(instruction);
            assert(creates.deep_view() == before.push(instruction@));
        } else if code == 2 {
            let ghost before = appends.deep_view();
            appends.push(instruction);
            assert(appends.deep_view() == before.push(instruction@));
        } else if code == 3 {
            let ghost before = props.deep_view();
            props.push(instruction);
            assert(props.deep_view() == before.push(instruction@));
        } else if code == 4 {
            let ghost before = roots.deep_view();
            roots.push(instruction);
            assert(roots.deep_view() == before.push(instruction@));
        } else {
            let ghost before = commits.deep_view();
            commits.push(instruction);
            assert(commits.deep_view() == before.push(instruction@));
        }
    }
    assert(all.take(all.len() as int) == all);
    let ghost c0 = creates.deep_view();
    let ghost c2 = appends.deep_view();
    let ghost c3 = props.deep_view();
    let ghost c4 = roots.deep_view();
    let ghost c5 = commits.deep_view();
    let mut sorted = creates;
    sorted.append(&mut appends);
    assert(sorted.deep_view() == c0 + c2);
    sorted.append(&mut props);
    assert(sorted.deep_view() == c0 + c2 + c3);
    sorted.append(&mut roots);
    assert(sorted.deep_view() == c0 + c2 + c3 + c4);
    sorted.append(&mut commits);
    assert(sorted.deep_view() == c0 + c2 + c3 + c4 + c5);
    sorted
}

} // verus!
