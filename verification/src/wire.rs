//! The shape in which a batch goes to the native runtime: a JSON array that holds
//! one array for each instruction, the opcode first and the payload behind it.

use crate::instruction::{Instruction, InstructionView};
use crate::json::{
    json_array, json_from_i64, json_from_str, json_from_vec, json_number, json_string, json_text,
    json_to_string,
};
use serde_json::Value;
use vstd::prelude::*;

verus! {

/// The JSON numbers of a sequence of identities.
pub open spec fn identities_json(hashes: Seq<i32>) -> Seq<Value> {
    Seq::new(hashes.len(), |i: int| json_number(hashes[i] as int))
}

/// The JSON array that stands for one instruction.
pub open spec fn instruction_json(instruction: InstructionView) -> Value {
    match instruction {
        InstructionView::Create { hash, kind } => json_array(
            seq![json_number(0), json_number(hash as int), json_string(kind)],
        ),
        InstructionView::AppendChild { parent, child, output_channel } => json_array(
            seq![
                json_number(2),
                json_number(parent as int),
                json_number(child as int),
                json_number(output_channel as int),
            ],
        ),
        InstructionView::SetProperty { hash, name, value } => json_array(
            seq![json_number(3), json_number(hash as int), json_string(name), value],
        ),
        InstructionView::ActivateRoots { roots } => json_array(
            seq![json_number(4), json_array(identities_json(roots))],
        ),
        InstructionView::Commit => json_array(seq![json_number(5)]),
    }
}

/// The JSON array that stands for a batch.
pub open spec fn batch_json(batch: Seq<InstructionView>) -> Value {
    json_array(Seq::new(batch.len(), |i: int| instruction_json(batch[i])))
}

fn identities_to_json(hashes: &Vec<i32>) -> (json: Value)
    ensures
        json == json_array(identities_json(hashes@)),
{
    let mut items: Vec<Value> = Vec::new();
    let mut i: usize = 0;
    while i < hashes.len()
        invariant
            i <= hashes.len(),
            items@ == identities_json(hashes@).take(i as int),
        decreases hashes.len() - i,
    {
        items.push(json_from_i64(hashes[i] as i64));
        i += 1;
    }
    assert(items@ == identities_json(hashes@));
    json_from_vec(items)
}

impl Instruction {
    /// The instruction as the runtime reads it.
    pub fn to_json(&self) -> (json: Value)
        ensures
            json == instruction_json(self@),
    {
        let mut items: Vec<Value> = Vec::new();
        items.push(json_from_i64(self.opcode() as i64));
        match self {
            Instruction::Create { hash, kind } => {
                items.push(json_from_i64(*hash as i64));
                items.push(json_from_str(kind.as_str()));
                assert(items@ == seq![
                    json_number(0),
                    json_number(*hash as int),
                    json_string(kind@),
                ]);
            },
            Instruction::AppendChild { parent, child, output_channel } => {
                items.push(json_from_i64(*parent as i64));
                items.push(json_from_i64(*child as i64));
                items.push(json_from_i64(*output_channel as i64));
                assert(items@ == seq![
                    json_number(2),
                    json_number(*parent as int),
                    json_number(*child as int),
                    json_number(*output_channel as int),
                ]);
            },
            Instruction::SetProperty { hash, name, value } => {
                items.push(json_from_i64(*hash as i64));
                items.push(json_from_str(name.as_str()));
                items.push(value.clone());
                assert(items@ == seq![
                    json_number(3),
                    json_number(*hash as int),
                    json_string(name@),
                    *value,
                ]);
            },
            Instruction::ActivateRoots { roots } => {
                items.push(identities_to_json(roots));
                assert(items@ == seq![json_number(4), json_array(identities_json(roots@))]);
            },
            Instruction::Commit => {
                assert(items@ == seq![json_number(5)]);
            },
        }
        json_from_vec(items)
    }
}

/// The batch as the runtime reads it.
pub fn batch_to_json(batch: &Vec<Instruction>) -> (json: Value)
    ensures
        json == batch_json(batch.deep_view()),
{
    let ghost all = Seq::new(
        batch.deep_view().len(),
        |i: int| instruction_json(batch.deep_view()[i]),
    );
    let mut items: Vec<Value> = Vec::new();
    let mut i: usize = 0;
    while i < batch.len()
        invariant
            i <= batch.len(),
            all.len() == batch.len(),
            forall|k: int| 0 <= k < all.len() ==> #[trigger] all[k] == instruction_json(batch@[k]@),
            items@ == all.take(i as int),
        decreases batch.len() - i,
    {
        items.push(batch[i].to_json());
        assert(all.take(i + 1) == all.take(i as int).push(all[i as int]));
        i += 1;
    }
    assert(items@ == all);
    json_from_vec(items)
}

/// The batch as the text that the runtime is given.
pub fn batch_to_text(batch: &Vec<Instruction>) -> (text: String)
    ensures
        text@ == json_text(batch_json(batch.deep_view())),
{
    let json = batch_to_json(batch);
    json_to_string(&json)
}

} // verus!
