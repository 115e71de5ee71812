//! Small helpers around the instruction set.

use vstd::prelude::*;
use crate::vm::Instruction;

verus! {

/// The instruction a mnemonic names. Names outside the recognized set decode
/// to `UNK`.
pub open spec fn spec_string_to_instruction(name: Seq<char>) -> Instruction {
    if name == "PSH"@ {
        Instruction::PSH
    } else if name == "POP"@ {
        Instruction::POP
    } else if name == "ADD"@ {
        Instruction::ADD
    } else if name == "SUB"@ {
        Instruction::SUB
    } else if name == "MUL"@ {
        Instruction::MUL
    } else if name == "DIV"@ {
        Instruction::DIV
    } else if name == "SET"@ {
        Instruction::SET
    } else if name == "HLT"@ {
        Instruction::HLT
    } else {
        Instruction::UNK
    }
}

/// Parse a mnemonic into its instruction; agrees with
/// [`spec_string_to_instruction`].
pub fn string_to_instruction(token: &str) -> (r: Instruction)
    ensures
        r == spec_string_to_instruction(token@),
{
    let t = String::from_str(token);
    if t == String::from_str("PSH") {
        Instruction::PSH
    } else if t == String::from_str("POP") {
        Instruction::POP
    } else if t == String::from_str("ADD") {
        Instruction::ADD
    } else if t == String::from_str("SUB") {
        Instruction::SUB
    } else if t == String::from_str("MUL") {
        Instruction::MUL
    } else if t == String::from_str("DIV") {
        Instruction::DIV
    } else if t == String::from_str("SET") {
        Instruction::SET
    } else if t == String::from_str("HLT") {
        Instruction::HLT
    } else {
        Instruction::UNK
    }
}

} // verus!
