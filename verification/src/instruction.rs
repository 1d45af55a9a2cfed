use vstd::prelude::*;

use crate::number::{push_signed_decimal, signed_decimal};

verus! {

/// One instruction of the machine.
#[derive(Clone, Copy, Debug, PartialEq, Eq, Structural)]
pub enum Instruction {
    /// Puts a number on the stack.
    Push(i64),
    /// Removes two numbers and pushes their sum.
    Add,
    /// Removes two numbers and pushes left minus right.
    Subtract,
    /// Removes two numbers and pushes their product.
    Multiply,
    /// Stops the program.
    Halt,
}

/// The arithmetic that an instruction can ask for.
#[derive(Clone, Copy, Debug, PartialEq, Eq, Structural)]
pub enum MathOp {
    Add,
    Subtract,
    Multiply,
}

/// The arithmetic that `instruction` performs, if it is an arithmetic one.
pub open spec fn math_op_of(instruction: Instruction) -> Option<MathOp> {
    match instruction {
        Instruction::Add => Some(MathOp::Add),
        Instruction::Subtract => Some(MathOp::Subtract),
        Instruction::Multiply => Some(MathOp::Multiply),
        _ => None,
    }
}

/// The name of an arithmetic operation, as the text format spells it.
pub open spec fn op_name(op: MathOp) -> Seq<char> {
    match op {
        MathOp::Add => "add"@,
        MathOp::Subtract => "subtract"@,
        MathOp::Multiply => "multiply"@,
    }
}

/// The text of `instruction` in the program format: its name, and for
/// `push` a space and the number in decimal.
pub open spec fn instruction_chars(instruction: Instruction) -> Seq<char> {
    match instruction {
        Instruction::Push(number) => "push "@ + signed_decimal(number as int),
        Instruction::Add => "add"@,
        Instruction::Subtract => "subtract"@,
        Instruction::Multiply => "multiply"@,
        Instruction::Halt => "halt"@,
    }
}

impl MathOp {
    /// The name of the operation, as the text format spells it.
    pub fn name(&self) -> (name: &'static str)
        ensures
            name@ == op_name(*self),
    {
        match self {
            MathOp::Add => "add",
            MathOp::Subtract => "subtract",
            MathOp::Multiply => "multiply",
        }
    }
}

/// The text of `instruction` in the program format.
pub fn instruction_text(instruction: Instruction) -> (text: String)
    ensures
        text@ == instruction_chars(instruction),
{
    match instruction {
        Instruction::Push(number) => {
            let mut text = String::from_str("push ");
            push_signed_decimal(&mut text, number);
            text
        },
        Instruction::Add => String::from_str("add"),
        Instruction::Subtract => String::from_str("subtract"),
        Instruction::Multiply => String::from_str("multiply"),
        Instruction::Halt => String::from_str("halt"),
    }
}

} // verus!
