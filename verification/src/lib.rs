//! Memento: a small stack-based bytecode machine that can be stepped
//! forward and backward, with an assembler for its line-based text format.
//!
//! - `text`: white space, words, lines and trimming, over characters.
//! - `number`: decimal text of integers, and reading it back.
//! - `instruction`: the instructions and their text.
//! - `assembler`: reading a program from its text.
//! - `vm`: the machine, its steps forward and back, and their laws.
//! - `command`: the commands of the step-by-step debugger.

pub mod assembler;
pub mod command;
pub mod instruction;
pub mod number;
pub mod text;
pub mod vm;

pub use assembler::assemble;
pub use command::{parse_command, Command};
pub use instruction::{instruction_text, Instruction, MathOp};
pub use vm::{MathError, StepOutcome, Vm};
