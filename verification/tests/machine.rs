use memento::{assemble, Instruction, MathError, MathOp, StepOutcome, Vm};

fn program_from(source: &str) -> Vec<Instruction> {
    assemble(source).unwrap()
}

#[test]
fn computes_a_full_program() {
    let mut vm = Vm::new(program_from(
        "push 2\npush 3\nadd\npush 4\nmultiply\npush 15\nsubtract\nhalt",
    ));

    vm.run();

    assert_eq!(vm.stack(), &[5]);
}

#[test]
fn subtracts_left_minus_right() {
    let mut vm = Vm::new(program_from("push 20\npush 15\nsubtract\nhalt"));

    vm.run();

    assert_eq!(vm.stack(), &[5]);
}

#[test]
fn leaves_everything_on_the_stack_after_halt() {
    let mut vm = Vm::new(program_from("push 2\npush 3\nadd\nhalt\npush 999"));

    vm.run();

    assert_eq!(vm.stack(), &[5]);
    assert_eq!(vm.instruction_pointer(), 4);
}

#[test]
fn goes_back_to_the_stack_before_add() {
    let mut vm = Vm::new(program_from("push 2\npush 3\nadd\nhalt"));

    vm.step();
    vm.step();
    vm.step();
    vm.step_back();

    assert_eq!(vm.stack(), &[2, 3]);
    assert_eq!(vm.instruction_pointer(), 2);
}

#[test]
fn step_back_only_goes_as_far_as_history_allows() {
    let mut vm = Vm::new(program_from("push 2\nhalt"));

    assert!(!vm.step_back());
    vm.step();
    assert!(vm.step_back());
    assert!(!vm.step_back());
}

#[test]
fn rewinds_repeatedly_to_the_start() {
    let mut vm = Vm::new(program_from("push 1\npush 2\nadd\nhalt"));

    vm.step();
    vm.step();
    vm.step();
    vm.step_back();
    vm.step_back();
    vm.step_back();

    assert_eq!(vm.stack(), &[]);
    assert_eq!(vm.instruction_pointer(), 0);
}

#[test]
fn stops_when_there_are_not_enough_numbers() {
    let mut vm = Vm::new(program_from("push 5\nsubtract\npush 100\nhalt"));

    assert!(vm.step());
    assert!(!vm.step());

    // The failed subtract changed nothing: stack and pointer are as if
    // it never ran, and it added no new history entry. One step back
    // goes straight to the start of the program.
    assert_eq!(vm.stack(), &[5]);
    assert_eq!(vm.instruction_pointer(), 1);
    assert!(vm.step_back());
    assert_eq!(vm.stack(), &[]);
    assert_eq!(vm.instruction_pointer(), 0);
    assert!(!vm.step_back());
}

#[test]
fn stops_when_arithmetic_overflows() {
    let mut vm = Vm::new(program_from("push 9223372036854775807\npush 1\nadd\nhalt"));

    vm.step();
    vm.step();
    assert!(!vm.step());

    assert_eq!(vm.stack(), &[9223372036854775807, 1]);
    assert_eq!(vm.instruction_pointer(), 2);
}

#[test]
fn stops_when_subtraction_overflows() {
    let mut vm = Vm::new(program_from("push -9223372036854775808\npush 1\nsubtract"));

    vm.step();
    vm.step();
    assert!(!vm.step());

    assert_eq!(vm.stack(), &[i64::MIN, 1]);
    assert_eq!(vm.instruction_pointer(), 2);
}

#[test]
fn stops_when_multiplication_overflows() {
    let mut vm = Vm::new(program_from("push 9223372036854775807\npush 2\nmultiply"));

    vm.step();
    vm.step();
    assert!(!vm.step());

    assert_eq!(vm.stack(), &[i64::MAX, 2]);
    assert_eq!(vm.instruction_pointer(), 2);
}

#[test]
fn step_after_the_end_reports_the_program_is_over() {
    let mut vm = Vm::new(program_from("push 1"));

    assert!(vm.step());
    assert!(!vm.step());
}

#[test]
fn rewinds_past_halt() {
    let mut vm = Vm::new(program_from("push 1\nhalt"));

    vm.step();
    vm.step();

    assert!(vm.step_back());
    assert_eq!(vm.stack(), &[1]);
    assert_eq!(vm.instruction_pointer(), 1);

    assert!(vm.step_back());
    assert_eq!(vm.stack(), &[]);
    assert_eq!(vm.instruction_pointer(), 0);
}

#[test]
fn run_stops_on_a_math_error() {
    let mut vm = Vm::new(program_from("push 5\nsubtract\npush 100\nhalt"));

    vm.run();

    assert_eq!(vm.stack(), &[5]);
    assert_eq!(vm.instruction_pointer(), 1);
}

#[test]
fn advance_reports_each_outcome() {
    let mut vm = Vm::new(program_from("push 3\npush 4\nmultiply\nadd\nhalt"));

    assert_eq!(vm.advance(), StepOutcome::Continued);
    assert_eq!(vm.advance(), StepOutcome::Continued);
    assert_eq!(vm.advance(), StepOutcome::Continued);
    assert_eq!(vm.stack(), &[12]);
    assert_eq!(
        vm.advance(),
        StepOutcome::Failed(MathError::NotEnoughNumbers(MathOp::Add))
    );
    assert_eq!(vm.instruction_pointer(), 3);
    assert_eq!(vm.stack(), &[12]);
}

#[test]
fn halt_is_a_step_that_can_be_undone() {
    let mut vm = Vm::new(program_from("push 1\nhalt\npush 2"));

    assert_eq!(vm.run(), StepOutcome::Halted);
    assert_eq!(vm.instruction_pointer(), 2);
    assert!(vm.step_back());
    assert_eq!(vm.instruction_pointer(), 1);
    assert_eq!(vm.stack(), &[1]);
}

#[test]
fn stepping_on_after_halt_runs_the_rest() {
    let mut vm = Vm::new(program_from("push 1\nhalt\npush 2"));

    vm.run();
    assert!(vm.step());
    assert_eq!(vm.stack(), &[1, 2]);
    assert_eq!(vm.advance(), StepOutcome::EndedWithoutHalt);
    assert_eq!(vm.stack(), &[1, 2]);
    assert_eq!(vm.instruction_pointer(), 3);
}

#[test]
fn run_reports_how_it_stopped() {
    let mut vm = Vm::new(program_from("push 1\npush 2"));
    assert_eq!(vm.run(), StepOutcome::EndedWithoutHalt);
    assert_eq!(vm.stack(), &[1, 2]);

    let mut vm = Vm::new(program_from("push 9223372036854775807\npush 2\nmultiply"));
    assert_eq!(
        vm.run(),
        StepOutcome::Failed(MathError::Overflow(MathOp::Multiply, i64::MAX, 2))
    );
}

#[test]
fn each_step_back_undoes_one_step() {
    let mut vm = Vm::new(program_from("push 7\npush 3\nsubtract\npush 2\nmultiply\nhalt"));
    let mut seen = vec![(vm.stack().to_vec(), vm.instruction_pointer())];
    while vm.step() {
        seen.push((vm.stack().to_vec(), vm.instruction_pointer()));
    }
    seen.push((vm.stack().to_vec(), vm.instruction_pointer()));
    assert_eq!(vm.stack(), &[8]);

    seen.pop();
    while let Some((stack, ip)) = seen.pop() {
        assert!(vm.step_back());
        assert_eq!(vm.stack(), stack.as_slice());
        assert_eq!(vm.instruction_pointer(), ip);
    }
    assert!(!vm.step_back());
    assert_eq!(vm.instruction_pointer(), 0);
}

#[test]
fn messages_name_the_problem() {
    assert_eq!(
        MathError::NotEnoughNumbers(MathOp::Subtract).message(),
        "Not enough numbers on the stack to subtract"
    );
    assert_eq!(
        MathError::Overflow(MathOp::Add, 9223372036854775807, 1).message(),
        "Overflow when trying to add 9223372036854775807 and 1"
    );
    assert_eq!(
        MathError::Overflow(MathOp::Multiply, -5, i64::MIN).message(),
        "Overflow when trying to multiply -5 and -9223372036854775808"
    );
    assert_eq!(
        StepOutcome::EndedWithoutHalt.message(),
        Some("The program ended without HALT".to_string())
    );
    assert_eq!(StepOutcome::Continued.message(), None);
    assert_eq!(StepOutcome::Halted.message(), None);
    assert_eq!(
        StepOutcome::Failed(MathError::NotEnoughNumbers(MathOp::Add)).message(),
        Some("Not enough numbers on the stack to add".to_string())
    );
}

#[test]
fn shows_the_next_instruction_and_the_program() {
    let mut vm = Vm::new(program_from("push 1\nhalt"));

    assert_eq!(vm.program(), &[Instruction::Push(1), Instruction::Halt]);
    assert_eq!(vm.next_instruction(), Some(Instruction::Push(1)));
    vm.run();
    assert_eq!(vm.next_instruction(), None);
}

#[test]
fn an_empty_program_ends_at_once() {
    let mut vm = Vm::new(Vec::new());

    assert_eq!(vm.run(), StepOutcome::EndedWithoutHalt);
    assert_eq!(vm.stack(), &[]);
    assert!(!vm.step_back());
}
