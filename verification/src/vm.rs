use vstd::prelude::*;

use crate::instruction::{op_name, Instruction, MathOp};
use crate::number::{push_signed_decimal, signed_decimal};

verus! {

/// What the instructions act on: the stack, bottom first, and the position
/// of the next instruction.
pub struct MachineState {
    pub stack: Seq<i64>,
    pub ip: nat,
}

/// The state every run starts from: an empty stack at the first
/// instruction.
pub open spec fn start_state() -> MachineState {
    MachineState { stack: seq![], ip: 0 }
}

/// Why an arithmetic instruction failed.
#[derive(Clone, Copy, Debug, PartialEq, Eq, Structural)]
pub enum MathError {
    /// The stack held fewer than two numbers.
    NotEnoughNumbers(MathOp),
    /// The exact result, of the left and right operands kept here, does not
    /// fit in an `i64`.
    Overflow(MathOp, i64, i64),
}

/// The message that reports `error`.
pub open spec fn math_error_message(error: MathError) -> Seq<char> {
    match error {
        MathError::NotEnoughNumbers(op) => "Not enough numbers on the stack to "@ + op_name(op),
        MathError::Overflow(op, left, right) => "Overflow when trying to "@ + op_name(op) + " "@
            + signed_decimal(left as int) + " and "@ + signed_decimal(right as int),
    }
}

impl MathError {
    /// The message that reports this error.
    pub fn message(&self) -> (message: String)
        ensures
            message@ == math_error_message(*self),
    {
        match self {
            MathError::NotEnoughNumbers(op) => {
                let mut message = String::from_str("Not enough numbers on the stack to ");
                message.append(op.name());
                message
            },
            MathError::Overflow(op, left, right) => {
                let mut message = String::from_str("Overflow when trying to ");
                message.append(op.name());
                message.append(" ");
                push_signed_decimal(&mut message, *left);
                message.append(" and ");
                push_signed_decimal(&mut message, *right);
                message
            },
        }
    }
}

/// What one step did.
#[derive(Clone, Copy, Debug, PartialEq, Eq, Structural)]
pub enum StepOutcome {
    /// An instruction other than `halt` ran; the program goes on.
    Continued,
    /// A `halt` ran; the program stops.
    Halted,
    /// There was no instruction left to run; nothing changed.
    EndedWithoutHalt,
    /// An arithmetic instruction failed; nothing changed.
    Failed(MathError),
}

/// The message that reports a step with this outcome, if it needs one: a
/// step that ran needs none.
pub open spec fn outcome_message(outcome: StepOutcome) -> Option<Seq<char>> {
    match outcome {
        StepOutcome::Continued => None,
        StepOutcome::Halted => None,
        StepOutcome::EndedWithoutHalt => Some("The program ended without HALT"@),
        StepOutcome::Failed(error) => Some(math_error_message(error)),
    }
}

impl StepOutcome {
    /// The message that reports a step with this outcome, if it needs one.
    pub fn message(&self) -> (message: Option<String>)
        ensures
            message matches Some(text) ==> outcome_message(*self) == Some(text@),
            message is None ==> outcome_message(*self) is None,
    {
        match self {
            StepOutcome::Continued => None,
            StepOutcome::Halted => None,
            StepOutcome::EndedWithoutHalt => Some(String::from_str("The program ended without HALT")),
            StepOutcome::Failed(error) => Some(error.message()),
        }
    }
}

/// Whether a step with this outcome ran its instruction, and so can be
/// stepped back over.
pub open spec fn ran(outcome: StepOutcome) -> bool {
    outcome == StepOutcome::Continued || outcome == StepOutcome::Halted
}

/// The exact result of `op` on `left` and `right`, when it fits in an `i64`.
pub open spec fn math_result(op: MathOp, left: i64, right: i64) -> Option<i64> {
    let exact = match op {
        MathOp::Add => left + right,
        MathOp::Subtract => left - right,
        MathOp::Multiply => left * right,
    };
    if i64::MIN <= exact <= i64::MAX {
        Some(exact as i64)
    } else {
        None
    }
}

/// An arithmetic instruction: it replaces the top two numbers, left below
/// right, by the result of `op`, and moves on; when there are fewer than two
/// numbers or the result does not fit, it fails and changes nothing.
pub open spec fn math_step(state: MachineState, op: MathOp) -> (MachineState, StepOutcome) {
    let n = state.stack.len();
    if n < 2 {
        (state, StepOutcome::Failed(MathError::NotEnoughNumbers(op)))
    } else {
        let left = state.stack[n - 2];
        let right = state.stack[n - 1];
        match math_result(op, left, right) {
            Some(value) => (
                MachineState { stack: state.stack.take(n - 2).push(value), ip: state.ip + 1 },
                StepOutcome::Continued,
            ),
            None => (state, StepOutcome::Failed(MathError::Overflow(op, left, right))),
        }
    }
}

/// The state after running the instruction at `state.ip` of `program`, and
/// what that step did.
pub open spec fn next_state(program: Seq<Instruction>, state: MachineState) -> (
    MachineState,
    StepOutcome,
) {
    if state.ip >= program.len() {
        (state, StepOutcome::EndedWithoutHalt)
    } else {
        match program[state.ip as int] {
            Instruction::Push(number) => (
                MachineState { stack: state.stack.push(number), ip: state.ip + 1 },
                StepOutcome::Continued,
            ),
            Instruction::Add => math_step(state, MathOp::Add),
            Instruction::Subtract => math_step(state, MathOp::Subtract),
            Instruction::Multiply => math_step(state, MathOp::Multiply),
            Instruction::Halt => (
                MachineState { stack: state.stack, ip: state.ip + 1 },
                StepOutcome::Halted,
            ),
        }
    }
}

/// What a machine holds: its state, its program, and the states saved
/// before each step that can still be stepped back over, oldest first.
pub struct VmView {
    pub state: MachineState,
    pub program: Seq<Instruction>,
    pub history: Seq<MachineState>,
}

/// One step: when the instruction runs, the state before it is saved and
/// the state after it replaces it; otherwise nothing changes.
pub open spec fn after_step(vm: VmView) -> (VmView, StepOutcome) {
    let (next, outcome) = next_state(vm.program, vm.state);
    if ran(outcome) {
        (
            VmView { state: next, program: vm.program, history: vm.history.push(vm.state) },
            outcome,
        )
    } else {
        (vm, outcome)
    }
}

/// One step back: the most recently saved state is restored and forgotten;
/// with nothing saved, nothing changes and the answer is `false`.
pub open spec fn after_step_back(vm: VmView) -> (VmView, bool) {
    if vm.history.len() == 0 {
        (vm, false)
    } else {
        (
            VmView {
                state: vm.history.last(),
                program: vm.program,
                history: vm.history.drop_last(),
            },
            true,
        )
    }
}

/// Steps until a step does not continue; the final machine and the outcome
/// of that last step.
pub open spec fn run_from(vm: VmView) -> (VmView, StepOutcome)
    decreases vm.program.len() - vm.state.ip,
{
    let (next, outcome) = after_step(vm);
    if outcome == StepOutcome::Continued {
        run_from(next)
    } else {
        (next, outcome)
    }
}

/// Every saved state followed by the current one.
pub open spec fn trace(vm: VmView) -> Seq<MachineState> {
    vm.history.push(vm.state)
}

/// Running the instruction at entry `k` of the trace gives entry `k + 1`.
pub open spec fn trace_step(vm: VmView, k: int) -> bool {
    let (next, outcome) = next_state(vm.program, trace(vm)[k]);
    ran(outcome) && next == trace(vm)[k + 1]
}

/// The machines that running and stepping back can produce: the trace
/// starts from the start state and each entry is what running the program
/// one step from the one before gives.
pub open spec fn valid(vm: VmView) -> bool {
    &&& trace(vm)[0] == start_state()
    &&& forall|k: int| 0 <= k < vm.history.len() ==> #[trigger] trace_step(vm, k)
}

/// Law: a step that ran its instruction is undone by one step back, which
/// restores the state, program and history from before the step.
pub proof fn lemma_step_back_undoes_step(vm: VmView)
    requires
        ran(after_step(vm).1),
    ensures
        after_step_back(after_step(vm).0) == (vm, true),
{
    assert(vm.history.push(vm.state).drop_last() =~= vm.history);
}

/// Law: a step that did not run its instruction (the program was over, or
/// the arithmetic failed) changes nothing.
pub proof fn lemma_refused_step_changes_nothing(vm: VmView)
    requires
        !ran(after_step(vm).1),
    ensures
        after_step(vm).0 == vm,
{
}

/// Law: no step changes the program, and neither does a step back.
pub proof fn lemma_program_is_kept(vm: VmView)
    ensures
        after_step(vm).0.program == vm.program,
        after_step_back(vm).0.program == vm.program,
        run_from(vm).0.program == vm.program,
    decreases vm.program.len() - vm.state.ip,
{
    if after_step(vm).1 == StepOutcome::Continued {
        lemma_program_is_kept(after_step(vm).0);
    }
}

/// Law: a valid machine with nothing to step back over is at the start: an
/// empty stack at the first instruction.
pub proof fn lemma_no_history_means_start(vm: VmView)
    requires
        valid(vm),
        vm.history.len() == 0,
    ensures
        vm.state == start_state(),
{
    assert(trace(vm)[0] == vm.state);
}

/// The machine after `times` steps back.
pub open spec fn rewound(vm: VmView, times: nat) -> VmView
    decreases times,
{
    if times == 0 {
        vm
    } else {
        rewound(after_step_back(vm).0, (times - 1) as nat)
    }
}

/// Law: from a valid machine, stepping back once for each saved state
/// succeeds every time and returns to the start, with the same program and
/// nothing left to step back over.
pub proof fn lemma_rewinding_reaches_start(vm: VmView)
    requires
        valid(vm),
    ensures
        forall|k: nat| k < vm.history.len() ==> #[trigger] after_step_back(rewound(vm, k)).1,
        rewound(vm, vm.history.len()).state == start_state(),
        rewound(vm, vm.history.len()).history.len() == 0,
        rewound(vm, vm.history.len()).program == vm.program,
    decreases vm.history.len(),
{
    if vm.history.len() == 0 {
        lemma_no_history_means_start(vm);
    } else {
        let back = after_step_back(vm).0;
        lemma_step_back_keeps_valid(vm);
        lemma_rewinding_reaches_start(back);
        assert(rewound(vm, vm.history.len()) == rewound(back, back.history.len()));
        assert forall|k: nat| k < vm.history.len() implies #[trigger] after_step_back(
            rewound(vm, k),
        ).1 by {
            if k > 0 {
                assert(rewound(vm, k) == rewound(back, (k - 1) as nat));
                assert(after_step_back(rewound(back, (k - 1) as nat)).1);
            }
        }
    }
}

/// Law: running stops on the first step that does not continue: after a
/// halt, at the end of the program, or on a failed instruction.
pub proof fn lemma_run_stops(vm: VmView)
    ensures
        run_from(vm).1 != StepOutcome::Continued,
    decreases vm.program.len() - vm.state.ip,
{
    if after_step(vm).1 == StepOutcome::Continued {
        lemma_run_stops(after_step(vm).0);
    }
}

/// The machine after a step that ran, with `stack` as its new stack.
pub open spec fn moved_on(vm: VmView, stack: Seq<i64>) -> VmView {
    VmView {
        state: MachineState { stack: stack, ip: vm.state.ip + 1 },
        program: vm.program,
        history: vm.history.push(vm.state),
    }
}

/// Law: `push n` puts `n` on top of the stack and moves on.
pub proof fn lemma_push_step(vm: VmView, number: i64)
    requires
        vm.state.ip < vm.program.len(),
        vm.program[vm.state.ip as int] == Instruction::Push(number),
    ensures
        after_step(vm) == (moved_on(vm, vm.state.stack.push(number)), StepOutcome::Continued),
        after_step(vm).0.state.stack.last() == number,
        after_step(vm).0.state.stack.len() == vm.state.stack.len() + 1,
{
}

/// Law: `add` on a stack ending in `left, right` replaces them by
/// `left + right` and moves on; when the sum does not fit in an `i64`, the
/// step fails and nothing changes.
pub proof fn lemma_add_step(vm: VmView)
    requires
        vm.state.ip < vm.program.len(),
        vm.program[vm.state.ip as int] == Instruction::Add,
        vm.state.stack.len() >= 2,
    ensures
        ({
            let stack = vm.state.stack;
            let n = stack.len();
            let left = stack[n - 2];
            let right = stack[n - 1];
            if i64::MIN <= left + right <= i64::MAX {
                &&& after_step(vm) == (
                    moved_on(vm, stack.take(n - 2).push((left + right) as i64)),
                    StepOutcome::Continued,
                )
                &&& after_step(vm).0.state.stack.last() - right == left
            } else {
                after_step(vm) == (vm, StepOutcome::Failed(
                    MathError::Overflow(MathOp::Add, left, right),
                ))
            }
        }),
{
}

/// Law: `subtract` on a stack ending in `left, right` replaces them by
/// `left - right` (negative when `right` is the larger) and moves on; when
/// the difference does not fit in an `i64`, the step fails and nothing
/// changes.
pub proof fn lemma_subtract_step(vm: VmView)
    requires
        vm.state.ip < vm.program.len(),
        vm.program[vm.state.ip as int] == Instruction::Subtract,
        vm.state.stack.len() >= 2,
    ensures
        ({
            let stack = vm.state.stack;
            let n = stack.len();
            let left = stack[n - 2];
            let right = stack[n - 1];
            if i64::MIN <= left - right <= i64::MAX {
                &&& after_step(vm) == (
                    moved_on(vm, stack.take(n - 2).push((left - right) as i64)),
                    StepOutcome::Continued,
                )
                &&& after_step(vm).0.state.stack.last() + right == left
            } else {
                after_step(vm) == (vm, StepOutcome::Failed(
                    MathError::Overflow(MathOp::Subtract, left, right),
                ))
            }
        }),
{
}

/// Law: `multiply` on a stack ending in `left, right` replaces them by
/// `left * right` (negative when exactly one of them is) and moves on; when
/// the product does not fit in an `i64`, the step fails and nothing changes.
pub proof fn lemma_multiply_step(vm: VmView)
    requires
        vm.state.ip < vm.program.len(),
        vm.program[vm.state.ip as int] == Instruction::Multiply,
        vm.state.stack.len() >= 2,
    ensures
        ({
            let stack = vm.state.stack;
            let n = stack.len();
            let left = stack[n - 2];
            let right = stack[n - 1];
            if i64::MIN <= left * right <= i64::MAX {
                &&& after_step(vm) == (
                    moved_on(vm, stack.take(n - 2).push((left * right) as i64)),
                    StepOutcome::Continued,
                )
                &&& (left < 0 && right > 0) ==> after_step(vm).0.state.stack.last() < 0
            } else {
                after_step(vm) == (vm, StepOutcome::Failed(
                    MathError::Overflow(MathOp::Multiply, left, right),
                ))
            }
        }),
{
    let left = vm.state.stack[vm.state.stack.len() - 2];
    let right = vm.state.stack[vm.state.stack.len() - 1];
    if left < 0 && right > 0 {
        assert(left * right < 0) by (nonlinear_arith)
            requires
                left < 0,
                right > 0,
        ;
    }
}

/// Law: an arithmetic instruction on a stack of fewer than two numbers
/// fails and changes nothing.
pub proof fn lemma_arithmetic_needs_two_numbers(vm: VmView, op: MathOp)
    requires
        vm.state.ip < vm.program.len(),
        vm.program[vm.state.ip as int] == (match op {
            MathOp::Add => Instruction::Add,
            MathOp::Subtract => Instruction::Subtract,
            MathOp::Multiply => Instruction::Multiply,
        }),
        vm.state.stack.len() < 2,
    ensures
        after_step(vm) == (vm, StepOutcome::Failed(MathError::NotEnoughNumbers(op))),
{
}

/// Law: `halt` keeps the stack as it is, moves past itself and stops the
/// program.
pub proof fn lemma_halt_step(vm: VmView)
    requires
        vm.state.ip < vm.program.len(),
        vm.program[vm.state.ip as int] == Instruction::Halt,
    ensures
        after_step(vm) == (moved_on(vm, vm.state.stack), StepOutcome::Halted),
{
}

/// Law: past the end of the program a step runs nothing and changes
/// nothing.
pub proof fn lemma_step_past_the_end(vm: VmView)
    requires
        vm.state.ip >= vm.program.len(),
    ensures
        after_step(vm) == (vm, StepOutcome::EndedWithoutHalt),
{
}

struct Snapshot {
    stack: Vec<i64>,
    instruction_pointer: usize,
}

impl Snapshot {
    spec fn state(&self) -> MachineState {
        MachineState { stack: self.stack@, ip: self.instruction_pointer as nat }
    }
}

/// A stack machine running a program, with the history that lets it step
/// back.
pub struct Vm {
    stack: Vec<i64>,
    instruction_pointer: usize,
    program: Vec<Instruction>,
    history: Vec<Snapshot>,
}

impl View for Vm {
    type V = VmView;

    closed spec fn view(&self) -> VmView {
        VmView {
            state: MachineState { stack: self.stack@, ip: self.instruction_pointer as nat },
            program: self.program@,
            history: self.history@.map_values(|snapshot: Snapshot| snapshot.state()),
        }
    }
}

/// The instruction pointer of a valid machine never passes the end of its
/// program.
pub proof fn lemma_pointer_in_bounds(vm: VmView)
    requires
        valid(vm),
    ensures
        vm.state.ip <= vm.program.len(),
{
    if vm.history.len() > 0 {
        let k = vm.history.len() - 1;
        assert(trace_step(vm, k));
        assert(trace(vm)[k + 1] == vm.state);
    } else {
        assert(trace(vm)[0] == vm.state);
    }
}

/// A step keeps a machine valid.
pub proof fn lemma_step_keeps_valid(vm: VmView)
    requires
        valid(vm),
    ensures
        valid(after_step(vm).0),
{
    let next = after_step(vm).0;
    if ran(after_step(vm).1) {
        assert forall|k: int| 0 <= k < next.history.len() implies #[trigger] trace_step(next, k) by {
            if k < vm.history.len() {
                assert(trace_step(vm, k));
                assert(trace(next)[k] == trace(vm)[k]);
                assert(trace(next)[k + 1] == trace(vm)[k + 1]);
            } else {
                assert(trace(next)[k] == vm.state);
                assert(trace(next)[k + 1] == next.state);
            }
        }
        assert(trace(next)[0] == trace(vm)[0]);
    }
}

/// A step back keeps a machine valid.
pub proof fn lemma_step_back_keeps_valid(vm: VmView)
    requires
        valid(vm),
    ensures
        valid(after_step_back(vm).0),
{
    let back = after_step_back(vm).0;
    if vm.history.len() > 0 {
        assert(trace(back) =~= trace(vm).drop_last());
        assert forall|k: int| 0 <= k < back.history.len() implies #[trigger] trace_step(back, k) by {
            assert(trace_step(vm, k));
        }
    }
}

impl Vm {
    /// The machine is one that running and stepping back can produce.
    pub open spec fn well_formed(&self) -> bool {
        valid(self@)
    }

    /// A machine ready to run `program` from its first instruction, with an
    /// empty stack and nothing to step back over.
    pub fn new(program: Vec<Instruction>) -> (vm: Vm)
        ensures
            vm.well_formed(),
            vm@ == (VmView { state: start_state(), program: program@, history: seq![] }),
    {
        let vm = Vm { stack: Vec::new(), instruction_pointer: 0, program, history: Vec::new() };
        assert(vm@.history =~= Seq::<MachineState>::empty());
        assert(vm@.state.stack =~= Seq::<i64>::empty());
        assert(trace(vm@)[0] == vm@.state);
        vm
    }

    /// Runs one arithmetic instruction on the stack: pops right, then left,
    /// and pushes the result of `op` when it fits.
    fn do_math(&mut self, op: MathOp) -> (result: Result<(), MathError>)
        ensures
            final(self).instruction_pointer == old(self).instruction_pointer,
            final(self).program == old(self).program,
            final(self).history == old(self).history,
            ({
                let stack = old(self).stack@;
                let n = stack.len();
                if n < 2 {
                    &&& result == Err::<(), MathError>(MathError::NotEnoughNumbers(op))
                    &&& final(self).stack@ == stack
                } else {
                    match math_result(op, stack[n - 2], stack[n - 1]) {
                        Some(value) => {
                            &&& result == Ok::<(), MathError>(())
                            &&& final(self).stack@ == stack.take(n - 2).push(value)
                        },
                        None => {
                            &&& result == Err::<(), MathError>(
                                MathError::Overflow(op, stack[n - 2], stack[n - 1]),
                            )
                            &&& final(self).stack@ == stack.take(n - 2)
                        },
                    }
                }
            }),
    {
        if self.stack.len() < 2 {
            return Err(MathError::NotEnoughNumbers(op));
        }
        let right = self.stack.pop().unwrap();
        let left = self.stack.pop().unwrap();
        let answer = match op {
            MathOp::Add => left.checked_add(right),
            MathOp::Subtract => left.checked_sub(right),
            MathOp::Multiply => left.checked_mul(right),
        };
        assert(self.stack@ =~= old(self).stack@.take(old(self).stack@.len() - 2));
        match answer {
            Some(answer) => {
                self.stack.push(answer);
                Ok(())
            },
            None => Err(MathError::Overflow(op, left, right)),
        }
    }

    /// Runs the next instruction and says what happened. Before running it,
    /// the stack and instruction pointer are saved so that `step_back` can
    /// restore them; an instruction that fails changes nothing and saves
    /// nothing.
    pub fn advance(&mut self) -> (outcome: StepOutcome)
        requires
            old(self).well_formed(),
        ensures
            final(self).well_formed(),
            (final(self)@, outcome) == after_step(old(self)@),
    {
        proof {
            lemma_step_keeps_valid(self@);
            lemma_pointer_in_bounds(self@);
        }
        if self.instruction_pointer >= self.program.len() {
            return StepOutcome::EndedWithoutHalt;
        }
        let snapshot = Snapshot {
            stack: self.stack.clone(),
            instruction_pointer: self.instruction_pointer,
        };
        assert(snapshot.stack@ =~= self.stack@);
        self.history.push(snapshot);
        let instruction = self.program[self.instruction_pointer];
        self.instruction_pointer = self.instruction_pointer + 1;
        let result = match instruction {
            Instruction::Push(number) => {
                self.stack.push(number);
                Ok(())
            },
            Instruction::Add => self.do_math(MathOp::Add),
            Instruction::Subtract => self.do_math(MathOp::Subtract),
            Instruction::Multiply => self.do_math(MathOp::Multiply),
            Instruction::Halt => {
                assert(self@.history =~= old(self)@.history.push(old(self)@.state));
                return StepOutcome::Halted;
            },
        };
        match result {
            Err(error) => {
                let snapshot = self.history.pop().unwrap();
                self.stack = snapshot.stack;
                self.instruction_pointer = snapshot.instruction_pointer;
                assert(self@.history =~= old(self)@.history);
                StepOutcome::Failed(error)
            },
            Ok(()) => {
                assert(self@.history =~= old(self)@.history.push(old(self)@.state));
                StepOutcome::Continued
            },
        }
    }

    /// Runs the next instruction; `true` when the program goes on, `false`
    /// when it halted, ran out of instructions or failed.
    pub fn step(&mut self) -> (keeps_running: bool)
        requires
            old(self).well_formed(),
        ensures
            final(self).well_formed(),
            final(self)@ == after_step(old(self)@).0,
            keeps_running == (after_step(old(self)@).1 == StepOutcome::Continued),
    {
        let outcome = self.advance();
        match outcome {
            StepOutcome::Continued => true,
            _ => false,
        }
    }

    /// Restores the stack and instruction pointer saved before the most
    /// recent step that ran, and forgets that save; `false`, with nothing
    /// changed, when there is none.
    pub fn step_back(&mut self) -> (stepped: bool)
        requires
            old(self).well_formed(),
        ensures
            final(self).well_formed(),
            (final(self)@, stepped) == after_step_back(old(self)@),
    {
        proof {
            lemma_step_back_keeps_valid(self@);
        }
        if self.history.len() == 0 {
            return false;
        }
        let last_snapshot = self.history.pop().unwrap();
        self.stack = last_snapshot.stack;
        self.instruction_pointer = last_snapshot.instruction_pointer;
        assert(self@.history =~= old(self)@.history.drop_last());
        true
    }

    /// Steps until a step does not continue, and says how that last step
    /// ended.
    pub fn run(&mut self) -> (outcome: StepOutcome)
        requires
            old(self).well_formed(),
        ensures
            final(self).well_formed(),
            (final(self)@, outcome) == run_from(old(self)@),
    {
        loop
            invariant
                self.well_formed(),
                run_from(self@) == run_from(old(self)@),
            decreases self@.program.len() - self@.state.ip,
        {
            proof {
                lemma_pointer_in_bounds(self@);
            }
            let outcome = self.advance();
            match outcome {
                StepOutcome::Continued => {},
                _ => return outcome,
            }
        }
    }

    /// The stack, bottom first.
    pub fn stack(&self) -> (stack: &[i64])
        ensures
            stack@ == self@.state.stack,
    {
        self.stack.as_slice()
    }

    /// The position of the next instruction.
    pub fn instruction_pointer(&self) -> (ip: usize)
        ensures
            ip == self@.state.ip,
    {
        self.instruction_pointer
    }

    /// The instruction that the next step runs; `None` once the instruction
    /// pointer has passed the end of the program.
    pub fn next_instruction(&self) -> (next: Option<Instruction>)
        ensures
            next == (if self@.state.ip < self@.program.len() {
                Some(self@.program[self@.state.ip as int])
            } else {
                None::<Instruction>
            }),
    {
        if self.instruction_pointer < self.program.len() {
            Some(self.program[self.instruction_pointer])
        } else {
            None
        }
    }

    /// The program.
    pub fn program(&self) -> (program: &[Instruction])
        ensures
            program@ == self@.program,
    {
        self.program.as_slice()
    }
}

} // verus!
