# memento

A tiny stack-based bytecode machine that runs forward and backward, written
in Verus with its behaviour stated in contracts and proved.

Programs are text, one instruction per line (`push <number>`, `add`,
`subtract`, `multiply`, `halt`); blank lines and everything after `#` are
ignored. Before each instruction runs, the machine saves its stack and
instruction pointer, so that `step_back` can restore them.

Layout:

- `src/text.rs`: white space, words and trimming over characters.
- `src/number.rs`: decimal text of integers and reading it back as `i64`.
- `src/instruction.rs`: the instructions and their text.
- `src/assembler.rs`: `assemble`, specified by `assembled`, and the laws
  that the text of a program assembles back into it.
- `src/vm.rs`: the machine (`Vm`), its semantics (`next_state`,
  `after_step`, `after_step_back`, `run_from`), the invariant `valid`, and
  the laws of stepping back.
- `src/command.rs`: the commands of the step-by-step debugger.
- `app/main.rs`: the command line: reading the file, printing, the trace and
  the debugger loop.
- `tests/`: tests run against the compiled library.
