use memento::{assemble, instruction_text, Instruction};

#[test]
fn assembles_a_small_program() {
    let program = assemble("push 2\npush 3\nadd\nhalt").unwrap();

    assert_eq!(
        program,
        vec![
            Instruction::Push(2),
            Instruction::Push(3),
            Instruction::Add,
            Instruction::Halt,
        ]
    );
}

#[test]
fn ignores_comments_and_blank_lines() {
    let program = assemble("# a comment\n\npush 2 # inline\nadd\n").unwrap();

    assert_eq!(program, vec![Instruction::Push(2), Instruction::Add]);
}

#[test]
fn pushes_negative_numbers() {
    let program = assemble("push -7\nhalt").unwrap();

    assert_eq!(program, vec![Instruction::Push(-7), Instruction::Halt]);
}

#[test]
fn tells_you_which_line_has_a_problem() {
    let error = assemble("push 2\nplus\nhalt").unwrap_err();

    assert_eq!(error, "Line 2: I do not know 'plus'.");
}

#[test]
fn rejects_push_without_a_number() {
    let error = assemble("push\nhalt").unwrap_err();

    assert_eq!(error, "Line 1: push needs one number");
}

#[test]
fn rejects_push_with_a_non_number() {
    let error = assemble("push abc\nhalt").unwrap_err();

    assert_eq!(error, "Line 1: 'abc' is not a number");
}

#[test]
fn rejects_an_empty_program() {
    let error = assemble("# nothing here").unwrap_err();

    assert_eq!(error, "The program is empty");
}

#[test]
fn rejects_extra_arguments_on_zero_arg_instructions() {
    let error = assemble("add 5").unwrap_err();

    assert_eq!(error, "Line 1: add does not take arguments");
}

#[test]
fn rejects_arguments_on_halt() {
    let error = assemble("halt now").unwrap_err();

    assert_eq!(error, "Line 1: halt does not take arguments");
}

#[test]
fn strips_a_utf8_bom_before_the_first_instruction() {
    let program = assemble("\u{feff}push 2\nhalt").unwrap();

    assert_eq!(program, vec![Instruction::Push(2), Instruction::Halt]);
}

#[test]
fn rejects_push_with_two_numbers() {
    let error = assemble("halt\n\n  push 1 2").unwrap_err();

    assert_eq!(error, "Line 3: push needs one number");
}

#[test]
fn rejects_arguments_on_subtract_and_multiply() {
    assert_eq!(
        assemble("subtract x").unwrap_err(),
        "Line 1: subtract does not take arguments"
    );
    assert_eq!(
        assemble("push 1\nmultiply 2 3").unwrap_err(),
        "Line 2: multiply does not take arguments"
    );
}

#[test]
fn reports_only_the_first_bad_line() {
    let error = assemble("push 1\nfoo\npush x").unwrap_err();

    assert_eq!(error, "Line 2: I do not know 'foo'.");
}

#[test]
fn names_are_case_sensitive() {
    assert_eq!(assemble("PUSH 1").unwrap_err(), "Line 1: I do not know 'PUSH'.");
}

#[test]
fn empty_text_is_an_empty_program() {
    assert_eq!(assemble("").unwrap_err(), "The program is empty");
    assert_eq!(assemble("\n\n   \n# x\n").unwrap_err(), "The program is empty");
}

#[test]
fn a_comment_mark_ends_the_line_even_inside_a_word() {
    let program = assemble("push 12#34\nadd#comment").unwrap();

    assert_eq!(program, vec![Instruction::Push(12), Instruction::Add]);
}

#[test]
fn reads_numbers_as_i64() {
    let program = assemble(
        "push +5\npush 007\npush -0\npush 9223372036854775807\npush -9223372036854775808",
    )
    .unwrap();

    assert_eq!(
        program,
        vec![
            Instruction::Push(5),
            Instruction::Push(7),
            Instruction::Push(0),
            Instruction::Push(i64::MAX),
            Instruction::Push(i64::MIN),
        ]
    );
}

#[test]
fn rejects_numbers_out_of_range_or_malformed() {
    assert_eq!(
        assemble("push 9223372036854775808").unwrap_err(),
        "Line 1: '9223372036854775808' is not a number"
    );
    assert_eq!(
        assemble("push -9223372036854775809").unwrap_err(),
        "Line 1: '-9223372036854775809' is not a number"
    );
    assert_eq!(
        assemble("push 99999999999999999999999x").unwrap_err(),
        "Line 1: '99999999999999999999999x' is not a number"
    );
    assert_eq!(assemble("push -").unwrap_err(), "Line 1: '-' is not a number");
    assert_eq!(assemble("push +").unwrap_err(), "Line 1: '+' is not a number");
    assert_eq!(assemble("push 1.5").unwrap_err(), "Line 1: '1.5' is not a number");
    assert_eq!(assemble("push --1").unwrap_err(), "Line 1: '--1' is not a number");
    assert_eq!(assemble("push ٣").unwrap_err(), "Line 1: '٣' is not a number");
}

#[test]
fn accepts_windows_line_endings_and_unicode_white_space() {
    let program = assemble("push 2\r\n\u{3000}push\u{a0}3 \r\nadd\r\nhalt").unwrap();

    assert_eq!(
        program,
        vec![
            Instruction::Push(2),
            Instruction::Push(3),
            Instruction::Add,
            Instruction::Halt,
        ]
    );
}

#[test]
fn strips_several_byte_order_marks() {
    let program = assemble("\u{feff}\u{feff}halt").unwrap();

    assert_eq!(program, vec![Instruction::Halt]);
}

#[test]
fn a_byte_order_mark_after_the_start_is_a_word() {
    let error = assemble("halt\n\u{feff}add").unwrap_err();

    assert_eq!(error, "Line 2: I do not know '\u{feff}add'.");
}

#[test]
fn counts_lines_past_ten() {
    let source = format!("{}bad", "\n".repeat(11));

    assert_eq!(assemble(&source).unwrap_err(), "Line 12: I do not know 'bad'.");
}

#[test]
fn writes_instruction_text() {
    assert_eq!(instruction_text(Instruction::Push(-7)), "push -7");
    assert_eq!(instruction_text(Instruction::Push(0)), "push 0");
    assert_eq!(instruction_text(Instruction::Push(1200)), "push 1200");
    assert_eq!(
        instruction_text(Instruction::Push(i64::MIN)),
        "push -9223372036854775808"
    );
    assert_eq!(instruction_text(Instruction::Add), "add");
    assert_eq!(instruction_text(Instruction::Subtract), "subtract");
    assert_eq!(instruction_text(Instruction::Multiply), "multiply");
    assert_eq!(instruction_text(Instruction::Halt), "halt");
}

#[test]
fn instruction_text_assembles_back() {
    let program = vec![
        Instruction::Push(i64::MAX),
        Instruction::Push(i64::MIN),
        Instruction::Push(-42),
        Instruction::Add,
        Instruction::Subtract,
        Instruction::Multiply,
        Instruction::Halt,
    ];
    let text: Vec<String> = program.iter().map(|i| instruction_text(*i)).collect();

    assert_eq!(assemble(&text.join("\n")).unwrap(), program);
    for instruction in program {
        assert_eq!(assemble(&instruction_text(instruction)).unwrap(), vec![instruction]);
    }
}
