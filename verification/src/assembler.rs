use vstd::prelude::*;

use crate::instruction::{instruction_chars, Instruction};
use crate::number::{
    decimal, lemma_decimal_digits, lemma_parse_signed_decimal, parse_i64, parsed_i64,
    push_decimal, signed_decimal,
};
use crate::text::{
    chars_of, free_of, is_delimiter, is_white, lemma_one_word, lemma_run_length_at,
    lemma_run_length_facts, lemma_run_length_update, lemma_run_length_whole, lemma_two_words,
    lemma_words_update, next_word, run_length, scan_to, words, Delimiter,
};

verus! {

/// Why a text is not a program. Lines are numbered from 1.
pub enum AssemblyError {
    /// A `push` line without exactly one word after `push`.
    PushNeedsOneNumber(nat),
    /// A `push` line whose argument is not a decimal `i64`.
    NotANumber(nat, Seq<char>),
    /// An `add`, `subtract`, `multiply` or `halt` line with more words after
    /// the name; the name is kept.
    TakesNoArguments(nat, Seq<char>),
    /// A line whose first word names no instruction; the word is kept.
    UnknownInstruction(nat, Seq<char>),
    /// A text without a single instruction.
    EmptyProgram,
}

/// The start of each message about a line: `Line <number>: `.
pub open spec fn line_label(line: nat) -> Seq<char> {
    "Line "@ + decimal(line) + ": "@
}

/// The message that reports `error`.
pub open spec fn error_message(error: AssemblyError) -> Seq<char> {
    match error {
        AssemblyError::PushNeedsOneNumber(line) => line_label(line) + "push needs one number"@,
        AssemblyError::NotANumber(line, word) => line_label(line) + "'"@ + word
            + "' is not a number"@,
        AssemblyError::TakesNoArguments(line, name) => line_label(line) + name
            + " does not take arguments"@,
        AssemblyError::UnknownInstruction(line, word) => line_label(line) + "I do not know '"@
            + word + "'."@,
        AssemblyError::EmptyProgram => "The program is empty"@,
    }
}

/// `text` without the byte-order marks (U+FEFF) it starts with.
pub open spec fn without_bom(text: Seq<char>) -> Seq<char>
    decreases text.len(),
{
    if text.len() > 0 && text[0] == '\u{feff}' {
        without_bom(text.drop_first())
    } else {
        text
    }
}

/// The instruction without arguments that `name` names, if any.
pub open spec fn named_instruction(name: Seq<char>) -> Option<Instruction> {
    if name == "add"@ {
        Some(Instruction::Add)
    } else if name == "subtract"@ {
        Some(Instruction::Subtract)
    } else if name == "multiply"@ {
        Some(Instruction::Multiply)
    } else if name == "halt"@ {
        Some(Instruction::Halt)
    } else {
        None
    }
}

/// What the line `line`, numbered `number`, holds: no instruction (it is
/// blank or a comment), one instruction, or an error. Everything from the
/// first `#` on is a comment; the rest is read as words.
pub open spec fn line_instruction(line: Seq<char>, number: nat) -> Result<
    Option<Instruction>,
    AssemblyError,
> {
    let ws = words(line.take(run_length(line, Delimiter::CommentMark) as int));
    if ws.len() == 0 {
        Ok(None)
    } else if ws[0] == "push"@ {
        if ws.len() != 2 {
            Err(AssemblyError::PushNeedsOneNumber(number))
        } else {
            match parsed_i64(ws[1]) {
                Some(value) => Ok(Some(Instruction::Push(value))),
                None => Err(AssemblyError::NotANumber(number, ws[1])),
            }
        }
    } else {
        match named_instruction(ws[0]) {
            Some(instruction) => if ws.len() != 1 {
                Err(AssemblyError::TakesNoArguments(number, ws[0]))
            } else {
                Ok(Some(instruction))
            },
            None => Err(AssemblyError::UnknownInstruction(number, ws[0])),
        }
    }
}

/// `done` followed by the program `rest`, or the error of `rest`.
pub open spec fn after(done: Seq<Instruction>, rest: Result<Seq<Instruction>, AssemblyError>) -> Result<
    Seq<Instruction>,
    AssemblyError,
> {
    match rest {
        Ok(program) => Ok(done + program),
        Err(error) => Err(error),
    }
}

/// Prepending two runs of instructions in turn prepends them together.
proof fn lemma_after_after(
    first: Seq<Instruction>,
    second: Seq<Instruction>,
    rest: Result<Seq<Instruction>, AssemblyError>,
)
    ensures
        after(first, after(second, rest)) == after(first + second, rest),
{
    if let Ok(program) = rest {
        assert(first + (second + program) =~= (first + second) + program);
    }
}

/// The instructions of `text`, whose first line is numbered `number`; or the
/// error of its first line that has one. Lines end at each `\n`.
pub open spec fn assemble_lines(text: Seq<char>, number: nat) -> Result<
    Seq<Instruction>,
    AssemblyError,
>
    decreases text.len(),
{
    let n = run_length(text, Delimiter::LineFeed) as int;
    match line_instruction(text.take(n), number) {
        Err(error) => Err(error),
        Ok(found) => {
            let here = match found {
                Some(instruction) => seq![instruction],
                None => seq![],
            };
            if n >= text.len() {
                Ok(here)
            } else {
                after(here, assemble_lines(text.skip(n + 1), number + 1))
            }
        },
    }
}

/// The program that `source` holds, or why it holds none.
pub open spec fn assembled(source: Seq<char>) -> Result<Seq<Instruction>, AssemblyError> {
    match assemble_lines(without_bom(source), 1) {
        Ok(program) => if program.len() == 0 {
            Err(AssemblyError::EmptyProgram)
        } else {
            Ok(program)
        },
        Err(error) => Err(error),
    }
}

/// Whether `chars[start..end]` spells `name`.
fn spells(chars: &Vec<char>, start: usize, end: usize, name: &str) -> (same: bool)
    requires
        start <= end <= chars.len(),
    ensures
        same == (chars@.subrange(start as int, end as int) == name@),
{
    let length = name.unicode_len();
    if end - start != length {
        return false;
    }
    let mut i: usize = 0;
    while i < length
        invariant
            start <= end <= chars.len(),
            end - start == length == name@.len(),
            i <= length,
            forall|j: int| 0 <= j < i ==> chars@[start + j] == name@[j],
        decreases length - i,
    {
        if chars[start + i] != name.get_char(i) {
            assert(chars@.subrange(start as int, end as int)[i as int] != name@[i as int]);
            return false;
        }
        i = i + 1;
    }
    assert(chars@.subrange(start as int, end as int) =~= name@);
    true
}

/// Appends `Line <number>: ` to a new message.
fn line_label_text(line: u128) -> (label: String)
    ensures
        label@ == line_label(line as nat),
{
    let mut label = String::from_str("Line ");
    push_decimal(&mut label, line);
    label.append(": ");
    label
}

/// The instruction, if any, on the line `chars[start..end]` of `source`,
/// whose number is `index + 1`, or the message of its error.
fn read_line(source: &str, chars: &Vec<char>, start: usize, end: usize, index: usize) -> (read:
    Result<Option<Instruction>, String>)
    requires
        chars@ == source@,
        start <= end <= chars.len(),
    ensures
        match line_instruction(chars@.subrange(start as int, end as int), index as nat + 1) {
            Ok(found) => read == Ok::<Option<Instruction>, String>(found),
            Err(error) => read matches Err(message) && message@ == error_message(error),
        },
{
    let ghost line = chars@.subrange(start as int, end as int);
    let number = index as u128 + 1;
    let code_end = scan_to(chars, start, end, Delimiter::CommentMark);
    assert(line.take(run_length(line, Delimiter::CommentMark) as int) =~= chars@.subrange(
        start as int,
        code_end as int,
    ));
    let (first_start, first_end) = match next_word(chars, start, code_end) {
        None => return Ok(None),
        Some(bounds) => bounds,
    };
    let second = next_word(chars, first_end, code_end);
    if spells(chars, first_start, first_end, "push") {
        match second {
            None => {
                let mut message = line_label_text(number);
                message.append("push needs one number");
                Err(message)
            },
            Some((second_start, second_end)) => {
                if next_word(chars, second_end, code_end).is_some() {
                    let mut message = line_label_text(number);
                    message.append("push needs one number");
                    return Err(message);
                }
                match parse_i64(chars, second_start, second_end) {
                    Some(value) => Ok(Some(Instruction::Push(value))),
                    None => {
                        let mut message = line_label_text(number);
                        message.append("'");
                        message.append(source.substring_char(second_start, second_end));
                        message.append("' is not a number");
                        Err(message)
                    },
                }
            },
        }
    } else {
        let instruction = if spells(chars, first_start, first_end, "add") {
            Instruction::Add
        } else if spells(chars, first_start, first_end, "subtract") {
            Instruction::Subtract
        } else if spells(chars, first_start, first_end, "multiply") {
            Instruction::Multiply
        } else if spells(chars, first_start, first_end, "halt") {
            Instruction::Halt
        } else {
            let mut message = line_label_text(number);
            message.append("I do not know '");
            message.append(source.substring_char(first_start, first_end));
            message.append("'.");
            return Err(message);
        };
        if second.is_some() {
            let mut message = line_label_text(number);
            message.append(source.substring_char(first_start, first_end));
            message.append(" does not take arguments");
            return Err(message);
        }
        Ok(Some(instruction))
    }
}

/// Reads a program from its text: one instruction per line, where blank
/// lines and everything after `#` are ignored. Errors name the first line
/// that has one; a text with no instruction is an error too.
pub fn assemble(source_code: &str) -> (result: Result<Vec<Instruction>, String>)
    ensures
        match assembled(source_code@) {
            Ok(program) => result matches Ok(instructions) && instructions@ == program,
            Err(error) => result matches Err(message) && message@ == error_message(error),
        },
{
    let chars = chars_of(source_code);
    let length = chars.len();
    let mut p: usize = 0;
    assert(chars@.subrange(0, length as int) =~= chars@);
    while p < length && chars[p] == '\u{feff}'
        invariant
            p <= length == chars.len(),
            without_bom(chars@) == without_bom(chars@.subrange(p as int, length as int)),
        decreases length - p,
    {
        assert(chars@.subrange(p as int, length as int).drop_first() =~= chars@.subrange(
            p + 1,
            length as int,
        ));
        p = p + 1;
    }
    let ghost text = without_bom(chars@);
    assert(text == chars@.subrange(p as int, length as int));
    let mut program: Vec<Instruction> = Vec::new();
    let mut index: usize = 0;
    loop
        invariant
            index <= p <= length == chars.len(),
            chars@ == source_code@,
            text == without_bom(chars@),
            assemble_lines(text, 1) == after(
                program@,
                assemble_lines(chars@.subrange(p as int, length as int), index as nat + 1),
            ),
        decreases length - p,
    {
        let line_end = scan_to(&chars, p, length, Delimiter::LineFeed);
        let ghost rest = chars@.subrange(p as int, length as int);
        assert(rest.take(line_end - p) =~= chars@.subrange(p as int, line_end as int));
        let ghost line_result = line_instruction(
            chars@.subrange(p as int, line_end as int),
            index as nat + 1,
        );
        let ghost done = program@;
        let found = match read_line(source_code, &chars, p, line_end, index) {
            Err(message) => {
                assert(assemble_lines(rest, index as nat + 1) == Err::<Seq<Instruction>, AssemblyError>(
                    line_result->Err_0,
                ));
                return Err(message);
            },
            Ok(found) => found,
        };
        if let Some(instruction) = found {
            program.push(instruction);
        }
        let ghost here = program@.subrange(done.len() as int, program@.len() as int);
        assert(program@ =~= done + here);
        assert(here =~= match found {
            Some(instruction) => seq![instruction],
            None => Seq::<Instruction>::empty(),
        });
        if line_end == length {
            if program.len() == 0 {
                return Err(String::from_str("The program is empty"));
            }
            return Ok(program);
        }
        assert(rest.skip(line_end - p + 1) =~= chars@.subrange(line_end + 1, length as int));
        proof {
            lemma_after_after(
                done,
                here,
                assemble_lines(chars@.subrange(line_end + 1, length as int), index as nat + 2),
            );
        }
        p = line_end + 1;
        index = index + 1;
    }
}

/// The texts of the instructions of `program`, one per line.
pub open spec fn program_text(program: Seq<Instruction>) -> Seq<char>
    decreases program.len(),
{
    if program.len() == 0 {
        seq![]
    } else if program.len() == 1 {
        instruction_chars(program[0])
    } else {
        instruction_chars(program[0]) + seq!['\n'] + program_text(program.drop_first())
    }
}

/// Every character of the decimal text of a number is a digit or `-`.
proof fn lemma_signed_decimal_chars(value: int)
    ensures
        signed_decimal(value).len() > 0,
        forall|i: int|
            0 <= i < signed_decimal(value).len() ==> {
                let c = #[trigger] signed_decimal(value)[i];
                ('0' <= c && c <= '9') || c == '-'
            },
{
    if value < 0 {
        lemma_decimal_digits((-value) as nat);
        assert forall|i: int| 0 <= i < signed_decimal(value).len() implies {
            let c = #[trigger] signed_decimal(value)[i];
            ('0' <= c && c <= '9') || c == '-'
        } by {
            if i > 0 {
                assert(signed_decimal(value)[i] == decimal((-value) as nat)[i - 1]);
            }
        }
    } else {
        lemma_decimal_digits(value as nat);
    }
}

/// The text of an instruction is one line that holds that instruction.
proof fn lemma_instruction_line(instruction: Instruction, number: nat)
    ensures
        instruction_chars(instruction).len() > 0,
        instruction_chars(instruction)[0] != '\u{feff}',
        free_of(instruction_chars(instruction), Delimiter::LineFeed),
        line_instruction(instruction_chars(instruction), number) == Ok::<
            Option<Instruction>,
            AssemblyError,
        >(Some(instruction)),
{
    reveal_strlit("push ");
    reveal_strlit("push");
    reveal_strlit("add");
    reveal_strlit("subtract");
    reveal_strlit("multiply");
    reveal_strlit("halt");
    let line = instruction_chars(instruction);
    match instruction {
        Instruction::Push(value) => {
            let number_text = signed_decimal(value as int);
            lemma_signed_decimal_chars(value as int);
            assert(line =~= "push"@ + seq![' '] + number_text);
            assert forall|i: int| 0 <= i < line.len() implies !is_delimiter(
                #[trigger] line[i],
                Delimiter::LineFeed,
            ) && !is_delimiter(line[i], Delimiter::CommentMark) by {
                if i >= 5 {
                    assert(line[i] == number_text[i - 5]);
                }
            }
            assert(free_of(line, Delimiter::CommentMark));
            lemma_run_length_whole(line, Delimiter::CommentMark);
            assert(line.take(line.len() as int) =~= line);
            assert forall|i: int| 0 <= i < number_text.len() implies !is_delimiter(
                #[trigger] number_text[i],
                Delimiter::WhiteSpace,
            ) by {}
            lemma_two_words("push"@, number_text);
            lemma_parse_signed_decimal(value);
            assert(words(line) == seq!["push"@, number_text]);
        },
        _ => {
            assert(free_of(line, Delimiter::CommentMark));
            assert(free_of(line, Delimiter::WhiteSpace));
            lemma_run_length_whole(line, Delimiter::CommentMark);
            assert(line.take(line.len() as int) =~= line);
            lemma_one_word(line);
            assert(line != "push"@) by {
                assert(line[0] != "push"@[0] || line.len() != "push"@.len());
            }
        },
    }
}

/// The text of a program, one instruction per line, is read back as that
/// program from any first line number.
proof fn lemma_assemble_program_text(program: Seq<Instruction>, number: nat)
    requires
        program.len() > 0,
    ensures
        assemble_lines(program_text(program), number) == Ok::<Seq<Instruction>, AssemblyError>(
            program,
        ),
    decreases program.len(),
{
    let line = instruction_chars(program[0]);
    lemma_instruction_line(program[0], number);
    let text = program_text(program);
    if program.len() == 1 {
        lemma_run_length_whole(line, Delimiter::LineFeed);
        assert(line.take(line.len() as int) =~= line);
        assert(seq![program[0]] =~= program);
    } else {
        let rest = program_text(program.drop_first());
        assert forall|i: int| 0 <= i < line.len() implies !is_delimiter(
            #[trigger] text[i],
            Delimiter::LineFeed,
        ) by {
            assert(text[i] == line[i]);
        }
        assert(text[line.len() as int] == '\n');
        lemma_run_length_at(text, Delimiter::LineFeed, line.len() as int);
        assert(text.take(line.len() as int) =~= line);
        assert(text.skip(line.len() as int + 1) =~= rest);
        lemma_assemble_program_text(program.drop_first(), number + 1);
        assert(seq![program[0]] + program.drop_first() =~= program);
    }
}

/// Law: the text of a non-empty program, one instruction per line as
/// `instruction_text` writes it, is assembled back into that same program.
pub proof fn lemma_program_text_assembles_back(program: Seq<Instruction>)
    requires
        program.len() > 0,
    ensures
        assembled(program_text(program)) == Ok::<Seq<Instruction>, AssemblyError>(program),
{
    lemma_assemble_program_text(program, 1);
    lemma_instruction_line(program[0], 1);
    let text = program_text(program);
    assert(text[0] == instruction_chars(program[0])[0]);
}

/// Law: the text of one instruction, as `instruction_text` writes it, is
/// assembled back into a program of just that instruction.
pub proof fn lemma_instruction_text_assembles_back(instruction: Instruction)
    ensures
        assembled(instruction_chars(instruction)) == Ok::<Seq<Instruction>, AssemblyError>(
            seq![instruction],
        ),
{
    lemma_program_text_assembles_back(seq![instruction]);
}

/// Law: a byte-order mark at the start of a text changes nothing.
pub proof fn lemma_leading_bom_is_ignored(text: Seq<char>)
    ensures
        assembled(seq!['\u{feff}'] + text) == assembled(text),
{
    assert((seq!['\u{feff}'] + text).drop_first() =~= text);
}

/// Replacing a white-space character of a line by another keeps what the
/// line holds.
proof fn lemma_line_update(line: Seq<char>, number: nat, i: int, c: char)
    requires
        0 <= i < line.len(),
        is_white(line[i]),
        is_white(c),
    ensures
        line_instruction(line.update(i, c), number) == line_instruction(line, number),
{
    let changed = line.update(i, c);
    lemma_run_length_update(line, Delimiter::CommentMark, i, c);
    let k = run_length(line, Delimiter::CommentMark) as int;
    lemma_run_length_facts(line, Delimiter::CommentMark);
    if i < k {
        assert(changed.take(k) =~= line.take(k).update(i, c));
        lemma_words_update(line.take(k), i, c);
    } else {
        assert(changed.take(k) =~= line.take(k));
    }
}

/// Replacing a white-space character other than a line feed by another
/// keeps what the lines hold.
proof fn lemma_lines_update(text: Seq<char>, number: nat, i: int, c: char)
    requires
        0 <= i < text.len(),
        is_white(text[i]),
        is_white(c),
        text[i] != '\n',
        c != '\n',
    ensures
        assemble_lines(text.update(i, c), number) == assemble_lines(text, number),
    decreases text.len(),
{
    let changed = text.update(i, c);
    lemma_run_length_update(text, Delimiter::LineFeed, i, c);
    lemma_run_length_facts(text, Delimiter::LineFeed);
    let n = run_length(text, Delimiter::LineFeed) as int;
    if i < n {
        assert(changed.take(n) =~= text.take(n).update(i, c));
        lemma_line_update(text.take(n), number, i, c);
        if n < text.len() {
            assert(changed.skip(n + 1) =~= text.skip(n + 1));
        }
    } else {
        assert(i != n);
        assert(changed.take(n) =~= text.take(n));
        assert(changed.skip(n + 1) =~= text.skip(n + 1).update(i - n - 1, c));
        assert(text.skip(n + 1)[i - n - 1] == text[i]);
        lemma_lines_update(text.skip(n + 1), number + 1, i - n - 1, c);
    }
}

/// Replacing a character that is not a byte-order mark by another such
/// character changes the same character of the text without its marks.
proof fn lemma_without_bom_update(text: Seq<char>, i: int, c: char)
    requires
        0 <= i < text.len(),
        text[i] != '\u{feff}',
        c != '\u{feff}',
    ensures
        ({
            let k = text.len() - without_bom(text).len();
            &&& 0 <= k <= i
            &&& without_bom(text) == text.skip(k)
            &&& without_bom(text.update(i, c)) == without_bom(text).update(i - k, c)
        }),
    decreases text.len(),
{
    let changed = text.update(i, c);
    if text[0] == '\u{feff}' {
        assert(changed.drop_first() =~= text.drop_first().update(i - 1, c));
        lemma_without_bom_update(text.drop_first(), i - 1, c);
        let k = text.drop_first().len() - without_bom(text.drop_first()).len();
        assert(text.drop_first().skip(k) =~= text.skip(k + 1));
    } else {
        assert(text.skip(0) =~= text);
    }
}

/// Law: replacing one white-space character that is not a line feed by
/// another (a tab by a space, say) anywhere in a text does not change what
/// the text assembles to.
pub proof fn lemma_white_space_is_interchangeable(source: Seq<char>, i: int, c: char)
    requires
        0 <= i < source.len(),
        is_white(source[i]),
        is_white(c),
        source[i] != '\n',
        c != '\n',
    ensures
        assembled(source.update(i, c)) == assembled(source),
{
    lemma_without_bom_update(source, i, c);
    let text = without_bom(source);
    let k = source.len() - text.len();
    assert(text[i - k] == source[i]);
    lemma_lines_update(text, 1, i - k, c);
}

/// Law: a tab separates words just as a space does: writing a tab in place
/// of any space of a text does not change what it assembles to.
pub proof fn lemma_tab_works_like_space(source: Seq<char>, i: int)
    requires
        0 <= i < source.len(),
        source[i] == ' ',
    ensures
        assembled(source.update(i, '\t')) == assembled(source),
{
    lemma_white_space_is_interchangeable(source, i, '\t');
}

/// Law: a program that assembles holds at least one instruction.
pub proof fn lemma_assembled_program_is_not_empty(source: Seq<char>)
    ensures
        assembled(source) matches Ok(program) ==> program.len() > 0,
{
}

} // verus!
