use vstd::prelude::*;

use crate::text::{all_white, chars_of, lemma_trimmed_ignores_white_around, trim_bounds, trimmed};

verus! {

/// A command typed at the step-by-step debugger.
#[derive(Clone, Copy, Debug, PartialEq, Eq, Structural)]
pub enum Command {
    /// `n`: run the next instruction.
    Next,
    /// `b`: restore the state from before the last instruction.
    Back,
    /// `q`: leave the debugger.
    Quit,
    /// Anything else.
    Unknown,
}

/// The command that the line `line` asks for: `n`, `b` or `q`, with any
/// white space around it.
pub open spec fn command_of(line: Seq<char>) -> Command {
    let word = trimmed(line);
    if word == seq!['n'] {
        Command::Next
    } else if word == seq!['b'] {
        Command::Back
    } else if word == seq!['q'] {
        Command::Quit
    } else {
        Command::Unknown
    }
}

/// Law: white space before or after a line, such as the line end that
/// reading a line keeps, does not change the command it asks for.
pub proof fn lemma_command_ignores_white_around(front: Seq<char>, line: Seq<char>, back: Seq<char>)
    requires
        all_white(front),
        all_white(back),
    ensures
        command_of(front + line + back) == command_of(line),
{
    lemma_trimmed_ignores_white_around(front, line, back);
}

/// Law: a line that is `n`, `b` or `q` and then a line end (`\n` or
/// `\r\n`) asks for next, back or quit; with white space anywhere around
/// the letter too.
pub proof fn lemma_command_letters(front: Seq<char>, back: Seq<char>)
    requires
        all_white(front),
        all_white(back),
    ensures
        command_of(front + seq!['n'] + back) == Command::Next,
        command_of(front + seq!['b'] + back) == Command::Back,
        command_of(front + seq!['q'] + back) == Command::Quit,
        command_of(seq!['q', '\n']) == Command::Quit,
        command_of(seq!['q', '\r', '\n']) == Command::Quit,
{
    lemma_trimmed_ignores_white_around(front, seq!['n'], back);
    lemma_trimmed_ignores_white_around(front, seq!['b'], back);
    lemma_trimmed_ignores_white_around(front, seq!['q'], back);
    lemma_trimmed_ignores_white_around(seq![], seq!['q'], seq!['\n']);
    lemma_trimmed_ignores_white_around(seq![], seq!['q'], seq!['\r', '\n']);
    assert(Seq::<char>::empty() + seq!['q'] + seq!['\n'] =~= seq!['q', '\n']);
    assert(Seq::<char>::empty() + seq!['q'] + seq!['\r', '\n'] =~= seq!['q', '\r', '\n']);
    assert(trimmed(seq!['n']) =~= seq!['n']);
    assert(trimmed(seq!['b']) =~= seq!['b']);
    assert(trimmed(seq!['q']) =~= seq!['q']);
    assert(seq!['b'] != seq!['n']) by { assert(seq!['b'][0] != seq!['n'][0]); }
    assert(seq!['q'] != seq!['n']) by { assert(seq!['q'][0] != seq!['n'][0]); }
    assert(seq!['q'] != seq!['b']) by { assert(seq!['q'][0] != seq!['b'][0]); }
}

/// Reads the command that the line `line` asks for.
pub fn parse_command(line: &str) -> (command: Command)
    ensures
        command == command_of(line@),
{
    let chars = chars_of(line);
    let (start, end) = trim_bounds(&chars);
    let ghost word = chars@.subrange(start as int, end as int);
    if end - start != 1 {
        assert(word.len() != 1);
        return Command::Unknown;
    }
    let c = chars[start];
    assert(word =~= seq![c]);
    assert(word == seq!['n'] ==> c == seq!['n'][0]);
    assert(word == seq!['b'] ==> c == seq!['b'][0]);
    assert(word == seq!['q'] ==> c == seq!['q'][0]);
    match c {
        'n' => Command::Next,
        'b' => Command::Back,
        'q' => Command::Quit,
        _ => Command::Unknown,
    }
}

} // verus!
