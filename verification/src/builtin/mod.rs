//! The console's built-in commands.

use vstd::prelude::*;
use vstd::string::*;
use crate::text::{clear_string, push_str};

pub mod ps;

verus! {

/// A command that the console knows, or the lack of one.
#[derive(Debug, Clone, Copy, PartialEq, Eq, Structural)]
pub enum Command {
    /// `:`, which does nothing.
    Nop,
    /// `ps`, which lists the tasks.
    Ps,
    /// Any other non-empty line.
    NotFound,
}

/// The command that a non-empty command line names.
pub open spec fn parse_command(line: Seq<char>) -> Command {
    if line == seq![':'] {
        Command::Nop
    } else if line == seq!['p', 's'] {
        Command::Ps
    } else {
        Command::NotFound
    }
}

/// What a command writes to the console; `tasks` are the task names by
/// task id.
pub open spec fn command_output(command: Command, tasks: Seq<Seq<char>>) -> Seq<char> {
    match command {
        Command::Nop => Seq::empty(),
        Command::Ps => ps::ps_report(tasks),
        Command::NotFound => "\r\n"@ + "command not found"@,
    }
}

/// Decides what a finished command line asks for and hands back the same
/// buffer, cleared: nothing for an empty line, else the command it names.
pub fn run_command(mut command: String) -> (r: (String, Option<Command>))
    ensures
        r.0@ == Seq::<char>::empty(),
        r.1 == (if command@.len() == 0 {
            None
        } else {
            Some(parse_command(command@))
        }),
{
    let line = command.as_str();
    let n = line.unicode_len();
    if n != 0 {
        let found = if n == 1 && line.get_char(0) == ':' {
            Command::Nop
        } else if n == 2 && line.get_char(0) == 'p' && line.get_char(1) == 's' {
            Command::Ps
        } else {
            Command::NotFound
        };
        proof {
            if n == 1 && command@[0] == ':' {
                assert(command@ =~= seq![':']);
            }
            if n == 2 && command@[0] == 'p' && command@[1] == 's' {
                assert(command@ =~= seq!['p', 's']);
            }
        }
        clear_string(&mut command);
        (command, Some(found))
    } else {
        (command, None)
    }
}

/// The text that `command` writes to the console; `tasks` are the task
/// names by task id.
pub fn output(command: Command, tasks: &Vec<String>) -> (r: String)
    ensures
        r@ == command_output(command, tasks.deep_view()),
{
    match command {
        Command::Nop => String::new(),
        Command::Ps => ps::run(tasks),
        Command::NotFound => {
            let mut s = String::new();
            push_str(&mut s, "\r\n");
            push_str(&mut s, "command not found");
            s
        },
    }
}

/// Law: a line is the no-op command exactly when it is the one character
/// `:`, the `ps` command exactly when it is the two characters `p`, `s`, and
/// every other line is not found; in particular every one-character line
/// but `:` and every line of three or more characters is not found.
pub proof fn lemma_parse_command(line: Seq<char>)
    ensures
        (parse_command(line) == Command::Nop) <==> (line.len() == 1 && line[0] == ':'),
        (parse_command(line) == Command::Ps) <==> (line.len() == 2 && line[0] == 'p' && line[1]
            == 's'),
        (parse_command(line) == Command::NotFound) <==> !(line.len() == 1 && line[0] == ':')
            && !(line.len() == 2 && line[0] == 'p' && line[1] == 's'),
        line.len() == 1 && line[0] != ':' ==> parse_command(line) == Command::NotFound,
        line.len() >= 3 ==> parse_command(line) == Command::NotFound,
{
    if line.len() == 1 && line[0] == ':' {
        assert(line =~= seq![':']);
    }
    if line.len() == 2 && line[0] == 'p' && line[1] == 's' {
        assert(line =~= seq!['p', 's']);
    }
    if line == seq![':'] {
        assert(line.len() == 1 && line[0] == ':');
    }
    if line == seq!['p', 's'] {
        assert(line.len() == 2 && line[0] == 'p' && line[1] == 's');
    }
}

} // verus!
