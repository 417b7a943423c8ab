use lib::builtin::ps;
use lib::builtin::{output, run_command, Command};
use lib::console::{Console, ConsoleAction, ConsoleEvent, CARRIAGE_RETURN};

fn drain(c: &mut Console) -> String {
    let mut out = String::new();
    loop {
        match c.step(ConsoleEvent::Idle { writeable: true }) {
            ConsoleAction::Write(v) => out.push(char::from_u32(v).unwrap()),
            ConsoleAction::Yield => return out,
            other => panic!("unexpected {:?}", other),
        }
    }
}

fn type_line(c: &mut Console, line: &str) -> ConsoleAction {
    for ch in line.chars() {
        assert_eq!(c.step(ConsoleEvent::Received(ch as u32)), ConsoleAction::Continue);
    }
    c.step(ConsoleEvent::Received(CARRIAGE_RETURN))
}

#[test]
fn run_command_parses_lines() {
    assert_eq!(run_command(String::from("ps")), (String::new(), Some(Command::Ps)));
    assert_eq!(run_command(String::from(":")), (String::new(), Some(Command::Nop)));
    assert_eq!(run_command(String::from("ls")), (String::new(), Some(Command::NotFound)));
    assert_eq!(run_command(String::from("ps ")), (String::new(), Some(Command::NotFound)));
    assert_eq!(run_command(String::new()), (String::new(), None));
}

#[test]
fn run_command_clears_the_callers_buffer() {
    let mut line = String::with_capacity(64);
    line.push_str("ps");
    let (cleared, command) = run_command(line);
    assert_eq!(command, Some(Command::Ps));
    assert!(cleared.is_empty());
    assert!(cleared.capacity() >= 64);
}

#[test]
fn command_texts() {
    let tasks = vec![String::from("kernel"), String::from("console")];
    assert_eq!(output(Command::NotFound, &tasks), "\r\ncommand not found");
    assert_eq!(output(Command::Nop, &tasks), "");
    assert_eq!(output(Command::Ps, &tasks), "\r\nPID CMD\r\n  0 kernel\r\n  1 console");
}

#[test]
fn ps_numbers_in_decimal() {
    let tasks: Vec<String> = (0..12).map(|i| format!("t{}", i)).collect();
    let text = ps::run(&tasks);
    assert!(text.starts_with("\r\nPID CMD\r\n  0 t0\r\n  1 t1"));
    assert!(text.ends_with("\r\n  9 t9\r\n  10 t10\r\n  11 t11"));
    assert_eq!(ps::run(&vec![]), "\r\nPID CMD");
}

#[test]
fn console_starts_with_prompt() {
    let mut c = Console::new();
    assert_eq!(c.step(ConsoleEvent::Idle { writeable: false }), ConsoleAction::Yield);
    assert_eq!(c.step(ConsoleEvent::Idle { writeable: true }), ConsoleAction::Write('>' as u32));
    assert_eq!(c.step(ConsoleEvent::Idle { writeable: true }), ConsoleAction::Write(' ' as u32));
    assert_eq!(c.step(ConsoleEvent::Idle { writeable: true }), ConsoleAction::Yield);
}

#[test]
fn typed_line_runs_and_echoes() {
    let mut c = Console::new();
    assert_eq!(drain(&mut c), "> ");
    assert_eq!(type_line(&mut c, "ps"), ConsoleAction::Run(Command::Ps));
    assert_eq!(drain(&mut c), "ps\r\n> ");
    assert_eq!(type_line(&mut c, "hello"), ConsoleAction::Run(Command::NotFound));
    assert_eq!(type_line(&mut c, ":"), ConsoleAction::Run(Command::Nop));
    assert_eq!(drain(&mut c), "hello\r\n> :\r\n> ");
}

#[test]
fn empty_line_runs_nothing() {
    let mut c = Console::new();
    assert_eq!(type_line(&mut c, ""), ConsoleAction::Continue);
    assert_eq!(drain(&mut c), "> \r\n> ");
}

#[test]
fn non_ascii_characters_are_echoed() {
    let mut c = Console::new();
    drain(&mut c);
    assert_eq!(type_line(&mut c, "pé"), ConsoleAction::Run(Command::NotFound));
    assert_eq!(drain(&mut c), "pé\r\n> ");
}
