//! The UART console: echoes what is typed, collects it into a command
//! line, runs the line on carriage return, and drains its output queue one
//! character at a time when the UART can take one.

use vstd::prelude::*;
use vstd::string::*;
use std::collections::VecDeque;
use crate::builtin::{Command, parse_command, run_command};
use crate::text::{char_from_u32, is_char_code, push_char};

verus! {

/// The code of `'\r'`, which ends a command line.
pub const CARRIAGE_RETURN: u32 = 13;

/// What the console loop observed on the UART in one round.
#[derive(Debug, Clone, Copy, PartialEq, Eq, Structural)]
pub enum ConsoleEvent {
    /// A character code was read.
    Received(u32),
    /// Nothing could be read; whether a character can be written.
    Idle { writeable: bool },
}

/// What the console loop does next.
#[derive(Debug, Clone, Copy, PartialEq, Eq, Structural)]
pub enum ConsoleAction {
    /// Nothing beyond the console's own bookkeeping.
    Continue,
    /// Run the command (its output goes straight to the UART).
    Run(Command),
    /// Write this character code to the UART.
    Write(u32),
    /// Give the processor to the other task.
    Yield,
}

/// The console: characters waiting to be written, and the command line
/// typed so far.
pub struct Console {
    buffer: VecDeque<u32>,
    command: String,
}

/// The console as plain values.
pub struct ConsoleState {
    pub pending: Seq<u32>,
    pub line: Seq<char>,
}

/// The character codes of `s`.
pub open spec fn codes(s: Seq<char>) -> Seq<u32> {
    s.map_values(|c: char| c as u32)
}

/// The prompt shown when the console starts.
pub open spec fn first_prompt() -> Seq<u32> {
    codes("> "@)
}

/// The prompt shown after each command line.
pub open spec fn next_prompt() -> Seq<u32> {
    codes("\r\n> "@)
}

/// One round of the console loop: a received carriage return runs the
/// line (if any), clears it and queues the prompt; another received
/// character is echoed and added to the line; with nothing received, the
/// oldest queued character is written when the UART can take it, and
/// otherwise the task yields.
pub open spec fn console_step(s: ConsoleState, e: ConsoleEvent) -> (ConsoleState, ConsoleAction) {
    match e {
        ConsoleEvent::Received(v) => if v == CARRIAGE_RETURN {
            (
                ConsoleState { pending: s.pending + next_prompt(), line: Seq::empty() },
                if s.line.len() == 0 {
                    ConsoleAction::Continue
                } else {
                    ConsoleAction::Run(parse_command(s.line))
                },
            )
        } else {
            (
                ConsoleState { pending: s.pending.push(v), line: s.line.push(v as char) },
                ConsoleAction::Continue,
            )
        },
        ConsoleEvent::Idle { writeable } => if writeable && s.pending.len() > 0 {
            (
                ConsoleState { pending: s.pending.drop_first(), line: s.line },
                ConsoleAction::Write(s.pending[0]),
            )
        } else {
            (s, ConsoleAction::Yield)
        },
    }
}

/// The console loop can take `e`: a received character other than the
/// carriage return is a Unicode scalar value.
pub open spec fn acceptable(e: ConsoleEvent) -> bool {
    e matches ConsoleEvent::Received(v) ==> (v == CARRIAGE_RETURN || is_char_code(v))
}

/// Queues the character codes of `data`.
fn push_back_data(buffer: &mut VecDeque<u32>, data: &str)
    ensures
        final(buffer)@ == old(buffer)@ + codes(data@),
{
    let n = data.unicode_len();
    let mut i: usize = 0;
    while i < n
        invariant
            n == data@.len(),
            i <= n,
            buffer@ == old(buffer)@ + codes(data@.subrange(0, i as int)),
        decreases n - i,
    {
        let c = data.get_char(i);
        buffer.push_back(c as u32);
        i = i + 1;
        assert(codes(data@.subrange(0, i as int)) =~= codes(data@.subrange(0, i - 1 as int)).push(
            c as u32,
        ));
        assert(buffer@ =~= old(buffer)@ + codes(data@.subrange(0, i as int)));
    }
    assert(data@.subrange(0, n as int) =~= data@);
}

impl Console {
    /// The console's state.
    pub closed spec fn view(&self) -> ConsoleState {
        ConsoleState { pending: self.buffer@, line: self.command@ }
    }

    /// A console with an empty line and the first prompt queued.
    pub fn new() -> (c: Console)
        ensures
            c@ == (ConsoleState { pending: first_prompt(), line: Seq::empty() }),
    {
        let mut buffer: VecDeque<u32> = VecDeque::with_capacity(10);
        let command = String::new();
        push_back_data(&mut buffer, "> ");
        assert(buffer@ =~= first_prompt());
        Console { buffer, command }
    }

    /// Runs one round of the console loop on what was observed.
    pub fn step(&mut self, event: ConsoleEvent) -> (action: ConsoleAction)
        requires
            acceptable(event),
        ensures
            (final(self)@, action) == console_step(old(self)@, event),
    {
        match event {
            ConsoleEvent::Received(val) => {
                if val == CARRIAGE_RETURN {
                    let mut line = String::new();
                    std::mem::swap(&mut line, &mut self.command);
                    let (cleared, command) = run_command(line);
                    self.command = cleared;
                    push_back_data(&mut self.buffer, "\r\n> ");
                    match command {
                        Some(c) => ConsoleAction::Run(c),
                        None => ConsoleAction::Continue,
                    }
                } else {
                    self.buffer.push_back(val);
                    let c = char_from_u32(val).unwrap();
                    push_char(&mut self.command, c);
                    ConsoleAction::Continue
                }
            },
            ConsoleEvent::Idle { writeable } => {
                if writeable && self.buffer.len() != 0 {
                    let v = self.buffer.pop_front().unwrap();
                    assert(self.buffer@ =~= old(self).buffer@.drop_first());
                    ConsoleAction::Write(v)
                } else {
                    ConsoleAction::Yield
                }
            },
        }
    }
}

/// The console after the codes `typed` are received one by one.
pub open spec fn after_typing(s: ConsoleState, typed: Seq<u32>) -> ConsoleState
    decreases typed.len(),
{
    if typed.len() == 0 {
        s
    } else {
        console_step(after_typing(s, typed.drop_last()), ConsoleEvent::Received(typed.last())).0
    }
}

/// Typing characters other than the carriage return echoes them and adds
/// them to the line.
pub proof fn lemma_typing_echoes(s: ConsoleState, typed: Seq<u32>)
    requires
        forall|i: int| 0 <= i < typed.len() ==> #[trigger] typed[i] != CARRIAGE_RETURN,
    ensures
        after_typing(s, typed).pending == s.pending + typed,
        after_typing(s, typed).line == s.line + typed.map_values(|v: u32| v as char),
    decreases typed.len(),
{
    if typed.len() > 0 {
        let rest = typed.drop_last();
        assert forall|i: int| 0 <= i < rest.len() implies #[trigger] rest[i] != CARRIAGE_RETURN by {
            assert(rest[i] == typed[i]);
        }
        lemma_typing_echoes(s, rest);
        assert(typed.last() == typed[typed.len() - 1]);
        assert(s.pending + typed =~= (s.pending + rest).push(typed.last()));
        assert(s.line + typed.map_values(|v: u32| v as char) =~= (s.line + rest.map_values(
            |v: u32| v as char,
        )).push(typed.last() as char));
    } else {
        assert(s.pending + typed =~= s.pending);
        assert(s.line + typed.map_values(|v: u32| v as char) =~= s.line);
    }
}

/// Law: on an empty line, typing a command and a carriage return runs the
/// command that the typed characters name, echoes them, queues the prompt
/// and leaves the line empty.
pub proof fn lemma_typed_line_runs(s: ConsoleState, typed: Seq<u32>)
    requires
        s.line.len() == 0,
        typed.len() > 0,
        forall|i: int| 0 <= i < typed.len() ==> #[trigger] typed[i] != CARRIAGE_RETURN,
    ensures
        ({
            let (s2, action) = console_step(
                after_typing(s, typed),
                ConsoleEvent::Received(CARRIAGE_RETURN),
            );
            &&& action == ConsoleAction::Run(parse_command(typed.map_values(|v: u32| v as char)))
            &&& s2.line.len() == 0
            &&& s2.pending == s.pending + typed + next_prompt()
        }),
{
    lemma_typing_echoes(s, typed);
    assert(s.line + typed.map_values(|v: u32| v as char) =~= typed.map_values(|v: u32| v as char));
}

/// The console after a run of events, and the action taken for each event,
/// in order.
pub open spec fn console_run(s: ConsoleState, events: Seq<ConsoleEvent>) -> (
    ConsoleState,
    Seq<ConsoleAction>,
)
    decreases events.len(),
{
    if events.len() == 0 {
        (s, Seq::empty())
    } else {
        let (s1, actions) = console_run(s, events.drop_last());
        let (s2, a) = console_step(s1, events.last());
        (s2, actions.push(a))
    }
}

/// What the console queues for a received code: the prompt for a carriage
/// return, else the code itself.
pub open spec fn echo(v: u32) -> Seq<u32> {
    if v == CARRIAGE_RETURN {
        next_prompt()
    } else {
        seq![v]
    }
}

/// What the console queues for a run of events.
pub open spec fn echoes(events: Seq<ConsoleEvent>) -> Seq<u32>
    decreases events.len(),
{
    if events.len() == 0 {
        Seq::empty()
    } else {
        echoes(events.drop_last()) + match events.last() {
            ConsoleEvent::Received(v) => echo(v),
            ConsoleEvent::Idle { .. } => Seq::empty(),
        }
    }
}

/// The codes that a run of actions writes to the UART, in order.
pub open spec fn written(actions: Seq<ConsoleAction>) -> Seq<u32>
    decreases actions.len(),
{
    if actions.len() == 0 {
        Seq::empty()
    } else {
        written(actions.drop_last()) + match actions.last() {
            ConsoleAction::Write(v) => seq![v],
            _ => Seq::empty(),
        }
    }
}

/// Law: over any run, what the console has written followed by what it
/// still holds is what it held at first followed by its echo of every
/// received code (a prompt for each carriage return); it writes only when
/// the UART can take a character, and takes one action per event.
pub proof fn lemma_run_echoes(s: ConsoleState, events: Seq<ConsoleEvent>)
    ensures
        ({
            let (s2, actions) = console_run(s, events);
            &&& actions.len() == events.len()
            &&& written(actions) + s2.pending == s.pending + echoes(events)
            &&& forall|i: int|
                0 <= i < actions.len() && #[trigger] actions[i] is Write ==> events[i]
                    == ConsoleEvent::Idle { writeable: true }
        }),
    decreases events.len(),
{
    if events.len() > 0 {
        let rest = events.drop_last();
        lemma_run_echoes(s, rest);
        let (s1, acts1) = console_run(s, rest);
        let (s2, actions) = console_run(s, events);
        let e = events.last();
        let a = console_step(s1, e).1;
        assert(actions == acts1.push(a));
        assert(actions.drop_last() == acts1);
        match e {
            ConsoleEvent::Received(v) => {
                assert(written(actions) == written(acts1));
                if v == CARRIAGE_RETURN {
                    assert(written(actions) + s2.pending =~= written(acts1) + s1.pending
                        + next_prompt());
                } else {
                    assert(written(actions) + s2.pending =~= (written(acts1) + s1.pending).push(v));
                }
                assert(s.pending + echoes(events) =~= s.pending + echoes(rest) + echo(v));
            },
            ConsoleEvent::Idle { writeable } => {
                if writeable && s1.pending.len() > 0 {
                    assert(written(actions) == written(acts1) + seq![s1.pending[0]]);
                    assert(written(actions) + s2.pending =~= written(acts1) + s1.pending);
                } else {
                    assert(written(actions) == written(acts1));
                }
                assert(echoes(events) =~= echoes(rest));
            },
        }
        assert forall|i: int| 0 <= i < actions.len() && #[trigger] actions[i] is Write implies events[i]
            == ConsoleEvent::Idle { writeable: true } by {
            if i < acts1.len() {
                assert(actions[i] == acts1[i]);
                assert(events[i] == rest[i]);
            }
        }
    }
}

/// The command line after a run of events that starts from `line`.
pub open spec fn line_after(line: Seq<char>, events: Seq<ConsoleEvent>) -> Seq<char>
    decreases events.len(),
{
    if events.len() == 0 {
        line
    } else {
        let l = line_after(line, events.drop_last());
        match events.last() {
            ConsoleEvent::Received(v) => if v == CARRIAGE_RETURN {
                Seq::empty()
            } else {
                l.push(v as char)
            },
            ConsoleEvent::Idle { .. } => l,
        }
    }
}

/// What a carriage return does with the line typed so far.
pub open spec fn line_action(line: Seq<char>) -> ConsoleAction {
    if line.len() == 0 {
        ConsoleAction::Continue
    } else {
        ConsoleAction::Run(parse_command(line))
    }
}

/// Law: over any run, each carriage return runs exactly the command named
/// by the characters received since the previous one (or since the start),
/// after which the line starts empty; other received characters run
/// nothing.
pub proof fn lemma_run_commands(s: ConsoleState, events: Seq<ConsoleEvent>)
    ensures
        ({
            let (s2, actions) = console_run(s, events);
            &&& actions.len() == events.len()
            &&& s2.line == line_after(s.line, events)
            &&& forall|i: int|
                0 <= i < events.len() && #[trigger] events[i] == ConsoleEvent::Received(
                    CARRIAGE_RETURN,
                ) ==> actions[i] == line_action(line_after(s.line, events.take(i)))
            &&& forall|i: int|
                0 <= i < events.len() && (#[trigger] events[i] matches ConsoleEvent::Received(v)
                    && v != CARRIAGE_RETURN) ==> actions[i] == ConsoleAction::Continue
        }),
    decreases events.len(),
{
    if events.len() > 0 {
        let rest = events.drop_last();
        lemma_run_commands(s, rest);
        let (s1, acts1) = console_run(s, rest);
        let (s2, actions) = console_run(s, events);
        let n = events.len() - 1;
        assert(events.take(n) =~= rest);
        assert forall|i: int|
            0 <= i < events.len() && #[trigger] events[i] == ConsoleEvent::Received(
                CARRIAGE_RETURN,
            ) implies actions[i] == line_action(line_after(s.line, events.take(i))) by {
            if i < n {
                assert(events[i] == rest[i]);
                assert(rest.take(i) =~= events.take(i));
            }
        }
        assert forall|i: int|
            0 <= i < events.len() && (#[trigger] events[i] matches ConsoleEvent::Received(v) && v
                != CARRIAGE_RETURN) implies actions[i] == ConsoleAction::Continue by {
            if i < n {
                assert(events[i] == rest[i]);
            }
        }
    }
}

/// `n` rounds in which nothing is received and the UART can take a
/// character.
pub open spec fn writeable_rounds(n: nat) -> Seq<ConsoleEvent> {
    Seq::new(n, |i: int| ConsoleEvent::Idle { writeable: true })
}

/// Law: whatever is queued, and however much, as many rounds in which the
/// UART can take a character write it all, in order, one character per
/// round, and leave the queue empty and the line as it was.
pub proof fn lemma_queue_drains(s: ConsoleState)
    ensures
        ({
            let (s2, actions) = console_run(s, writeable_rounds(s.pending.len()));
            &&& actions.len() == s.pending.len()
            &&& forall|i: int|
                0 <= i < actions.len() ==> #[trigger] actions[i] == ConsoleAction::Write(
                    s.pending[i],
                )
            &&& s2.pending.len() == 0
            &&& s2.line == s.line
        }),
{
    lemma_queue_drains_prefix(s, s.pending.len());
    assert(s.pending.subrange(s.pending.len() as int, s.pending.len() as int).len() == 0);
}

/// After `k` writeable rounds, the first `k` queued codes have been written
/// in order and the rest is still queued.
proof fn lemma_queue_drains_prefix(s: ConsoleState, k: nat)
    requires
        k <= s.pending.len(),
    ensures
        ({
            let (s2, actions) = console_run(s, writeable_rounds(k));
            &&& actions.len() == k
            &&& forall|i: int|
                0 <= i < k ==> #[trigger] actions[i] == ConsoleAction::Write(s.pending[i])
            &&& s2.pending == s.pending.subrange(k as int, s.pending.len() as int)
            &&& s2.line == s.line
        }),
    decreases k,
{
    if k > 0 {
        lemma_queue_drains_prefix(s, (k - 1) as nat);
        let ev = writeable_rounds(k);
        assert(ev.drop_last() =~= writeable_rounds((k - 1) as nat));
        let (s1, acts1) = console_run(s, writeable_rounds((k - 1) as nat));
        assert(s1.pending.len() > 0);
        assert(s1.pending[0] == s.pending[k - 1]);
        let (s2, actions) = console_run(s, ev);
        assert(s2.pending =~= s.pending.subrange(k as int, s.pending.len() as int));
        assert forall|i: int| 0 <= i < k implies #[trigger] actions[i] == ConsoleAction::Write(
            s.pending[i],
        ) by {
            if i < k - 1 {
                assert(actions[i] == acts1[i]);
            }
        }
    } else {
        assert(s.pending.subrange(0, s.pending.len() as int) =~= s.pending);
    }
}

} // verus!
