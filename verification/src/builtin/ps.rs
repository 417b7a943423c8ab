//! The `ps` command: a table of task ids and names.

use vstd::prelude::*;
use vstd::string::*;
use crate::text::{decimal, push_decimal, push_str};

verus! {

/// The table's rows for the first `n` tasks.
pub open spec fn ps_rows(tasks: Seq<Seq<char>>, n: nat) -> Seq<char>
    decreases n,
{
    if n == 0 {
        Seq::empty()
    } else {
        ps_rows(tasks, (n - 1) as nat) + "\r\n"@ + "  "@ + decimal((n - 1) as nat) + " "@ + tasks[n
            - 1]
    }
}

/// The whole table: a heading line, then one line per task with its id
/// and name.
pub open spec fn ps_report(tasks: Seq<Seq<char>>) -> Seq<char> {
    "\r\n"@ + "PID CMD"@ + ps_rows(tasks, tasks.len())
}

/// Lists the tasks, whose names are given by task id.
pub fn run(tasks: &Vec<String>) -> (r: String)
    ensures
        r@ == ps_report(tasks.deep_view()),
{
    let ghost names = tasks.deep_view();
    let mut s = String::new();
    push_str(&mut s, "\r\n");
    push_str(&mut s, "PID CMD");
    let mut i: usize = 0;
    while i < tasks.len()
        invariant
            names == tasks.deep_view(),
            i <= tasks.len(),
            s@ == "\r\n"@ + "PID CMD"@ + ps_rows(names, i as nat),
        decreases tasks.len() - i,
    {
        push_str(&mut s, "\r\n");
        push_str(&mut s, "  ");
        push_decimal(&mut s, i);
        push_str(&mut s, " ");
        push_str(&mut s, tasks[i].as_str());
        proof {
            assert(names[i as int] == tasks@[i as int]@);
            assert(s@ =~= "\r\n"@ + "PID CMD"@ + ps_rows(names, (i + 1) as nat));
        }
        i = i + 1;
    }
    s
}

/// Law: the report of no task is the heading alone, and adding a task to
/// the end of the list adds exactly one row at the end of the report: its
/// id (its position), a space and its name. So every task has its row, in
/// id order, the last one included.
pub proof fn lemma_ps_report_rows(tasks: Seq<Seq<char>>, name: Seq<char>)
    ensures
        ps_report(Seq::empty()) == "\r\n"@ + "PID CMD"@,
        ps_report(tasks.push(name)) == ps_report(tasks) + "\r\n"@ + "  "@ + decimal(
            tasks.len(),
        ) + " "@ + name,
{
    let t2 = tasks.push(name);
    assert forall|n: nat| n <= tasks.len() implies #[trigger] ps_rows(t2, n) == ps_rows(tasks, n) by {
        lemma_ps_rows_prefix(tasks, t2, n);
    }
    assert(t2[tasks.len() as int] == name);
    assert(ps_rows(t2, tasks.len()) == ps_rows(tasks, tasks.len()));
    assert(((t2.len() - 1) as nat) == tasks.len());
    assert(ps_rows(t2, t2.len()) == ps_rows(tasks, tasks.len()) + "\r\n"@ + "  "@ + decimal(
        tasks.len(),
    ) + " "@ + name);
    assert(ps_report(t2) =~= ps_report(tasks) + "\r\n"@ + "  "@ + decimal(tasks.len()) + " "@
        + name);
    assert(ps_report(Seq::empty()) =~= "\r\n"@ + "PID CMD"@);
}

/// The rows of the first `n` tasks depend only on those tasks.
proof fn lemma_ps_rows_prefix(t1: Seq<Seq<char>>, t2: Seq<Seq<char>>, n: nat)
    requires
        n <= t1.len(),
        n <= t2.len(),
        forall|i: int| 0 <= i < n ==> t1[i] == t2[i],
    ensures
        ps_rows(t1, n) == ps_rows(t2, n),
    decreases n,
{
    if n > 0 {
        lemma_ps_rows_prefix(t1, t2, (n - 1) as nat);
        assert(t1[n - 1] == t2[n - 1]);
    }
}

} // verus!
