//! A process table driven by `FORK`, `EXEC`, `EXIT`, `WAIT` and `STATUS`.

use vstd::prelude::*;
use std::collections::HashMap;
use crate::text::{append_chars, chars_lit, chars_of, is_text, owned, string_of};

verus! {

broadcast use vstd::std_specs::hash::group_hash_axioms;

/// The processes the shell knows: the last fork's parent and child, the
/// program each process runs, and each one's state.
#[derive(Debug)]
pub struct ShellDrivenEvents {
    pub parent_pid: i32,
    pub child_pid: i32,
    pub execution: HashMap<i32, String>,
    pub status: HashMap<i32, String>,
}

/// The process table as plain values.
pub struct EventsView {
    pub parent_pid: i32,
    pub child_pid: i32,
    pub execution: Map<i32, Seq<char>>,
    pub status: Map<i32, Seq<char>>,
}

impl View for ShellDrivenEvents {
    type V = EventsView;

    open spec fn view(&self) -> EventsView {
        EventsView {
            parent_pid: self.parent_pid,
            child_pid: self.child_pid,
            execution: self.execution@.map_values(|s: String| s@),
            status: self.status@.map_values(|s: String| s@),
        }
    }
}

/// The table of a new shell: process 0 runs the shell.
pub open spec fn events_start() -> EventsView {
    EventsView {
        parent_pid: 0,
        child_pid: 0,
        execution: Map::empty().insert(0i32, "shell"@),
        status: Map::empty().insert(0i32, "running"@),
    }
}

/// `FORK parent child`: the child runs the shell and is running.
pub open spec fn fork_spec(v: EventsView, parent_pid: i32, child_pid: i32) -> EventsView {
    EventsView {
        parent_pid,
        child_pid,
        execution: v.execution.insert(child_pid, "shell"@),
        status: v.status.insert(child_pid, "running"@),
    }
}

/// `EXEC pid program`: a known process now runs the program.
pub open spec fn exec_spec(v: EventsView, pid: i32, program: Seq<char>) -> EventsView {
    if v.execution.contains_key(pid) {
        EventsView { execution: v.execution.insert(pid, program), ..v }
    } else {
        v
    }
}

/// `EXIT pid code`: a known running process becomes a zombie.
pub open spec fn exit_spec(v: EventsView, pid: i32) -> EventsView {
    if v.execution.contains_key(pid) && v.status.contains_key(pid) && v.status[pid] == "running"@ {
        EventsView { status: v.status.insert(pid, "zombie"@), ..v }
    } else {
        v
    }
}

/// Whether `WAIT parent child` concerns the last fork, whose child has not
/// been reaped yet.
pub open spec fn wait_applies(v: EventsView, parent_pid: i32, child_pid: i32) -> bool {
    &&& v.parent_pid == parent_pid
    &&& v.child_pid == child_pid
    &&& !(v.status.contains_key(child_pid) && v.status[child_pid] == "reaped"@)
}

/// `WAIT parent child`: with an exit code, reaps the child and reports the
/// code; otherwise reports -1.
pub open spec fn wait_spec(v: EventsView, parent_pid: i32, child_pid: i32, exit_code: Option<i32>) -> (
    EventsView,
    i32,
) {
    if wait_applies(v, parent_pid, child_pid) {
        match exit_code {
            Some(code) => (EventsView { status: v.status.insert(child_pid, "reaped"@), ..v }, code),
            None => (v, -1i32),
        }
    } else {
        (v, -1i32)
    }
}

/// `STATUS pid`: `<state> prog=<program>`, `unknown prog=?` for an unknown
/// process, an error for a process with a state but no program.
pub open spec fn status_spec(v: EventsView, pid: i32) -> Result<Seq<char>, Seq<char>> {
    if v.status.contains_key(pid) {
        if v.execution.contains_key(pid) {
            Ok(v.status[pid] + " prog="@ + v.execution[pid])
        } else {
            Err("ERR: pid={pid} doesn't have program registry"@)
        }
    } else {
        Ok("unknown prog=?"@)
    }
}

impl ShellDrivenEvents {
    /// A table where process 0 runs the shell.
    pub fn new() -> (e: Self)
        ensures
            e@ == events_start(),
    {
        let mut execution: HashMap<i32, String> = HashMap::new();
        execution.insert(0, owned("shell"));
        let mut status: HashMap<i32, String> = HashMap::new();
        status.insert(0, owned("running"));
        let e = ShellDrivenEvents { parent_pid: 0, child_pid: 0, execution, status };
        assert(e@.execution =~= events_start().execution);
        assert(e@.status =~= events_start().status);
        e
    }

    /// `FORK parent child`.
    pub fn fork(&mut self, parent_pid: i32, child_pid: i32)
        ensures
            final(self)@ == fork_spec(old(self)@, parent_pid, child_pid),
    {
        self.parent_pid = parent_pid;
        self.child_pid = child_pid;
        self.execution.insert(child_pid, owned("shell"));
        self.status.insert(child_pid, owned("running"));
        assert(self@.execution =~= old(self)@.execution.insert(child_pid, "shell"@));
        assert(self@.status =~= old(self)@.status.insert(child_pid, "running"@));
    }

    /// `EXEC pid program`.
    pub fn exec(&mut self, pid: i32, program: &str)
        ensures
            final(self)@ == exec_spec(old(self)@, pid, program@),
    {
        if self.execution.contains_key(&pid) {
            self.execution.insert(pid, owned(program));
            assert(self@.execution =~= old(self)@.execution.insert(pid, program@));
        }
    }

    /// `EXIT pid code`: returns the code.
    pub fn exit(&mut self, pid: i32, code: i32) -> (r: i32)
        ensures
            r == code,
            final(self)@ == exit_spec(old(self)@, pid),
    {
        if self.execution.contains_key(&pid) {
            let running = match self.status.get(&pid) {
                Some(st) => {
                    let c = chars_of(st.as_str());
                    is_text(&c, "running")
                },
                None => false,
            };
            if running {
                self.status.insert(pid, owned("zombie"));
                assert(self@.status =~= old(self)@.status.insert(pid, "zombie"@));
            }
        }
        code
    }

    /// `WAIT parent child`, with the exit code of the last `EXIT`.
    pub fn wait(&mut self, parent_pid: i32, child_pid: i32, exit_code: Option<i32>) -> (r: Result<i32, &'static str>)
        ensures
            r == Ok::<i32, &'static str>(wait_spec(old(self)@, parent_pid, child_pid, exit_code).1),
            final(self)@ == wait_spec(old(self)@, parent_pid, child_pid, exit_code).0,
    {
        let reaped = match self.status.get(&child_pid) {
            Some(st) => {
                let c = chars_of(st.as_str());
                is_text(&c, "reaped")
            },
            None => false,
        };
        if self.parent_pid == parent_pid && self.child_pid == child_pid && !reaped {
            match exit_code {
                Some(code) => {
                    self.status.insert(child_pid, owned("reaped"));
                    assert(self@.status =~= old(self)@.status.insert(child_pid, "reaped"@));
                    Ok(code)
                },
                None => Ok(-1),
            }
        } else {
            Ok(-1)
        }
    }

    /// `STATUS pid`.
    pub fn status(&self, pid: i32) -> (r: Result<String, &'static str>)
        ensures
            match r {
                Ok(s) => status_spec(self@, pid) == Ok::<Seq<char>, Seq<char>>(s@),
                Err(e) => status_spec(self@, pid) == Err::<Seq<char>, Seq<char>>(e@),
            },
    {
        match self.status.get(&pid) {
            Some(st) => match self.execution.get(&pid) {
                Some(prog) => {
                    let mut out = chars_of(st.as_str());
                    append_chars(&mut out, &chars_lit(" prog="));
                    append_chars(&mut out, &chars_of(prog.as_str()));
                    Ok(string_of(&out))
                },
                None => Err("ERR: pid={pid} doesn't have program registry"),
            },
            None => Ok(owned("unknown prog=?")),
        }
    }
}

/// The process table is consistent: every process has both a program and a
/// state, the state is running, zombie or reaped, and the last forked child
/// is known.
pub open spec fn table_ok(v: EventsView) -> bool {
    &&& v.status.dom() == v.execution.dom()
    &&& v.execution.contains_key(v.child_pid)
    &&& forall|pid: i32|
        #[trigger] v.status.contains_key(pid) ==> (v.status[pid] == "running"@ || v.status[pid]
            == "zombie"@ || v.status[pid] == "reaped"@)
}

/// A new shell's table is consistent.
pub proof fn law_start_table_ok()
    ensures
        table_ok(events_start()),
{
    let v = events_start();
    assert(v.status.dom() =~= v.execution.dom());
}

/// Every command keeps the table consistent.
pub proof fn law_commands_keep_table_ok(
    v: EventsView,
    parent_pid: i32,
    child_pid: i32,
    pid: i32,
    program: Seq<char>,
    exit_code: Option<i32>,
)
    requires
        table_ok(v),
    ensures
        table_ok(fork_spec(v, parent_pid, child_pid)),
        table_ok(exec_spec(v, pid, program)),
        table_ok(exit_spec(v, pid)),
        table_ok(wait_spec(v, parent_pid, child_pid, exit_code).0),
{
    assert(fork_spec(v, parent_pid, child_pid).status.dom() =~= fork_spec(v, parent_pid, child_pid).execution.dom());
    assert(exec_spec(v, pid, program).status.dom() =~= exec_spec(v, pid, program).execution.dom());
    assert(exit_spec(v, pid).status.dom() =~= exit_spec(v, pid).execution.dom());
    let w = wait_spec(v, parent_pid, child_pid, exit_code).0;
    assert(w.status.dom() =~= w.execution.dom());
}

/// In a consistent table, `STATUS` never fails: a process has a program
/// whenever it has a state.
pub proof fn law_status_never_fails(v: EventsView, pid: i32)
    requires
        table_ok(v),
    ensures
        status_spec(v, pid) is Ok,
{
    if v.status.contains_key(pid) {
        assert(v.status.dom().contains(pid));
    }
}

/// A child is reaped once: after a `WAIT` that reaped it, waiting for it
/// again reports -1 and changes nothing.
pub proof fn law_child_is_reaped_once(v: EventsView, parent_pid: i32, child_pid: i32, code: i32, again: Option<i32>)
    requires
        wait_applies(v, parent_pid, child_pid),
    ensures
        ({
            let (w, r) = wait_spec(v, parent_pid, child_pid, Some(code));
            &&& r == code
            &&& wait_spec(w, parent_pid, child_pid, again) == (w, -1i32)
        }),
{
}

/// `EXIT` turns a running known process into a zombie, and `STATUS` then
/// says so.
pub proof fn law_exit_makes_zombie(v: EventsView, pid: i32)
    requires
        table_ok(v),
        v.execution.contains_key(pid),
        v.status[pid] == "running"@,
    ensures
        status_spec(exit_spec(v, pid), pid) == Ok::<Seq<char>, Seq<char>>(
            "zombie"@ + " prog="@ + v.execution[pid],
        ),
{
    assert(v.status.dom().contains(pid));
}

} // verus!
