//! The command line of a task.

use vstd::prelude::*;

use crate::executor::ExecutionEvent;
use crate::name_map::NameMap;
use crate::order::{ascending, copy_strings, texts};
use crate::shell::ShellInvocation;
use crate::task::Task;

verus! {

/// A process to be spawned.
#[derive(Debug)]
pub struct CommandLine {
    /// Executable to spawn.
    pub program: String,
    /// Its arguments.
    pub args: Vec<String>,
    /// The directory in which it is to run.
    pub cwd: String,
    /// The variables that are added to its environment.
    pub env: Vec<(String, String)>,
}

/// The names of the listed variables, in order.
pub open spec fn listed_names(env: Seq<(String, String)>) -> Seq<Seq<char>> {
    env.map_values(|e: (String, String)| e.0@)
}

/// `listed` holds the entries of `env`, in the order of their names.
pub open spec fn lists_env(listed: Seq<(String, String)>, env: Map<Seq<char>, Seq<char>>) -> bool {
    &&& ascending(listed_names(listed))
    &&& forall|k: Seq<char>| #[trigger] env.contains_key(k) <==> listed_names(listed).contains(k)
    &&& forall|i: int| 0 <= i < listed.len() ==> env[(#[trigger] listed[i]).0@] == listed[i].1@
}

fn list_env(env: &NameMap<String>) -> (r: Vec<(String, String)>)
    ensures
        lists_env(r@, env@.map_values(|s: String| s@)),
{
    let ghost m = env@.map_values(|s: String| s@);
    let keys = env.keys();
    let mut out: Vec<(String, String)> = Vec::new();
    let mut i: usize = 0;
    while i < env.len()
        invariant
            i <= env.names().len(),
            m == env@.map_values(|s: String| s@),
            listed_names(out@) == env.names().take(i as int),
            forall|j: int| 0 <= j < i ==> m[(#[trigger] out@[j]).0@] == out@[j].1@,
        decreases env.names().len() - i,
    {
        let (k, v) = env.entry_at(i);
        let ghost out0 = out@;
        out.push((k.clone(), v.clone()));
        proof {
            assert(listed_names(out@) =~= listed_names(out0).push(k@));
            assert(listed_names(out@) =~= env.names().take(i as int + 1));
            assert forall|j: int| 0 <= j < i + 1 implies m[(#[trigger] out@[j]).0@] == out@[j].1@ by {
                if j < i {
                    assert(out@[j] == out0[j]);
                }
            }
        }
        i = i + 1;
    }
    proof {
        assert(env.names().take(env.names().len() as int) =~= env.names());
        assert(texts(keys@) == env.names());
        assert(listed_names(out@).len() == out@.len());
    }
    out
}

/// The process that runs a task: the shell with its leading arguments, then
/// the command string, in the given directory and with the variables of the
/// task.
pub fn command_line(task: &Task, invocation: &ShellInvocation, cwd: &str) -> (c: CommandLine)
    ensures
        c.program@ == invocation@.program,
        texts(c.args@) == invocation@.args.push(task@.command),
        c.cwd@ == cwd@,
        lists_env(c.env@, task@.env),
{
    let mut args = copy_strings(invocation.args.as_slice());
    let ghost args0 = args@;
    args.push(task.command.clone());
    proof {
        assert(texts(args@) =~= texts(args0).push(task@.command));
    }
    CommandLine { program: invocation.program.clone(), args, cwd: cwd.to_owned(), env: list_env(&task.env) }
}

/// The exit code of a process that has ended: -1 if a signal ended it.
pub fn exit_code(code: Option<i32>) -> (r: i32)
    ensures
        r == match code {
            Some(c) => c,
            None => -1i32,
        },
{
    match code {
        Some(c) => c,
        None => -1,
    }
}

/// The stream that a line of output came from.
#[derive(Debug, Clone, Copy, PartialEq, Eq, Structural)]
pub enum Stream {
    /// Standard output.
    Stdout,
    /// Standard error.
    Stderr,
}

/// The event that tells of a line of output.
pub fn output_event(stream: Stream, task: &str, line: String) -> (e: ExecutionEvent)
    ensures
        match stream {
            Stream::Stdout => e matches ExecutionEvent::Stdout { task: t, line: l } && t@ == task@ && l == line,
            Stream::Stderr => e matches ExecutionEvent::Stderr { task: t, line: l } && t@ == task@ && l == line,
        },
{
    match stream {
        Stream::Stdout => ExecutionEvent::Stdout { task: task.to_owned(), line },
        Stream::Stderr => ExecutionEvent::Stderr { task: task.to_owned(), line },
    }
}

} // verus!
