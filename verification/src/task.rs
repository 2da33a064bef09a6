//! The task model.

use vstd::prelude::*;

use crate::name_map::NameMap;
use crate::order::{copy_strings, texts};

verus! {

/// A single build task.
///
/// `inputs` and `outputs` are glob patterns, resolved relative to the project
/// root when the task is run. `env` is walked in the order of its keys.
#[derive(Debug, PartialEq, Eq)]
pub struct Task {
    /// Unique task name (the table key in `[tasks.<name>]`).
    pub name: String,
    /// Shell command to execute.
    pub command: String,
    /// Names of the tasks that it depends on.
    pub deps: Vec<String>,
    /// Glob patterns selecting files that are inputs to the task.
    pub inputs: Vec<String>,
    /// Glob patterns selecting files produced by the task.
    pub outputs: Vec<String>,
    /// Extra environment variables set when running the task.
    pub env: NameMap<String>,
}

/// What a [`Task`] holds, as plain texts.
#[verifier::ext_equal]
pub struct TaskView {
    pub name: Seq<char>,
    pub command: Seq<char>,
    pub deps: Seq<Seq<char>>,
    pub inputs: Seq<Seq<char>>,
    pub outputs: Seq<Seq<char>>,
    pub env: Map<Seq<char>, Seq<char>>,
}

impl View for Task {
    type V = TaskView;

    open spec fn view(&self) -> TaskView {
        TaskView {
            name: self.name@,
            command: self.command@,
            deps: texts(self.deps@),
            inputs: texts(self.inputs@),
            outputs: texts(self.outputs@),
            env: self.env@.map_values(|s: String| s@),
        }
    }
}

impl Clone for Task {
    fn clone(&self) -> (t: Self)
        ensures
            t@ == self@,
    {
        Task {
            name: self.name.clone(),
            command: self.command.clone(),
            deps: copy_strings(self.deps.as_slice()),
            inputs: copy_strings(self.inputs.as_slice()),
            outputs: copy_strings(self.outputs.as_slice()),
            env: self.env.clone(),
        }
    }
}

/// A copy of a list of tasks.
pub fn copy_tasks(tasks: &[Task]) -> (r: Vec<Task>)
    ensures
        tasks_view(r@) == tasks_view(tasks@),
{
    let mut out: Vec<Task> = Vec::with_capacity(tasks.len());
    let mut i: usize = 0;
    while i < tasks.len()
        invariant
            i <= tasks@.len(),
            out@.len() == i,
            forall|j: int| 0 <= j < i ==> (#[trigger] out@[j])@ == tasks@[j]@,
        decreases tasks@.len() - i,
    {
        out.push(tasks[i].clone());
        i = i + 1;
    }
    proof {
        assert(tasks_view(out@) =~= tasks_view(tasks@));
    }
    out
}

/// What a sequence of tasks holds.
pub open spec fn tasks_view(tasks: Seq<Task>) -> Seq<TaskView> {
    tasks.map_values(|t: Task| t@)
}

} // verus!
