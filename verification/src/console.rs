//! What is printed.

use vstd::prelude::*;

use crate::dag::Dag;
use crate::executor::{EventView, ExecutionEvent, OutcomeView, RunReport, TaskStatus};
use crate::graph::{all_deps, build_order};
use crate::order::{same_text, texts};
use crate::text::{characters, decimal, decimal_text, join, joined, signed_decimal, signed_decimal_text};

verus! {

/// The code by which a terminal is told a color, if the color is known.
pub open spec fn color_code(color: Seq<char>) -> Option<Seq<char>> {
    if color == "red"@ {
        Some("31"@)
    } else if color == "green"@ {
        Some("32"@)
    } else if color == "yellow"@ {
        Some("33"@)
    } else if color == "cyan"@ {
        Some("36"@)
    } else if color == "magenta"@ {
        Some("35"@)
    } else {
        None
    }
}

/// A text between the codes that switch a color on and off; the text itself
/// where colors are off or the color is not known.
pub open spec fn colored(enabled: bool, color: Seq<char>, text: Seq<char>) -> Seq<char> {
    match color_code(color) {
        Some(code) if enabled => "\x1b["@ + code + "m"@ + text + "\x1b[0m"@,
        _ => text,
    }
}

/// Colors a text.
pub fn colorize(enabled: bool, color: &str, text: &str) -> (r: String)
    ensures
        r@ == colored(enabled, color@, text@),
{
    if !enabled {
        return text.to_owned();
    }
    let code = if same_text(color, "red") {
        "31"
    } else if same_text(color, "green") {
        "32"
    } else if same_text(color, "yellow") {
        "33"
    } else if same_text(color, "cyan") {
        "36"
    } else if same_text(color, "magenta") {
        "35"
    } else {
        return text.to_owned();
    };
    let mut s = "\x1b[".to_owned();
    s.append(code);
    s.append("m");
    s.append(text);
    s.append("\x1b[0m");
    s
}

/// The first characters of a text, at most `n` of them.
pub open spec fn first_characters(s: Seq<char>, n: int) -> Seq<char> {
    if s.len() <= n {
        s
    } else {
        s.take(n)
    }
}

/// The line that tells of an event; none for the output of a task in quiet
/// mode. `seconds` is the duration of a finished task, as it is to be shown.
pub open spec fn event_line(event: EventView, seconds: Seq<char>, color: bool, quiet: bool) -> Option<Seq<char>> {
    match event {
        EventView::Started { task } => Some(colored(color, "cyan"@, "[RUNNING]"@) + " "@ + task),
        EventView::Cached { task, key } => Some(
            colored(color, "yellow"@, "[CACHED ]"@) + " "@ + task + "  (key="@ + first_characters(key, 12) + "…)"@,
        ),
        EventView::Finished { task, duration } => Some(
            colored(color, "green"@, "[OK     ]"@) + " "@ + task + "  ("@ + seconds + "s)"@,
        ),
        EventView::Failed { task, exit_code, message } => Some(
            colored(color, "red"@, "[FAILED ]"@) + " "@ + task + exit_note(exit_code) + "  "@ + message,
        ),
        EventView::Skipped { task, upstream } => Some(
            colored(color, "magenta"@, "[SKIPPED]"@) + " "@ + task + "  (upstream `"@ + upstream + "` failed)"@,
        ),
        EventView::Stdout { task, line } => if quiet {
            None
        } else {
            Some("    "@ + task + " | "@ + line)
        },
        EventView::Stderr { task, line } => if quiet {
            None
        } else {
            Some("    "@ + task + " ! "@ + line)
        },
    }
}

/// The note of an exit code, if there is one.
pub open spec fn exit_note(exit_code: Option<i32>) -> Seq<char> {
    match exit_code {
        Some(c) => " (exit="@ + signed_decimal(c as int) + ")"@,
        None => Seq::empty(),
    }
}

fn tagged(color: bool, hue: &str, tag: &str, task: &str) -> (r: String)
    ensures
        r@ == colored(color, hue@, tag@) + " "@ + task@,
{
    let mut s = colorize(color, hue, tag);
    s.append(" ");
    s.append(task);
    s
}

/// The key as far as it is shown.
fn shortened(key: &str) -> (r: String)
    ensures
        r@ == first_characters(key@, 12),
{
    let n = characters(key).len();
    if n <= 12 {
        key.to_owned()
    } else {
        let s = key.substring_char(0, 12);
        proof {
            assert(key@.subrange(0, 12) =~= key@.take(12));
        }
        s.to_owned()
    }
}

/// The line to print for an event, if any.
pub fn render_event(event: &ExecutionEvent, seconds: &str, color: bool, quiet: bool) -> (r: Option<String>)
    ensures
        match r {
            Some(line) => event_line(event@, seconds@, color, quiet) == Some(line@),
            None => event_line(event@, seconds@, color, quiet) is None,
        },
{
    match event {
        ExecutionEvent::Started { task } => Some(tagged(color, "cyan", "[RUNNING]", task.as_str())),
        ExecutionEvent::Cached { task, key } => {
            let mut s = tagged(color, "yellow", "[CACHED ]", task.as_str());
            s.append("  (key=");
            s.append(shortened(key.as_str()).as_str());
            s.append("…)");
            Some(s)
        },
        ExecutionEvent::Finished { task, duration: _ } => {
            let mut s = tagged(color, "green", "[OK     ]", task.as_str());
            s.append("  (");
            s.append(seconds);
            s.append("s)");
            Some(s)
        },
        ExecutionEvent::Failed { task, exit_code, message } => {
            let mut s = tagged(color, "red", "[FAILED ]", task.as_str());
            let ghost head = s@;
            match exit_code {
                Some(c) => {
                    s.append(" (exit=");
                    s.append(signed_decimal_text(*c).as_str());
                    s.append(")");
                },
                None => {},
            }
            proof {
                assert(s@ =~= head + exit_note(*exit_code));
            }
            s.append("  ");
            s.append(message.as_str());
            Some(s)
        },
        ExecutionEvent::Skipped { task, upstream } => {
            let mut s = tagged(color, "magenta", "[SKIPPED]", task.as_str());
            s.append("  (upstream `");
            s.append(upstream.as_str());
            s.append("` failed)");
            Some(s)
        },
        ExecutionEvent::Stdout { task, line } => {
            if quiet {
                return None;
            }
            let mut s = "    ".to_owned();
            s.append(task.as_str());
            s.append(" | ");
            s.append(line.as_str());
            Some(s)
        },
        ExecutionEvent::Stderr { task, line } => {
            if quiet {
                return None;
            }
            let mut s = "    ".to_owned();
            s.append(task.as_str());
            s.append(" ! ");
            s.append(line.as_str());
            Some(s)
        },
    }
}

/// In quiet mode the output of the tasks is not shown, and nothing else changes.
pub proof fn quiet_hides_output_only(event: EventView, seconds: Seq<char>, color: bool)
    ensures
        (event is Stdout || event is Stderr) ==> event_line(event, seconds, color, true) is None,
        !(event is Stdout || event is Stderr) ==> {
            &&& event_line(event, seconds, color, true) is Some
            &&& event_line(event, seconds, color, true) == event_line(event, seconds, color, false)
        },
{
}

/// How many tasks ended with a status.
pub open spec fn tally(outcomes: Seq<OutcomeView>, status: TaskStatus) -> nat
    decreases outcomes.len(),
{
    if outcomes.len() == 0 {
        0
    } else {
        tally(outcomes.drop_last(), status) + if outcomes.last().status == status {
            1nat
        } else {
            0
        }
    }
}

fn count_status(report: &RunReport, status: TaskStatus) -> (n: usize)
    ensures
        n == tally(report@, status),
{
    let mut n: usize = 0;
    let mut i: usize = 0;
    while i < report.outcomes.len()
        invariant
            i <= report.outcomes@.len(),
            n == tally(report@.take(i as int), status),
            n <= i,
        decreases report.outcomes@.len() - i,
    {
        proof {
            let more = report@.take(i as int + 1);
            assert(more.drop_last() =~= report@.take(i as int));
            assert(more.last() == report.outcomes@[i as int]@);
        }
        if report.outcomes[i].status == status {
            n = n + 1;
        }
        i = i + 1;
    }
    proof {
        assert(report@.take(report@.len() as int) =~= report@);
    }
    n
}

/// Every task is counted once.
pub proof fn tallies_add_up(outcomes: Seq<OutcomeView>)
    ensures
        tally(outcomes, TaskStatus::Success) + tally(outcomes, TaskStatus::Cached) + tally(outcomes, TaskStatus::Failed)
            + tally(outcomes, TaskStatus::Skipped) == outcomes.len(),
    decreases outcomes.len(),
{
    if outcomes.len() > 0 {
        tallies_add_up(outcomes.drop_last());
    }
}

/// The line that sums up a run: how many tasks ended in which way.
pub fn summary(report: &RunReport) -> (r: String)
    ensures
        r@ == "summary: "@ + decimal(tally(report@, TaskStatus::Success)) + " ok, "@ + decimal(
            tally(report@, TaskStatus::Cached),
        ) + " cached, "@ + decimal(tally(report@, TaskStatus::Failed)) + " failed, "@ + decimal(
            tally(report@, TaskStatus::Skipped),
        ) + " skipped"@,
{
    let mut s = "summary: ".to_owned();
    s.append(decimal_text(count_status(report, TaskStatus::Success) as u64).as_str());
    s.append(" ok, ");
    s.append(decimal_text(count_status(report, TaskStatus::Cached) as u64).as_str());
    s.append(" cached, ");
    s.append(decimal_text(count_status(report, TaskStatus::Failed) as u64).as_str());
    s.append(" failed, ");
    s.append(decimal_text(count_status(report, TaskStatus::Skipped) as u64).as_str());
    s.append(" skipped");
    s
}

/// The status with which the program ends after a run: one if any task failed
/// or was skipped, else zero.
pub fn exit_status(report: &RunReport) -> (r: u8)
    ensures
        r == if exists|i: int| 0 <= i < report@.len() && (#[trigger] report@[i]).status.blocks() {
            1u8
        } else {
            0u8
        },
{
    if report.had_failure() {
        1
    } else {
        0
    }
}

/// The line that lists a task.
pub open spec fn list_line(name: Seq<char>, deps: Seq<Seq<char>>) -> Seq<char> {
    if deps.len() == 0 {
        "  "@ + name
    } else {
        "  "@ + name + "  (deps: "@ + joined(deps, ", "@) + ")"@
    }
}

/// The first line of a listing.
pub open spec fn list_head(config: Seq<char>) -> Seq<char> {
    "tasks in `"@ + config + "` (topological order):"@
}

/// The lines that list the tasks of a configuration: a heading, then every task
/// with its dependencies, in build order.
pub fn list_tasks(config: &str, dag: &Dag) -> (lines: Vec<String>)
    ensures
        lines@.len() == build_order(dag@).len() + 1,
        lines@[0]@ == list_head(config@),
        forall|i: int|
            0 <= i < build_order(dag@).len() ==> (#[trigger] lines@[i + 1])@ == list_line(
                build_order(dag@)[i],
                all_deps(dag@, build_order(dag@)[i]),
            ),
{
    let mut head = "tasks in `".to_owned();
    head.append(config);
    head.append("` (topological order):");
    let mut lines: Vec<String> = Vec::new();
    lines.push(head);
    let order = dag.topo_order();
    let mut i: usize = 0;
    while i < order.len()
        invariant
            i <= order@.len(),
            texts(order@) == build_order(dag@),
            lines@.len() == i + 1,
            lines@[0]@ == list_head(config@),
            forall|j: int|
                0 <= j < i ==> (#[trigger] lines@[j + 1])@ == list_line(
                    build_order(dag@)[j],
                    all_deps(dag@, build_order(dag@)[j]),
                ),
        decreases order@.len() - i,
    {
        let name = order[i].as_str();
        let deps = dag.deps_of(name);
        let mut line = "  ".to_owned();
        line.append(name);
        proof {
            assert(texts(order@)[i as int] == name@);
            assert(texts(deps@).len() == deps@.len());
        }
        if deps.len() > 0 {
            line.append("  (deps: ");
            line.append(join(deps, ", ").as_str());
            line.append(")");
        }
        lines.push(line);
        i = i + 1;
    }
    lines
}

/// The line that tells that the cache was emptied.
pub fn cache_cleaned(dir: &str) -> (r: String)
    ensures
        r@ == "cache cleaned: "@ + dir@,
{
    let mut s = "cache cleaned: ".to_owned();
    s.append(dir);
    s
}

/// The line that tells what the cache holds.
pub fn cache_status(dir: &str, entries: u64, bytes: u64) -> (r: String)
    ensures
        r@ == "cache at "@ + dir@ + ": "@ + decimal(entries as nat) + " entries, "@ + decimal(bytes as nat)
            + " bytes"@,
{
    let mut s = "cache at ".to_owned();
    s.append(dir);
    s.append(": ");
    s.append(decimal_text(entries).as_str());
    s.append(" entries, ");
    s.append(decimal_text(bytes).as_str());
    s.append(" bytes");
    s
}

} // verus!
