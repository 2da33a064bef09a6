//! What holds of the lines that are printed.

use vstd::prelude::*;

use crate::console::{
    colored, event_line, exit_note, first_characters, list_head, list_line, tally,
};
use crate::executor::{EventView, OutcomeView, TaskStatus};
use crate::text::{joined, signed_decimal};
use crate::text_laws::{joined_alone, joined_in_parts};

verus! {

/// Without color, and in an unknown one, a text is left as it is. In a known
/// color it stands between a code that switches the color on and one that
/// switches it off.
pub proof fn color_frames_a_text(color: Seq<char>, text: Seq<char>)
    ensures
        colored(false, color, text) == text,
        color == "red"@ ==> colored(true, color, text) == "\x1b[31m"@ + text + "\x1b[0m"@,
        color == "green"@ ==> colored(true, color, text) == "\x1b[32m"@ + text + "\x1b[0m"@,
        color == "yellow"@ ==> colored(true, color, text) == "\x1b[33m"@ + text + "\x1b[0m"@,
        color == "magenta"@ ==> colored(true, color, text) == "\x1b[35m"@ + text + "\x1b[0m"@,
        color == "cyan"@ ==> colored(true, color, text) == "\x1b[36m"@ + text + "\x1b[0m"@,
        color != "red"@ && color != "green"@ && color != "yellow"@ && color != "magenta"@ && color != "cyan"@
            ==> colored(true, color, text) == text,
{
    colors_differ();
    reveal_strlit("\x1b[");
    reveal_strlit("m");
    reveal_strlit("31");
    reveal_strlit("32");
    reveal_strlit("33");
    reveal_strlit("35");
    reveal_strlit("36");
    reveal_strlit("\x1b[31m");
    reveal_strlit("\x1b[32m");
    reveal_strlit("\x1b[33m");
    reveal_strlit("\x1b[35m");
    reveal_strlit("\x1b[36m");
    assert("\x1b["@ + "31"@ + "m"@ =~= "\x1b[31m"@);
    assert("\x1b["@ + "32"@ + "m"@ =~= "\x1b[32m"@);
    assert("\x1b["@ + "33"@ + "m"@ =~= "\x1b[33m"@);
    assert("\x1b["@ + "35"@ + "m"@ =~= "\x1b[35m"@);
    assert("\x1b["@ + "36"@ + "m"@ =~= "\x1b[36m"@);
}

proof fn colors_differ()
    ensures
        "red"@ != "green"@,
        "red"@ != "yellow"@,
        "red"@ != "magenta"@,
        "red"@ != "cyan"@,
        "green"@ != "yellow"@,
        "green"@ != "magenta"@,
        "green"@ != "cyan"@,
        "yellow"@ != "magenta"@,
        "yellow"@ != "cyan"@,
        "magenta"@ != "cyan"@,
{
    reveal_strlit("red");
    reveal_strlit("green");
    reveal_strlit("yellow");
    reveal_strlit("magenta");
    reveal_strlit("cyan");
    assert("red"@.len() == 3 && "green"@.len() == 5 && "yellow"@.len() == 6 && "magenta"@.len() == 7 && "cyan"@.len()
        == 4);
}

proof fn tags_have_nine()
    ensures
        "[RUNNING]"@.len() == 9,
        "[CACHED ]"@.len() == 9,
        "[OK     ]"@.len() == 9,
        "[FAILED ]"@.len() == 9,
        "[SKIPPED]"@.len() == 9,
        "[RUNNING]"@[1] == 'R',
        "[CACHED ]"@[1] == 'C',
        "[OK     ]"@[1] == 'O',
        "[FAILED ]"@[1] == 'F',
        "[SKIPPED]"@[1] == 'S',
{
    reveal_strlit("[RUNNING]");
    reveal_strlit("[CACHED ]");
    reveal_strlit("[OK     ]");
    reveal_strlit("[FAILED ]");
    reveal_strlit("[SKIPPED]");
}

proof fn split_tag(tag: Seq<char>, rest: Seq<char>)
    requires
        tag.len() == 9,
    ensures
        (tag + rest).take(9) == tag,
        (tag + rest).skip(9) == rest,
{
    assert((tag + rest).take(9) =~= tag);
    assert((tag + rest).skip(9) =~= rest);
}

/// What follows the tag in the line of an event.
proof fn after_tag(event: EventView, seconds: Seq<char>, color: bool, quiet: bool)
    ensures
        event matches EventView::Started { task } ==> event_line(event, seconds, color, quiet) == Some(
            colored(color, "cyan"@, "[RUNNING]"@) + (" "@ + task),
        ),
        event matches EventView::Cached { task, key } ==> event_line(event, seconds, color, quiet) == Some(
            colored(color, "yellow"@, "[CACHED ]"@) + (" "@ + task + "  (key="@ + key.take(
                if key.len() < 12 {
                    key.len() as int
                } else {
                    12
                },
            ) + "…)"@),
        ),
        event matches EventView::Finished { task, .. } ==> event_line(event, seconds, color, quiet) == Some(
            colored(color, "green"@, "[OK     ]"@) + (" "@ + task + "  ("@ + seconds + "s)"@),
        ),
        event matches EventView::Failed { task, exit_code: Some(c), message } ==> event_line(
            event,
            seconds,
            color,
            quiet,
        ) == Some(
            colored(color, "red"@, "[FAILED ]"@) + (" "@ + task + " (exit="@ + signed_decimal(c as int) + ")  "@
                + message),
        ),
        event matches EventView::Failed { task, exit_code: None, message } ==> event_line(
            event,
            seconds,
            color,
            quiet,
        ) == Some(colored(color, "red"@, "[FAILED ]"@) + (" "@ + task + "  "@ + message)),
        event matches EventView::Skipped { task, upstream } ==> event_line(event, seconds, color, quiet) == Some(
            colored(color, "magenta"@, "[SKIPPED]"@) + (" "@ + task + "  (upstream `"@ + upstream + "` failed)"@),
        ),
{
    match event {
        EventView::Started { task } => {
            assert(event_line(event, seconds, color, quiet)->0 =~= colored(color, "cyan"@, "[RUNNING]"@) + (" "@
                + task));
        },
        EventView::Cached { task, key } => {
            let n = if key.len() < 12 {
                key.len() as int
            } else {
                12
            };
            assert(first_characters(key, 12) =~= key.take(n));
            assert(event_line(event, seconds, color, quiet)->0 =~= colored(color, "yellow"@, "[CACHED ]"@) + (" "@
                + task + "  (key="@ + key.take(n) + "…)"@));
        },
        EventView::Finished { task, .. } => {
            assert(event_line(event, seconds, color, quiet)->0 =~= colored(color, "green"@, "[OK     ]"@) + (" "@
                + task + "  ("@ + seconds + "s)"@));
        },
        EventView::Failed { task, exit_code, message } => {
            match exit_code {
                Some(c) => {
                    reveal_strlit(")");
                    reveal_strlit("  ");
                    reveal_strlit(")  ");
                    assert(")"@ + "  "@ =~= ")  "@);
                    assert(event_line(event, seconds, color, quiet)->0 =~= colored(color, "red"@, "[FAILED ]"@) + (" "@
                        + task + " (exit="@ + signed_decimal(c as int) + (")"@ + "  "@) + message));
                },
                None => {
                    assert(exit_note(exit_code) =~= Seq::<char>::empty());
                    assert(event_line(event, seconds, color, quiet)->0 =~= colored(color, "red"@, "[FAILED ]"@) + (" "@
                        + task + "  "@ + message));
                },
            }
        },
        EventView::Skipped { task, upstream } => {
            assert(event_line(event, seconds, color, quiet)->0 =~= colored(color, "magenta"@, "[SKIPPED]"@) + (" "@
                + task + "  (upstream `"@ + upstream + "` failed)"@));
        },
        _ => {},
    }
}

/// The tag that begins the line of an event, printed without color, tells the
/// kind of the event, and each kind by a tag of its own.
pub proof fn tag_tells_the_kind(event: EventView, seconds: Seq<char>, quiet: bool)
    requires
        !(event is Stdout || event is Stderr),
    ensures
        event_line(event, seconds, false, quiet) matches Some(line) && line.len() >= 9 && {
            &&& line.take(9) == "[RUNNING]"@ <==> event is Started
            &&& line.take(9) == "[CACHED ]"@ <==> event is Cached
            &&& line.take(9) == "[OK     ]"@ <==> event is Finished
            &&& line.take(9) == "[FAILED ]"@ <==> event is Failed
            &&& line.take(9) == "[SKIPPED]"@ <==> event is Skipped
        },
{
    tags_have_nine();
    after_tag(event, seconds, false, quiet);
    color_frames_a_text("cyan"@, "[RUNNING]"@);
    color_frames_a_text("yellow"@, "[CACHED ]"@);
    color_frames_a_text("green"@, "[OK     ]"@);
    color_frames_a_text("red"@, "[FAILED ]"@);
    color_frames_a_text("magenta"@, "[SKIPPED]"@);
    let line = event_line(event, seconds, false, quiet)->0;
    match event {
        EventView::Started { task } => {
            split_tag("[RUNNING]"@, line.skip(9));
            assert(line.take(9) =~= "[RUNNING]"@);
        },
        EventView::Cached { task, key } => {
            assert(line.take(9) =~= "[CACHED ]"@);
        },
        EventView::Finished { task, .. } => {
            assert(line.take(9) =~= "[OK     ]"@);
        },
        EventView::Failed { task, exit_code, message } => {
            match exit_code {
                Some(c) => {
                    assert(line.take(9) =~= "[FAILED ]"@);
                },
                None => {
                    assert(line.take(9) =~= "[FAILED ]"@);
                },
            }
        },
        EventView::Skipped { task, upstream } => {
            assert(line.take(9) =~= "[SKIPPED]"@);
        },
        _ => {},
    }
}

/// Color changes nothing but the tag, which is put between two codes: the line
/// of an event with color is the line without it, with the first nine characters
/// in the color of the kind. The output of a task is never colored.
pub proof fn color_touches_only_the_tag(event: EventView, seconds: Seq<char>, quiet: bool)
    ensures
        ({
            let off = event_line(event, seconds, false, quiet);
            let on = event_line(event, seconds, true, quiet);
            &&& event is Stdout || event is Stderr ==> on == off
            &&& event is Started ==> on == Some("\x1b[36m"@ + off->0.take(9) + "\x1b[0m"@ + off->0.skip(9))
            &&& event is Cached ==> on == Some("\x1b[33m"@ + off->0.take(9) + "\x1b[0m"@ + off->0.skip(9))
            &&& event is Finished ==> on == Some("\x1b[32m"@ + off->0.take(9) + "\x1b[0m"@ + off->0.skip(9))
            &&& event is Failed ==> on == Some("\x1b[31m"@ + off->0.take(9) + "\x1b[0m"@ + off->0.skip(9))
            &&& event is Skipped ==> on == Some("\x1b[35m"@ + off->0.take(9) + "\x1b[0m"@ + off->0.skip(9))
        }),
{
    tags_have_nine();
    after_tag(event, seconds, false, quiet);
    after_tag(event, seconds, true, quiet);
    color_frames_a_text("cyan"@, "[RUNNING]"@);
    color_frames_a_text("yellow"@, "[CACHED ]"@);
    color_frames_a_text("green"@, "[OK     ]"@);
    color_frames_a_text("red"@, "[FAILED ]"@);
    color_frames_a_text("magenta"@, "[SKIPPED]"@);
    match event {
        EventView::Started { task } => {
            split_tag("[RUNNING]"@, " "@ + task);
        },
        EventView::Cached { task, key } => {
            let n = if key.len() < 12 {
                key.len() as int
            } else {
                12
            };
            split_tag("[CACHED ]"@, " "@ + task + "  (key="@ + key.take(n) + "…)"@);
        },
        EventView::Finished { task, .. } => {
            split_tag("[OK     ]"@, " "@ + task + "  ("@ + seconds + "s)"@);
        },
        EventView::Failed { task, exit_code, message } => {
            match exit_code {
                Some(c) => {
                    split_tag("[FAILED ]"@, " "@ + task + " (exit="@ + signed_decimal(c as int) + ")  "@ + message);
                },
                None => {
                    split_tag("[FAILED ]"@, " "@ + task + "  "@ + message);
                },
            }
        },
        EventView::Skipped { task, upstream } => {
            split_tag("[SKIPPED]"@, " "@ + task + "  (upstream `"@ + upstream + "` failed)"@);
        },
        _ => {},
    }
}

/// After the tag the line names the task, and then what there is to say of it:
/// the first twelve characters of the key of a cached result, the time that a
/// finished task took, the exit code of a failed one, if it has one, and the
/// message, or the dependency for which a task was skipped.
pub proof fn line_tells_the_event(event: EventView, seconds: Seq<char>, quiet: bool)
    ensures
        ({
            let line = event_line(event, seconds, false, quiet)->0;
            let said = line.skip(9);
            &&& event matches EventView::Started { task } ==> said == " "@ + task
            &&& event matches EventView::Cached { task, key } ==> said == " "@ + task + "  (key="@ + key.take(
                if key.len() < 12 {
                    key.len() as int
                } else {
                    12
                },
            ) + "…)"@
            &&& event matches EventView::Finished { task, .. } ==> said == " "@ + task + "  ("@ + seconds + "s)"@
            &&& event matches EventView::Failed { task, exit_code: Some(c), message } ==> said == " "@ + task
                + " (exit="@ + signed_decimal(c as int) + ")  "@ + message
            &&& event matches EventView::Failed { task, exit_code: None, message } ==> said == " "@ + task + "  "@
                + message
            &&& event matches EventView::Skipped { task, upstream } ==> said == " "@ + task + "  (upstream `"@
                + upstream + "` failed)"@
            &&& !quiet ==> (event matches EventView::Stdout { task, line: text } ==> line == "    "@ + task + " | "@ + text)
            &&& !quiet ==> (event matches EventView::Stderr { task, line: text } ==> line == "    "@ + task + " ! "@ + text)
        }),
{
    tags_have_nine();
    after_tag(event, seconds, false, quiet);
    color_frames_a_text("cyan"@, "[RUNNING]"@);
    color_frames_a_text("yellow"@, "[CACHED ]"@);
    color_frames_a_text("green"@, "[OK     ]"@);
    color_frames_a_text("red"@, "[FAILED ]"@);
    color_frames_a_text("magenta"@, "[SKIPPED]"@);
    match event {
        EventView::Started { task } => {
            split_tag("[RUNNING]"@, " "@ + task);
        },
        EventView::Cached { task, key } => {
            let n = if key.len() < 12 {
                key.len() as int
            } else {
                12
            };
            split_tag("[CACHED ]"@, " "@ + task + "  (key="@ + key.take(n) + "…)"@);
        },
        EventView::Finished { task, .. } => {
            split_tag("[OK     ]"@, " "@ + task + "  ("@ + seconds + "s)"@);
        },
        EventView::Failed { task, exit_code, message } => {
            match exit_code {
                Some(c) => {
                    split_tag("[FAILED ]"@, " "@ + task + " (exit="@ + signed_decimal(c as int) + ")  "@ + message);
                },
                None => {
                    split_tag("[FAILED ]"@, " "@ + task + "  "@ + message);
                },
            }
        },
        EventView::Skipped { task, upstream } => {
            split_tag("[SKIPPED]"@, " "@ + task + "  (upstream `"@ + upstream + "` failed)"@);
        },
        _ => {},
    }
}

/// The number counted for a status is the number of outcomes that have it; so
/// it is zero exactly where none has.
pub proof fn tally_counts_outcomes(outcomes: Seq<OutcomeView>, status: TaskStatus)
    ensures
        tally(outcomes, status) == outcomes.filter(|o: OutcomeView| o.status == status).len(),
        tally(outcomes, status) == 0 <==> forall|i: int|
            0 <= i < outcomes.len() ==> (#[trigger] outcomes[i]).status != status,
    decreases outcomes.len(),
{
    let pred = |o: OutcomeView| o.status == status;
    reveal(Seq::filter);
    if outcomes.len() > 0 {
        let init = outcomes.drop_last();
        tally_counts_outcomes(init, status);
        assert forall|i: int| 0 <= i < init.len() implies #[trigger] outcomes[i] == init[i] by {}
        assert(outcomes[outcomes.len() - 1] == outcomes.last());
        if tally(outcomes, status) == 0 {
            assert forall|i: int| 0 <= i < outcomes.len() implies (#[trigger] outcomes[i]).status != status by {
                if i < init.len() {
                    assert(outcomes[i] == init[i]);
                }
            }
        }
        if forall|i: int| 0 <= i < outcomes.len() ==> (#[trigger] outcomes[i]).status != status {
            assert forall|i: int| 0 <= i < init.len() implies (#[trigger] init[i]).status != status by {
                assert(outcomes[i] == init[i]);
            }
        }
    }
}

/// The line of a task without dependencies is its name; the first dependency
/// opens a list behind it, and every further one extends the list.
pub proof fn list_line_grows(name: Seq<char>, deps: Seq<Seq<char>>, d: Seq<char>)
    ensures
        list_line(name, Seq::empty()) == "  "@ + name,
        list_line(name, seq![d]) == "  "@ + name + "  (deps: "@ + d + ")"@,
        deps.len() > 0 ==> list_line(name, deps.push(d)) == list_line(name, deps).drop_last() + ", "@ + d + ")"@,
{
    joined_alone(d, ", "@);
    if deps.len() > 0 {
        reveal_strlit(")");
        assert(deps.push(d) =~= deps + seq![d]);
        joined_in_parts(deps, seq![d], ", "@);
        let line = list_line(name, deps);
        assert(line.drop_last() =~= "  "@ + name + "  (deps: "@ + joined(deps, ", "@));
        assert(list_line(name, deps.push(d)) =~= line.drop_last() + ", "@ + d + ")"@);
    }
}

proof fn part_of_joined(parts: Seq<Seq<char>>, sep: Seq<char>, k: int) -> (at: int)
    requires
        0 <= k < parts.len(),
    ensures
        0 <= at <= at + parts[k].len() <= joined(parts, sep).len(),
        joined(parts, sep).subrange(at, at + parts[k].len()) == parts[k],
    decreases parts.len(),
{
    let all = joined(parts, sep);
    if parts.len() == 1 {
        assert(all.subrange(0, parts[k].len() as int) =~= parts[k]);
        0
    } else {
        let init = parts.drop_last();
        let front = joined(init, sep);
        if k < init.len() {
            let at = part_of_joined(init, sep, k);
            assert(init[k] == parts[k]);
            assert(all.subrange(at, at + parts[k].len()) =~= front.subrange(at, at + parts[k].len()));
            at
        } else {
            let at = (front.len() + sep.len()) as int;
            assert(all.subrange(at, at + parts[k].len()) =~= parts[k]);
            at
        }
    }
}

/// Every dependency of a task occurs in the line that lists it.
pub proof fn every_dependency_is_listed(name: Seq<char>, deps: Seq<Seq<char>>, k: int)
    requires
        0 <= k < deps.len(),
    ensures
        exists|at: int|
            0 <= at <= at + deps[k].len() <= list_line(name, deps).len() && #[trigger] list_line(name, deps).subrange(
                at,
                at + deps[k].len(),
            ) == deps[k],
{
    let line = list_line(name, deps);
    let head = "  "@ + name + "  (deps: "@;
    let list = joined(deps, ", "@);
    let p = part_of_joined(deps, ", "@, k);
    let at = head.len() + p;
    assert(line =~= head + list + ")"@);
    assert(line.subrange(at, at + deps[k].len()) =~= list.subrange(p, p + deps[k].len()));
}

/// The heading of a listing names the configuration between backquotes.
pub proof fn heading_names_the_configuration(config: Seq<char>)
    ensures
        ({
            let head = list_head(config);
            &&& head.len() == 10 + config.len() + 22
            &&& head.take(10) == "tasks in `"@
            &&& head.subrange(10, 10int + config.len()) == config
            &&& head.skip(10int + config.len()) == "` (topological order):"@
        }),
{
    reveal_strlit("tasks in `");
    reveal_strlit("` (topological order):");
    let head = list_head(config);
    assert(head.take(10) =~= "tasks in `"@);
    assert(head.subrange(10, 10int + config.len()) =~= config);
    assert(head.skip(10int + config.len()) =~= "` (topological order):"@);
}

} // verus!
