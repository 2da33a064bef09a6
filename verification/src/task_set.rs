//! The tasks of a configuration.
//!
//! A [`TaskSet`] is the collection of tasks that a configuration declares; it
//! is checked when it is made, and holds the tasks in configuration order.

use vstd::prelude::*;

use crate::config::{document_in, load_fails, load_toml};
use crate::error::ConfigError;
use crate::graph::{declared, distinct, first_repeat_at};
use crate::name_map::NameMap;
use crate::order::{same_text, texts};
use crate::repeat::first_repeat;
use crate::task::{copy_tasks, tasks_view, Task, TaskView};
use crate::text::{blank, is_blank, is_white, quoted};
use crate::text_laws::blank_is_all_white;
use crate::view_laws::{configuration_shows_its_entries, task_shows_its_fields};

verus! {

/// A task as a configuration declares it.
#[derive(Debug)]
pub struct RawTask {
    /// Shell command to execute.
    pub command: String,
    /// Names of the tasks that it depends on.
    pub deps: Vec<String>,
    /// Glob patterns selecting input files.
    pub inputs: Vec<String>,
    /// Glob patterns selecting output files.
    pub outputs: Vec<String>,
    /// Extra environment variables.
    pub env: NameMap<String>,
}

/// The contents of a configuration: named tasks.
#[derive(Debug)]
pub struct RawConfig {
    /// The tasks, each under its name.
    pub tasks: Vec<(String, RawTask)>,
}

/// The task that an entry of a configuration declares.
pub open spec fn entry_view(entry: (String, RawTask)) -> TaskView {
    TaskView {
        name: entry.0@,
        command: entry.1.command@,
        deps: texts(entry.1.deps@),
        inputs: texts(entry.1.inputs@),
        outputs: texts(entry.1.outputs@),
        env: entry.1.env@.map_values(|s: String| s@),
    }
}

impl View for RawConfig {
    type V = Seq<TaskView>;

    open spec fn view(&self) -> Seq<TaskView> {
        self.tasks@.map_values(|e: (String, RawTask)| entry_view(e))
    }
}

/// What is wrong with the `i`-th of the tasks, if anything: its name occurs
/// before, its name is empty, or its command is blank.
pub open spec fn fault(ts: Seq<TaskView>, i: int) -> Option<Seq<char>> {
    let t = ts[i];
    if declared(ts).take(i).contains(t.name) {
        Some("duplicate task definition: `"@ + t.name + "`"@)
    } else if t.name.len() == 0 {
        Some("task name cannot be empty"@)
    } else if blank(t.command) {
        Some("task `"@ + t.name + "` has an empty `command`"@)
    } else {
        None
    }
}

/// Tasks that a configuration may declare: their names are distinct and not
/// empty, and no command is blank.
pub open spec fn acceptable(ts: Seq<TaskView>) -> bool {
    &&& distinct(ts)
    &&& forall|i: int| 0 <= i < ts.len() ==> (#[trigger] ts[i]).name.len() > 0 && !blank(ts[i].command)
}

/// The first position at which something is wrong.
pub open spec fn first_fault(ts: Seq<TaskView>, i: int) -> bool {
    &&& 0 <= i < ts.len()
    &&& fault(ts, i) is Some
    &&& forall|j: int| 0 <= j < i ==> #[trigger] fault(ts, j) is None
}

/// Tasks are acceptable exactly where nothing is wrong with any of them.
pub proof fn acceptable_iff_faultless(ts: Seq<TaskView>)
    ensures
        acceptable(ts) <==> forall|i: int| 0 <= i < ts.len() ==> #[trigger] fault(ts, i) is None,
{
    let names = declared(ts);
    if forall|i: int| 0 <= i < ts.len() ==> #[trigger] fault(ts, i) is None {
        assert forall|i: int, j: int| 0 <= i < j < names.len() implies names[i] != names[j] by {
            assert(fault(ts, j) is None);
            assert(names.take(j)[i] == names[i]);
        }
        assert forall|i: int| 0 <= i < ts.len() implies (#[trigger] ts[i]).name.len() > 0 && !blank(ts[i].command) by {
            assert(fault(ts, i) is None);
        }
    }
    if acceptable(ts) {
        assert forall|i: int| 0 <= i < ts.len() implies #[trigger] fault(ts, i) is None by {
            if names.take(i).contains(ts[i].name) {
                let j = choose|j: int| 0 <= j < i && names.take(i)[j] == ts[i].name;
                assert(names[j] == names[i]);
            }
            assert(ts[i].name.len() > 0);
        }
    }
}

/// What is wrong with the `i`-th task, given the first whose name is repeated.
fn find_fault(tasks: &[Task], i: usize, repeat: Option<usize>) -> (r: Option<String>)
    requires
        i < tasks@.len(),
        match repeat {
            Some(k) => i <= k && first_repeat_at(tasks_view(tasks@), k as int),
            None => distinct(tasks_view(tasks@)),
        },
    ensures
        match r {
            Some(m) => fault(tasks_view(tasks@), i as int) == Some(m@),
            None => fault(tasks_view(tasks@), i as int) is None,
        },
{
    let ghost ts = tasks_view(tasks@);
    let ghost names = declared(ts);
    let name = tasks[i].name.as_str();
    let repeated = match repeat {
        Some(k) => k == i,
        None => false,
    };
    proof {
        assert(ts[i as int] == tasks@[i as int]@);
        if names.take(i as int).contains(ts[i as int].name) && !repeated {
            let j = choose|j: int| 0 <= j < i && names.take(i as int)[j] == ts[i as int].name;
            assert(names[j] == names[i as int]);
            if let Some(k) = repeat {
                let first = names.take(k as int);
                assert(first[j] == first[i as int]);
            }
        }
    }
    if repeated {
        Some(quoted("duplicate task definition: `", name, "`"))
    } else if is_empty(name) {
        Some("task name cannot be empty".to_owned())
    } else if is_blank(tasks[i].command.as_str()) {
        Some(quoted("task `", name, "` has an empty `command`"))
    } else {
        None
    }
}

/// Whether a text is empty.
fn is_empty(s: &str) -> (r: bool)
    ensures
        r == (s@.len() == 0),
{
    let r = same_text(s, "");
    proof {
        reveal_strlit("");
        assert(s@.len() == 0 ==> s@ =~= ""@);
    }
    r
}

/// A collection of tasks loaded from a configuration.
#[derive(Debug)]
pub struct TaskSet {
    tasks: Vec<Task>,
}

impl View for TaskSet {
    type V = Seq<TaskView>;

    /// The tasks, in order.
    closed spec fn view(&self) -> Seq<TaskView> {
        tasks_view(self.tasks@)
    }
}

impl Clone for TaskSet {
    fn clone(&self) -> (s: Self)
        ensures
            s@ == self@,
    {
        proof {
            use_type_invariant(self);
        }
        TaskSet { tasks: copy_tasks(self.tasks.as_slice()) }
    }
}

impl Default for TaskSet {
    /// No tasks.
    fn default() -> (s: Self)
        ensures
            s@ == Seq::<TaskView>::empty(),
    {
        let tasks: Vec<Task> = Vec::new();
        proof {
            assert(tasks_view(tasks@) =~= Seq::<TaskView>::empty());
        }
        TaskSet { tasks }
    }
}

/// `r` is what comes of the contents of a configuration, or of what kept these
/// from being decoded.
pub open spec fn made_from(
    decoded: Result<RawConfig, String>,
    source_path: Seq<char>,
    r: Result<TaskSet, ConfigError>,
) -> bool {
    &&& match decoded {
        Ok(raw) => match r {
            Ok(set) => set@ == raw@ && acceptable(set@),
            Err(e) => {
                &&& e.path@ == source_path
                &&& e.line is None
                &&& exists|i: int| #[trigger] first_fault(raw@, i) && fault(raw@, i) == Some(e.message@)
            },
        },
        Err(why) => r matches Err(e) && e.path@ == source_path && e.line is None && e.message@
            == "invalid configuration schema: "@ + why@,
    }
    &&& r is Ok <==> decoded is Ok && acceptable(decoded->Ok_0@)
}

/// A set shows the tasks that it holds.
pub proof fn set_shows_its_tasks(set: TaskSet)
    ensures
        set@.len() == set.items().len(),
        forall|i: int| 0 <= i < set@.len() ==> #[trigger] set@[i] == set.items()[i]@,
{
}

/// Of contents that cannot be decoded it is told why.
pub proof fn undecoded_contents_say_why(why: String, path: Seq<char>, r: Result<TaskSet, ConfigError>)
    requires
        made_from(Err(why), path, r),
    ensures
        r matches Err(e) && {
            &&& e.path@ == path
            &&& e.line is None
            &&& e.message@ == "invalid configuration schema: "@ + why@
        },
{
}

/// What is made of a document is what is made of its contents, as they are
/// decoded; it is refused under the path of the file, without a line.
pub proof fn a_file_is_made_from_its_contents<F: FnOnce(toml::Value) -> Result<RawConfig, String>>(
    decode: F,
    v: toml::Value,
    path: Seq<char>,
    r: Result<TaskSet, ConfigError>,
)
    requires
        made_with(decode, v, path, r),
    ensures
        r matches Ok(set) ==> exists|raw: RawConfig| #[trigger]
            decode.ensures((v,), Ok::<RawConfig, String>(raw)) && set@ == raw@,
        r matches Err(e) ==> e.path@ == path && e.line is None,
        r is Err ==> exists|decoded: Result<RawConfig, String>| #[trigger]
            decode.ensures((v,), decoded) && (decoded matches Ok(raw) ==> !acceptable(raw@)),
{
    let decoded = choose|decoded: Result<RawConfig, String>| #[trigger]
        decode.ensures((v,), decoded) && made_from(decoded, path, r);
    if let Ok(raw) = decoded {
        assert(decode.ensures((v,), Ok::<RawConfig, String>(raw)));
    }
}

/// Every declaration of a configuration becomes a task with all its fields as
/// they are declared, in the same place: the name, the command, every dependency
/// and every pattern in order, and every variable with its value.
pub proof fn every_field_is_kept(raw: RawConfig, path: Seq<char>, set: TaskSet, i: int)
    requires
        made_from(Ok(raw), path, Ok(set)),
        0 <= i < raw.tasks@.len(),
    ensures
        set.items().len() == raw.tasks@.len(),
        set.items()[i].name@ == raw.tasks@[i].0@,
        set.items()[i].command@ == raw.tasks@[i].1.command@,
        set.items()[i].deps@.len() == raw.tasks@[i].1.deps@.len(),
        forall|k: int|
            0 <= k < raw.tasks@[i].1.deps@.len() ==> (#[trigger] set.items()[i].deps@[k])@
                == raw.tasks@[i].1.deps@[k]@,
        set.items()[i].inputs@.len() == raw.tasks@[i].1.inputs@.len(),
        forall|k: int|
            0 <= k < raw.tasks@[i].1.inputs@.len() ==> (#[trigger] set.items()[i].inputs@[k])@
                == raw.tasks@[i].1.inputs@[k]@,
        set.items()[i].outputs@.len() == raw.tasks@[i].1.outputs@.len(),
        forall|k: int|
            0 <= k < raw.tasks@[i].1.outputs@.len() ==> (#[trigger] set.items()[i].outputs@[k])@
                == raw.tasks@[i].1.outputs@[k]@,
        forall|k: Seq<char>|
            #[trigger] set.items()[i].env@.contains_key(k) <==> raw.tasks@[i].1.env@.contains_key(k),
        forall|k: Seq<char>|
            raw.tasks@[i].1.env@.contains_key(k) ==> (#[trigger] set.items()[i].env@[k])@
                == raw.tasks@[i].1.env@[k]@,
{
    let t = set.items()[i];
    let shown = raw@[i];
    set_shows_its_tasks(set);
    task_shows_its_fields(t);
    configuration_shows_its_entries(raw, i);
    assert(set@[i] == t@);
    assert(t@ == shown);
    assert forall|k: int| 0 <= k < raw.tasks@[i].1.deps@.len() implies (#[trigger] set.items()[i].deps@[k])@
        == raw.tasks@[i].1.deps@[k]@ by {
        assert(t@.deps[k] == shown.deps[k]);
    }
    assert forall|k: int| 0 <= k < raw.tasks@[i].1.inputs@.len() implies (#[trigger] set.items()[i].inputs@[k])@
        == raw.tasks@[i].1.inputs@[k]@ by {
        assert(t@.inputs[k] == shown.inputs[k]);
    }
    assert forall|k: int| 0 <= k < raw.tasks@[i].1.outputs@.len() implies (#[trigger] set.items()[i].outputs@[k])@
        == raw.tasks@[i].1.outputs@[k]@ by {
        assert(t@.outputs[k] == shown.outputs[k]);
    }
    assert forall|k: Seq<char>| #[trigger] t.env@.contains_key(k) <==> raw.tasks@[i].1.env@.contains_key(k) by {
        assert(t@.env.contains_key(k) <==> shown.env.contains_key(k));
    }
    assert forall|k: Seq<char>| raw.tasks@[i].1.env@.contains_key(k) implies (#[trigger] t.env@[k])@
        == raw.tasks@[i].1.env@[k]@ by {
        assert(t@.env[k] == shown.env[k]);
    }
}

/// A configuration is accepted exactly where every task has a name, no two have
/// the same, and every command holds more than white space.
pub proof fn accepted_iff_sound(raw: RawConfig, path: Seq<char>, r: Result<TaskSet, ConfigError>)
    requires
        made_from(Ok(raw), path, r),
    ensures
        r is Ok <==> {
            &&& forall|i: int| 0 <= i < raw.tasks@.len() ==> (#[trigger] raw.tasks@[i]).0@.len() > 0
            &&& forall|i: int, j: int|
                0 <= i < j < raw.tasks@.len() ==> (#[trigger] raw.tasks@[i]).0@ != (#[trigger] raw.tasks@[j]).0@
            &&& forall|i: int|
                0 <= i < raw.tasks@.len() ==> (#[trigger] raw.tasks@[i]).1.command@.filter(
                    |c: char| !is_white(c),
                ).len() > 0
        },
{
    let ts = raw@;
    assert forall|i: int| 0 <= i < ts.len() implies #[trigger] ts[i].name == raw.tasks@[i].0@ && ts[i].command
        == raw.tasks@[i].1.command@ by {
        configuration_shows_its_entries(raw, i);
    }
    if r is Ok {
        assert forall|i: int| 0 <= i < raw.tasks@.len() implies (#[trigger] raw.tasks@[i]).0@.len() > 0 by {
            assert(ts[i].name.len() > 0);
        }
        assert forall|i: int, j: int| 0 <= i < j < raw.tasks@.len() implies (#[trigger] raw.tasks@[i]).0@ != (
        #[trigger] raw.tasks@[j]).0@ by {
            assert(declared(ts)[i] != declared(ts)[j]);
            assert(ts[i].name == raw.tasks@[i].0@ && ts[j].name == raw.tasks@[j].0@);
        }
        assert forall|i: int| 0 <= i < raw.tasks@.len() implies (#[trigger] raw.tasks@[i]).1.command@.filter(
            |c: char| !is_white(c),
        ).len() > 0 by {
            assert(ts[i].name == raw.tasks@[i].0@);
            assert(!blank(ts[i].command));
            blank_is_all_white(ts[i].command);
        }
    } else {
        let sound = {
            &&& forall|i: int| 0 <= i < raw.tasks@.len() ==> (#[trigger] raw.tasks@[i]).0@.len() > 0
            &&& forall|i: int, j: int|
                0 <= i < j < raw.tasks@.len() ==> (#[trigger] raw.tasks@[i]).0@ != (#[trigger] raw.tasks@[j]).0@
            &&& forall|i: int|
                0 <= i < raw.tasks@.len() ==> (#[trigger] raw.tasks@[i]).1.command@.filter(
                    |c: char| !is_white(c),
                ).len() > 0
        };
        if sound {
            assert forall|i: int, j: int| 0 <= i < ts.len() && 0 <= j < ts.len() && i != j implies declared(ts)[i]
                != declared(ts)[j] by {
                assert(ts[i].name == raw.tasks@[i].0@ && ts[j].name == raw.tasks@[j].0@);
            }
            assert forall|i: int| 0 <= i < ts.len() implies (#[trigger] ts[i]).name.len() > 0 && !blank(
                ts[i].command,
            ) by {
                assert(ts[i].name == raw.tasks@[i].0@);
                blank_is_all_white(ts[i].command);
            }
            assert(acceptable(ts));
        }
    }
}

/// What is told of a refused configuration: of the first entry that repeats an
/// earlier name, has none or a blank command, which of these it is, in this
/// order, and its name.
pub proof fn refusal_names_the_first_fault(raw: RawConfig, path: Seq<char>, e: ConfigError) -> (i: int)
    requires
        made_from(Ok(raw), path, Err(e)),
    ensures
        0 <= i < raw.tasks@.len(),
        e.path@ == path,
        e.line is None,
        ({
            let name = raw.tasks@[i].0@;
            let repeated = exists|j: int| 0 <= j < i && (#[trigger] raw.tasks@[j]).0@ == name;
            &&& repeated ==> e.message@ == "duplicate task definition: `"@ + name + "`"@
            &&& !repeated && name.len() == 0 ==> e.message@ == "task name cannot be empty"@
            &&& !repeated && name.len() > 0 ==> e.message@ == "task `"@ + name + "` has an empty `command`"@ && forall|
                c: int,
            |
                0 <= c < raw.tasks@[i].1.command@.len() ==> is_white(#[trigger] raw.tasks@[i].1.command@[c])
        }),
        forall|j: int| 0 <= j < i ==> (#[trigger] raw.tasks@[j]).0@.len() > 0 && !blank(raw.tasks@[j].1.command@),
        forall|j: int, k: int|
            0 <= j < k < i ==> (#[trigger] raw.tasks@[j]).0@ != (#[trigger] raw.tasks@[k]).0@,
{
    let ts = raw@;
    let i = choose|i: int| #[trigger] first_fault(ts, i) && fault(ts, i) == Some(e.message@);
    assert forall|j: int| 0 <= j < ts.len() implies #[trigger] ts[j].name == raw.tasks@[j].0@ && ts[j].command
        == raw.tasks@[j].1.command@ by {
        configuration_shows_its_entries(raw, j);
    }
    let names = declared(ts);
    let name = raw.tasks@[i].0@;
    assert(ts[i].name == name);
    assert(names.take(i).contains(name) <==> exists|j: int| 0 <= j < i && (#[trigger] raw.tasks@[j]).0@ == name) by {
        if names.take(i).contains(name) {
            let j = choose|j: int| 0 <= j < i && names.take(i)[j] == name;
            assert(ts[j].name == raw.tasks@[j].0@);
        }
        if exists|j: int| 0 <= j < i && (#[trigger] raw.tasks@[j]).0@ == name {
            let j = choose|j: int| 0 <= j < i && (#[trigger] raw.tasks@[j]).0@ == name;
            assert(ts[j].name == raw.tasks@[j].0@);
            assert(names.take(i)[j] == name);
        }
    }
    assert forall|j: int| 0 <= j < i implies (#[trigger] raw.tasks@[j]).0@.len() > 0 && !blank(
        raw.tasks@[j].1.command@,
    ) by {
        assert(fault(ts, j) is None);
        assert(ts[j].name == raw.tasks@[j].0@);
    }
    assert forall|j: int, k: int| 0 <= j < k < i implies (#[trigger] raw.tasks@[j]).0@ != (
    #[trigger] raw.tasks@[k]).0@ by {
        assert(fault(ts, k) is None);
        assert(ts[j].name == raw.tasks@[j].0@ && ts[k].name == raw.tasks@[k].0@);
        assert(names.take(k)[j] == ts[j].name);
    }
    i
}

impl TaskSet {
    #[verifier::type_invariant]
    spec fn well_formed(self) -> bool {
        acceptable(self@)
    }

    /// The tasks themselves, in configuration order.
    pub closed spec fn items(&self) -> Seq<Task> {
        self.tasks@
    }

    /// Access to all tasks, in configuration order.
    pub fn tasks(&self) -> (r: &[Task])
        ensures
            r@ == self.items(),
            tasks_view(r@) == self@,
            acceptable(self@),
    {
        proof {
            use_type_invariant(self);
        }
        self.tasks.as_slice()
    }

    /// Looks up a task by name.
    pub fn get(&self, name: &str) -> (r: Option<&Task>)
        ensures
            match r {
                Some(t) => t@.name == name@ && self@.contains(t@),
                None => !declared(self@).contains(name@),
            },
            match r {
                Some(t) => t.name@ == name@ && self.items().contains(*t),
                None => forall|i: int| 0 <= i < self.items().len() ==> (#[trigger] self.items()[i]).name@ != name@,
            },
            acceptable(self@),
    {
        proof {
            use_type_invariant(self);
        }
        let mut i: usize = 0;
        while i < self.tasks.len()
            invariant
                i <= self.tasks@.len(),
                acceptable(self@),
                forall|j: int| 0 <= j < i ==> (#[trigger] self@[j]).name != name@,
            decreases self.tasks@.len() - i,
        {
            proof {
                assert(self@[i as int] == self.tasks@[i as int]@);
            }
            if same_text(self.tasks[i].name.as_str(), name) {
                return Some(&self.tasks[i]);
            }
            i = i + 1;
        }
        proof {
            assert forall|j: int| 0 <= j < declared(self@).len() implies declared(self@)[j] != name@ by {
                assert(self@[j].name != name@);
            }
            assert forall|j: int| 0 <= j < self.items().len() implies (#[trigger] self.items()[j]).name@ != name@ by {
                assert(self@[j] == self.items()[j]@);
            }
        }
        None
    }

    /// Makes a [`TaskSet`] from the contents of a configuration, or from what
    /// kept these from being decoded.
    ///
    /// `source_path` is used purely for error reporting and may point to either
    /// a `.toml` or `.tomlx` file. The tasks keep their order; of several things
    /// that are wrong, the first is told.
    pub fn from_value(decoded: Result<RawConfig, String>, source_path: &str) -> (r: Result<Self, ConfigError>)
        ensures
            made_from(decoded, source_path@, r),
    {
        match decoded {
            Err(why) => {
                let mut message = "invalid configuration schema: ".to_owned();
                message.append(why.as_str());
                Err(ConfigError::new(source_path.to_owned(), None, message))
            },
            Ok(raw) => {
                let ghost ts = raw@;
                let tasks = name_tasks(raw);
                let repeat = first_repeat(tasks.as_slice());
                proof {
                    acceptable_iff_faultless(ts);
                }
                let mut i: usize = 0;
                while i < tasks.len()
                    invariant
                        i <= tasks@.len(),
                        ts == tasks_view(tasks@),
                        match repeat {
                            Some(k) => i <= k && first_repeat_at(ts, k as int),
                            None => distinct(ts),
                        },
                        forall|j: int| 0 <= j < i ==> #[trigger] fault(ts, j) is None,
                        acceptable(ts) <==> forall|j: int| 0 <= j < ts.len() ==> #[trigger] fault(ts, j) is None,
                        decoded matches Ok(raw0) && raw0@ == ts,
                    decreases tasks@.len() - i,
                {
                    if let Some(message) = find_fault(tasks.as_slice(), i, repeat) {
                        proof {
                            assert(first_fault(ts, i as int));
                        }
                        return Err(ConfigError::new(source_path.to_owned(), None, message));
                    }
                    proof {
                        if let Some(k) = repeat {
                            assert(fault(ts, k as int) is Some);
                        }
                    }
                    i = i + 1;
                }
                Ok(TaskSet { tasks })
            },
        }
    }
}

/// `r` is what comes of what `decode` may return on the document `v`.
pub open spec fn made_with<F: FnOnce(toml::Value) -> Result<RawConfig, String>>(
    decode: F,
    v: toml::Value,
    source_path: Seq<char>,
    r: Result<TaskSet, ConfigError>,
) -> bool {
    exists|decoded: Result<RawConfig, String>|
        #[trigger] decode.ensures((v,), decoded) && made_from(decoded, source_path, r)
}

impl TaskSet {
    /// Makes a [`TaskSet`] from a plain `.toml` file, given its contents or why
    /// it cannot be read. `decode` reads the contents of a configuration from a
    /// document.
    ///
    /// What cannot be read or is not TOML is told as by [`load_toml`]; else the
    /// result is that of [`TaskSet::from_value`] on what `decode` returns.
    pub fn from_toml_file<F: FnOnce(toml::Value) -> Result<RawConfig, String>>(
        path: &str,
        read: Result<String, String>,
        decode: F,
    ) -> (r: Result<Self, ConfigError>)
        requires
            forall|v: toml::Value| #[trigger] decode.requires((v,)),
        ensures
            match document_in(read) {
                Some(v) => made_with(decode, v, path@, r),
                None => r matches Err(e) && load_fails(path@, read, e),
            },
    {
        match load_toml(path, read) {
            Ok(value) => {
                let ghost document = value;
                let decoded = decode(value);
                let ghost given = decoded;
                let r = Self::from_value(decoded, path);
                proof {
                    assert(made_from(given, path@, r));
                    assert(made_with(decode, document, path@, r));
                }
                r
            },
            Err(e) => Err(e),
        }
    }
}

/// The tasks that a configuration declares, in order.
fn name_tasks(raw: RawConfig) -> (r: Vec<Task>)
    ensures
        tasks_view(r@) == raw@,
{
    let ghost all = raw@;
    let mut out: Vec<Task> = Vec::new();
    for entry in it: raw.tasks
        invariant
            all == it.seq().map_values(|e: (String, RawTask)| entry_view(e)),
            tasks_view(out@) == all.take(it.index() as int),
    {
        let ghost out0 = out@;
        let ghost e = entry;
        let (name, RawTask { command, deps, inputs, outputs, env }) = entry;
        let task = Task { name, command, deps, inputs, outputs, env };
        proof {
            assert(task@ =~= entry_view(e));
        }
        out.push(task);
        proof {
            assert(tasks_view(out@) =~= tasks_view(out0).push(entry_view(e)));
            assert(tasks_view(out@) =~= all.take(it.index() as int + 1));
        }
    }
    proof {
        assert(all.take(all.len() as int) =~= all);
    }
    out
}

} // verus!
