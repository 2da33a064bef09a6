//! What holds of configuration files, shells, command lines and error texts.

use vstd::prelude::*;
use vstd::std_specs::convert::FromSpec;
use vstd::utf8::encode_utf8;

use crate::command::{listed_names, lists_env};
use crate::config::{
    agreed, directory, document_in, is_root_for, last_slash, line_at, line_feeds, load_fails, parsed_toml, root_of,
    trimmed,
};
use crate::error::{
    line_suffix_text, CacheError, ConfigError, CoreError, DagError, ExecError,
};
use crate::name_map::ascending_no_duplicates;
use crate::order::{before, texts};
use crate::shell::{chosen, kept, overridden, platform_default, InvocationView, Platform};
use crate::text::{blank, blank_iff_no_words, decimal, joined, signed_decimal, words};
use crate::time::time_between;
use crate::tomlx_error::TomlxError;

verus! {

proof fn feeds_are_counted(bytes: Seq<u8>, n: int)
    requires
        0 <= n <= bytes.len(),
    ensures
        line_feeds(bytes, n) == bytes.take(n).filter(|b: u8| b == 10u8).len(),
    decreases n,
{
    reveal(Seq::filter);
    if n > 0 {
        feeds_are_counted(bytes, n - 1);
        assert(bytes.take(n).drop_last() =~= bytes.take(n - 1));
        assert(bytes.take(n).last() == bytes[n - 1]);
    }
}

/// A place in a text lies in the line whose number is one more than the line
/// feeds before it, as far as there are numbers; a place beyond the end lies in
/// none.
pub proof fn lines_are_counted_from_one(source: Seq<char>, offset: usize)
    ensures
        ({
            let bytes = encode_utf8(source);
            &&& offset > bytes.len() ==> line_at(source, offset) is None
            &&& offset <= bytes.len() ==> {
                let feeds = bytes.take(offset as int).filter(|b: u8| b == 10u8).len();
                line_at(source, offset) matches Some(line) && line == if feeds < usize::MAX {
                    1 + feeds
                } else {
                    feeds
                }
            }
        }),
{
    let bytes = encode_utf8(source);
    if offset <= bytes.len() {
        feeds_are_counted(bytes, offset as int);
        few_feeds(bytes, offset as int);
    }
}

proof fn few_feeds(bytes: Seq<u8>, n: int)
    requires
        0 <= n,
    ensures
        0 <= line_feeds(bytes, n) <= n,
    decreases n,
{
    if n > 0 {
        few_feeds(bytes, n - 1);
    }
}

proof fn last_slash_of(dir: Seq<char>, name: Seq<char>)
    requires
        !name.contains('/'),
    ensures
        last_slash(dir.push('/') + name) == dir.len(),
    decreases name.len(),
{
    let path = dir.push('/') + name;
    if name.len() > 0 {
        let init = name.drop_last();
        assert(path.last() == name.last());
        assert(name.contains(name[name.len() - 1]));
        assert(path.drop_last() =~= dir.push('/') + init);
        if init.contains('/') {
            let i = choose|i: int| 0 <= i < init.len() && init[i] == '/';
            assert(name[i] == '/');
        }
        last_slash_of(dir, init);
    } else {
        assert(path =~= dir.push('/'));
    }
}

proof fn no_slash(name: Seq<char>)
    requires
        !name.contains('/'),
    ensures
        last_slash(name) == -1,
    decreases name.len(),
{
    if name.len() > 0 {
        let init = name.drop_last();
        assert(name.contains(name[name.len() - 1]));
        if init.contains('/') {
            let i = choose|i: int| 0 <= i < init.len() && init[i] == '/';
            assert(name[i] == '/');
        }
        no_slash(init);
    }
}

/// The directory of a file is what stands before its name: of `dir/name` it is
/// `dir`, of `/name` the root, and of a bare name the empty path.
pub proof fn directory_is_what_stands_before_the_name(dir: Seq<char>, name: Seq<char>)
    requires
        name.len() > 0,
        !name.contains('/'),
        name != seq!['.'],
    ensures
        directory(name) == Some(Seq::<char>::empty()),
        directory(seq!['/'] + name) == Some(seq!['/']),
        dir.len() > 0 && dir.last() != '/' && !(dir.len() > 1 && dir.last() == '.' && dir[dir.len() - 2] == '/')
            ==> directory(dir.push('/') + name) == Some(dir),
{
    assert(name.contains(name[name.len() - 1]));
    if name.len() > 1 {
        assert(name.contains(name[name.len() - 2]));
    } else if name[0] == '.' {
        assert(name =~= seq!['.']);
    }
    no_slash(name);
    assert(trimmed(name) == name);
    let rooted = seq!['/'] + name;
    assert(rooted =~= Seq::<char>::empty().push('/') + name);
    last_slash_of(Seq::empty(), name);
    assert(trimmed(rooted) == rooted) by {
        assert(rooted.last() == name.last());
        if name.len() > 1 {
            assert(rooted[rooted.len() - 2] == name[name.len() - 2]);
        }
    }
    if dir.len() > 0 && dir.last() != '/' && !(dir.len() > 1 && dir.last() == '.' && dir[dir.len() - 2] == '/') {
        let path = dir.push('/') + name;
        last_slash_of(dir, name);
        assert(trimmed(path) == path) by {
            assert(path.last() == name.last());
            if name.len() > 1 {
                assert(path[path.len() - 2] == name[name.len() - 2]);
            } else {
                assert(path[path.len() - 2] == '/');
            }
        }
        assert(path.take(dir.len() as int) =~= dir);
        assert(trimmed(dir) == dir);
    }
}

/// A separator at the end of a path and a last component `.` make no difference
/// to its directory.
pub proof fn directory_passes_over_separators(path: Seq<char>)
    requires
        path.len() > 0,
    ensures
        directory(path.push('/')) == directory(path),
        directory(path.push('/').push('.')) == directory(path),
{
    let slash = path.push('/');
    let dot = slash.push('.');
    assert(slash.drop_last() =~= path);
    assert(dot.drop_last() =~= slash);
    assert(slash.last() == '/');
    assert(dot.last() == '.' && dot[dot.len() - 2] == '/');
    assert(trimmed(slash) == trimmed(path));
    assert(trimmed(dot) == trimmed(slash));
}

/// Repeated separators and components `.` before the name make no difference to
/// the directory.
pub proof fn directory_passes_over_what_parts_components(dir: Seq<char>, name: Seq<char>)
    requires
        dir.len() > 0,
        name.len() > 0,
        !name.contains('/'),
        name != seq!['.'],
    ensures
        directory(dir.push('/').push('/') + name) == directory(dir.push('/') + name),
        directory(dir.push('/').push('.').push('/') + name) == directory(dir.push('/') + name),
{
    let slash = dir.push('/');
    let dot = slash.push('.');
    directory_before_name(dir, name);
    directory_before_name(slash, name);
    directory_before_name(dot, name);
    assert(slash.drop_last() =~= dir);
    assert(dot.drop_last() =~= slash);
    assert(slash.last() == '/');
    assert(dot.last() == '.' && dot[dot.len() - 2] == '/');
    assert(trimmed(slash) == trimmed(dir));
    assert(trimmed(dot) == trimmed(slash));
}

proof fn directory_before_name(dir: Seq<char>, name: Seq<char>)
    requires
        dir.len() > 0,
        name.len() > 0,
        !name.contains('/'),
        name != seq!['.'],
    ensures
        directory(dir.push('/') + name) == Some(trimmed(dir)),
{
    let path = dir.push('/') + name;
    assert(name.contains(name[name.len() - 1]));
    if name.len() > 1 {
        assert(name.contains(name[name.len() - 2]));
    } else if name[0] == '.' {
        assert(name =~= seq!['.']);
    }
    last_slash_of(dir, name);
    assert(trimmed(path) == path) by {
        assert(path.last() == name.last());
        if name.len() > 1 {
            assert(path[path.len() - 2] == name[name.len() - 2]);
        } else {
            assert(path[path.len() - 2] == '/');
        }
    }
    assert(path.take(dir.len() as int) =~= dir);
}

/// The root and the empty path have no directory, also where the root is followed
/// by `.`; a `.` alone has the empty one.
pub proof fn the_root_has_no_directory()
    ensures
        directory(Seq::empty()) is None,
        directory(seq!['/']) is None,
        directory(seq!['/', '.']) is None,
        directory(seq!['.']) == Some(Seq::<char>::empty()),
{
    assert(seq!['/', '.'].drop_last() =~= seq!['/']);
    assert(seq!['.'].drop_last() =~= Seq::<char>::empty());
    assert(last_slash(seq!['.'].drop_last()) == -1);
    assert(last_slash(seq!['/']) == 0);
}

proof fn trimmed_is_part(path: Seq<char>)
    ensures
        trimmed(path).is_prefix_of(path),
        path.len() > 0 ==> trimmed(path).len() > 0,
    decreases path.len(),
{
    if path.len() > 1 {
        let init = path.drop_last();
        trimmed_is_part(init);
        assert(trimmed(init).is_prefix_of(path)) by {
            assert(init.subrange(0, trimmed(init).len() as int) =~= path.subrange(0, trimmed(init).len() as int));
        }
    }
    assert(path.is_prefix_of(path)) by {
        assert(path.subrange(0, path.len() as int) =~= path);
    }
}

proof fn last_slash_in(path: Seq<char>)
    ensures
        -1 <= last_slash(path) < path.len() || (path.len() == 0 && last_slash(path) == -1),
        last_slash(path) >= 0 ==> path[last_slash(path)] == '/',
    decreases path.len(),
{
    if path.len() > 0 && path.last() != '/' {
        last_slash_in(path.drop_last());
    }
}

/// All machines agree on a path that holds neither `\\` nor `:` and does not
/// begin with two separators.
pub proof fn ordinary_paths_are_agreed_on(path: Seq<char>)
    requires
        !path.contains('\\'),
        !path.contains(':'),
        !(path.len() >= 2 && path[0] == '/' && path[1] == '/'),
    ensures
        agreed(path),
{
    let t = trimmed(path);
    let k = last_slash(t);
    let dir = trimmed(t.take(k));
    trimmed_is_part(path);
    last_slash_in(t);
    if path.len() >= 2 {
        assert(path.contains(path[1]));
    }
    assert forall|i: int| 0 <= i < t.len() implies #[trigger] t[i] == path[i] by {
        assert(t == path.subrange(0, t.len() as int));
    }
    let name = t.skip(k + 1);
    if name.contains('\\') {
        let i = choose|i: int| 0 <= i < name.len() && name[i] == '\\';
        assert(path[k + 1 + i] == '\\');
    }
    if k > 0 {
        trimmed_is_part(t.take(k));
        assert forall|i: int| 0 <= i < dir.len() implies path.contains(#[trigger] dir[i]) by {
            assert(dir == t.take(k).subrange(0, dir.len() as int));
            assert(dir[i] == t[i]);
            assert(path[i] == dir[i]);
        }
        assert(path.contains(dir[0]));
        assert(path.contains(dir[dir.len() - 1]));
        if dir.len() > 1 {
            assert(path.contains(dir[dir.len() - 2]));
        }
    }
}

/// The project root is the directory, or `.` where that is empty or missing.
pub proof fn root_is_the_directory(dir: Seq<char>, path: Seq<char>, root: Seq<char>)
    ensures
        root_of(None) == "."@,
        root_of(Some(Seq::empty())) == "."@,
        dir.len() > 0 ==> root_of(Some(dir)) == dir,
        is_root_for(path, root) && agreed(path) ==> root == root_of(directory(path)),
        is_root_for(path, root) ==> root == "."@ || (0 < root.len() < path.len() && root == path.take(root.len() as int)),
{
}

/// A file holds a document exactly where it can be read and its text is TOML,
/// and then it is the one of that text.
pub proof fn document_is_that_of_the_text(source: String, why: String)
    ensures
        document_in(Err(why)) is None,
        parsed_toml(source@) matches Ok(v) ==> document_in(Ok(source)) == Some(v),
        parsed_toml(source@) is Err ==> document_in(Ok(source)) is None,
{
}

/// Of a file without a document it is told why: that it cannot be read, or what
/// is wrong with its text and in which line.
pub proof fn load_failure_tells_why(path: Seq<char>, source: String, why: String, e: ConfigError)
    ensures
        load_fails(path, Err(why), e) ==> e.path@ == path && e.line is None && e.message@ == "cannot read config: "@
            + why@,
        load_fails(path, Ok(source), e) ==> (parsed_toml(source@) matches Err((message, at)) && {
            &&& e.path@ == path
            &&& e.message@ == "toml parse error: "@ + message
            &&& at is None ==> e.line is None
            &&& at matches Some(offset) ==> e.line == line_at(source@, offset)
        }),
{
}

/// An override is taken word by word: the program and the arguments are its
/// words, in order. One without any word is none.
pub proof fn override_is_taken_word_by_word(text: Seq<char>)
    ensures
        overridden(None) is None,
        overridden(Some(text)) is None <==> blank(text),
        overridden(Some(text)) matches Some(i) ==> seq![i.program] + i.args == words(text),
{
    blank_iff_no_words(text);
    if words(text).len() > 0 {
        assert(seq![words(text).first()] + words(text).skip(1) =~= words(text));
    }
}

/// The default shell takes the command string behind `-c` on Unix-likes; on
/// Windows it is the newest that is installed, with the flags that go with it.
pub proof fn default_fits_the_platform(platform: Platform, raw: Option<Seq<char>>, resolved: InvocationView)
    ensures
        platform_default(Platform::Unix).program == "sh"@ && platform_default(Platform::Unix).args == seq!["-c"@],
        platform matches Platform::Windows { pwsh, powershell } ==> {
            let i = platform_default(platform);
            &&& i.program == "pwsh"@ <==> pwsh
            &&& i.program == "powershell"@ <==> !pwsh && powershell
            &&& i.program == "cmd"@ <==> !pwsh && !powershell
            &&& pwsh || powershell ==> i.args == seq!["-NoProfile"@, "-NoLogo"@, "-Command"@]
            &&& !pwsh && !powershell ==> i.args == seq!["/S"@, "/C"@]
        },
        overridden(raw) is None ==> chosen(raw, platform) == platform_default(platform),
        overridden(raw) matches Some(i) ==> chosen(raw, platform) == i,
        kept(None, raw, platform) == chosen(raw, platform),
        kept(Some(resolved), raw, platform) == resolved,
{
    reveal_strlit("pwsh");
    reveal_strlit("powershell");
    reveal_strlit("cmd");
    assert("pwsh"@.len() == 4 && "powershell"@.len() == 10 && "cmd"@.len() == 3);
}

/// The variables listed for a process are those of the task, each once, with its
/// value and in the order of the names.
pub proof fn every_variable_is_listed(listed: Seq<(String, String)>, env: Map<Seq<char>, Seq<char>>, k: Seq<char>)
    requires
        lists_env(listed, env),
    ensures
        env.contains_key(k) <==> exists|i: int| 0 <= i < listed.len() && (#[trigger] listed[i]).0@ == k,
        forall|i: int| 0 <= i < listed.len() && (#[trigger] listed[i]).0@ == k ==> listed[i].1@ == env[k],
        forall|i: int, j: int|
            0 <= i < j < listed.len() ==> (#[trigger] listed[i]).0@ != (#[trigger] listed[j]).0@,
        forall|i: int, j: int|
            0 <= i < j < listed.len() ==> before((#[trigger] listed[i]).0@, (#[trigger] listed[j]).0@),
{
    let names = listed_names(listed);
    ascending_no_duplicates(names);
    if env.contains_key(k) {
        let i = choose|i: int| 0 <= i < names.len() && names[i] == k;
        assert(listed[i].0@ == k);
    }
    if exists|i: int| 0 <= i < listed.len() && (#[trigger] listed[i]).0@ == k {
        let i = choose|i: int| 0 <= i < listed.len() && (#[trigger] listed[i]).0@ == k;
        assert(names[i] == k);
    }
    assert forall|i: int, j: int| 0 <= i < j < listed.len() implies (#[trigger] listed[i]).0@ != (
    #[trigger] listed[j]).0@ by {
        assert(names[i] != names[j]);
    }
    assert forall|i: int, j: int| 0 <= i < j < listed.len() implies before(
        (#[trigger] listed[i]).0@,
        (#[trigger] listed[j]).0@,
    ) by {
        assert(before(names[i], names[j]));
    }
}

/// Time runs from the earlier to the later moment; the other way round there is
/// none.
pub proof fn time_runs_forward(earlier: nat, later: nat)
    ensures
        earlier + time_between(earlier, later) == if earlier <= later {
            later
        } else {
            earlier
        },
{
}

/// A configuration error names the path, the line if it is known, and the
/// message.
pub proof fn config_error_says_where_and_what(e: ConfigError)
    ensures
        e.line is None ==> e.says() == e.path@ + ": "@ + e.message@,
        e.line matches Some(n) ==> e.says() == e.path@ + ":"@ + decimal(n as nat) + ": "@ + e.message@,
        line_suffix_text(None) == Seq::<char>::empty(),
        e.line matches Some(n) ==> line_suffix_text(e.line) == ":"@ + decimal(n as nat),
{
    assert(e.line is None ==> e.says() =~= e.path@ + ": "@ + e.message@);
    if let Some(n) = e.line {
        assert(e.says() =~= e.path@ + ":"@ + decimal(n as nat) + ": "@ + e.message@);
    }
}

/// A graph error names the tasks that it is about.
pub proof fn dag_error_names_the_tasks(e: DagError)
    ensures
        e matches DagError::Cycle { path } ==> e.says() == "dependency cycle detected: "@ + joined(
            texts(path@),
            " -> "@,
        ),
        e matches DagError::UnknownDependency { task, missing } ==> e.says() == "task `"@ + task@
            + "` depends on unknown task `"@ + missing@ + "`"@,
        e matches DagError::DuplicateTask { task } ==> e.says() == "duplicate task definition: `"@ + task@ + "`"@,
{
}

/// An execution error names the task and what became of it.
pub proof fn exec_error_names_the_task(e: ExecError)
    ensures
        e matches ExecError::TaskFailed { task, code } ==> e.says() == "task `"@ + task@ + "` failed with exit code "@
            + signed_decimal(code as int),
        e matches ExecError::UpstreamFailed { task, upstream } ==> e.says() == "task `"@ + task@
            + "` skipped because upstream dependency `"@ + upstream@ + "` failed"@,
        e matches ExecError::Io { task, source } ==> e.says() == "task `"@ + task@ + "`: i/o error: "@ + source.message@,
{
}

/// A failure of the configuration language names the file, the line and the
/// column, and the message.
pub proof fn tomlx_error_says_where_and_what(e: TomlxError)
    ensures
        e.says() == e.file@ + seq![':'] + decimal(e.line as nat) + seq![':'] + decimal(e.col as nat) + seq![':', ' ']
            + e.message@,
{
    reveal_strlit(":");
    reveal_strlit(": ");
    assert(":"@ =~= seq![':']);
    assert(": "@ =~= seq![':', ' ']);
}

/// An error that is passed on keeps its kind and all it holds.
pub proof fn errors_are_passed_on_whole(c: ConfigError, d: DagError, x: ExecError, e: CacheError)
    ensures
        <CoreError as FromSpec<ConfigError>>::from_spec(c) == CoreError::Config(c),
        <CoreError as FromSpec<DagError>>::from_spec(d) == CoreError::Dag(d),
        <CoreError as FromSpec<ExecError>>::from_spec(x) == CoreError::Exec(x),
        <CoreError as FromSpec<CacheError>>::from_spec(e) == CoreError::Cache(e),
        <CoreError as FromSpec<ConfigError>>::obeys_from_spec(),
        <CoreError as FromSpec<DagError>>::obeys_from_spec(),
        <CoreError as FromSpec<ExecError>>::obeys_from_spec(),
        <CoreError as FromSpec<CacheError>>::obeys_from_spec(),
{
}

/// A cache error names the path; an error of any kind says the same when it is
/// passed on.
pub proof fn cache_error_names_the_path(e: CacheError, c: ConfigError, d: DagError, x: ExecError)
    ensures
        e matches CacheError::Io { path, source } ==> e.says() == "cache i/o error at "@ + path@ + ": "@
            + source.message@,
        e matches CacheError::Corrupt { path, message } ==> e.says() == "corrupt cache entry at "@ + path@ + ": "@
            + message@,
        CoreError::Cache(e).says() == e.says(),
        CoreError::Config(c).says() == c.says(),
        CoreError::Dag(d).says() == d.says(),
        CoreError::Exec(x).says() == x.says(),
{
}

} // verus!
