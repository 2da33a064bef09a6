//! Locating and reading configuration files.

use vstd::prelude::*;
use vstd::utf8::encode_utf8;

use crate::error::ConfigError;
use crate::executor::maybe_text;
use crate::order::same_text;

verus! {

/// A TOML document, as the `toml` crate holds it.
#[verifier::external_type_specification]
#[verifier::external_body]
pub struct ExTomlValue(toml::Value);

/// What `toml::from_str` makes of a text: a document, or a message and the
/// byte offset, if known, at which the fault lies.
pub uninterp spec fn parsed_toml(source: Seq<char>) -> Result<toml::Value, (Seq<char>, Option<usize>)>;

/// Calls `toml::from_str`, and on failure `Error::message` and `Error::span` on
/// what it returns. What comes back depends on the text alone.
#[verifier::external_body]
fn parse_toml(source: &str) -> (r: Result<toml::Value, (String, Option<usize>)>)
    ensures
        match r {
            Ok(v) => parsed_toml(source@) == Ok::<toml::Value, (Seq<char>, Option<usize>)>(v),
            Err((message, at)) => parsed_toml(source@) == Err::<toml::Value, (Seq<char>, Option<usize>)>((message@, at)),
        },
{
    match toml::from_str::<toml::Value>(source) {
        Ok(v) => Ok(v),
        Err(e) => Err((e.message().to_owned(), e.span().map(|r| r.start))),
    }
}

/// How many of the first `n` bytes are line feeds.
pub open spec fn line_feeds(bytes: Seq<u8>, n: int) -> int
    decreases n,
{
    if n <= 0 {
        0
    } else {
        line_feeds(bytes, n - 1) + if bytes[n - 1] == 10u8 {
            1int
        } else {
            0
        }
    }
}

/// The line, counted from one, in which a byte offset lies; none if the offset
/// is beyond the end. Numbers end at the greatest `usize`.
pub open spec fn line_at(source: Seq<char>, offset: usize) -> Option<usize> {
    let bytes = encode_utf8(source);
    if offset > bytes.len() {
        None
    } else if line_feeds(bytes, offset as int) < usize::MAX {
        Some((line_feeds(bytes, offset as int) + 1) as usize)
    } else {
        Some(usize::MAX)
    }
}

/// The line, counted from one, in which a byte offset lies.
pub fn line_from_offset(source: &str, offset: usize) -> (r: Option<usize>)
    ensures
        r == line_at(source@, offset),
{
    let bytes = source.as_bytes();
    if offset > bytes.len() {
        return None;
    }
    let mut n: usize = 0;
    let mut count: usize = 0;
    while n < offset
        invariant
            n <= offset <= bytes@.len(),
            count == line_feeds(bytes@, n as int),
            count <= n,
        decreases offset - n,
    {
        if bytes[n] == 10 {
            count = count + 1;
        }
        n = n + 1;
    }
    Some(count.saturating_add(1))
}

/// What is told of a text that is not TOML: `message`, and the line of the
/// offset `at` where that is known.
pub fn toml_failure(path: &str, source: &str, message: &str, at: Option<usize>) -> (e: ConfigError)
    ensures
        e.path@ == path@,
        e.line == match at {
            Some(offset) => line_at(source@, offset),
            None => None,
        },
        e.message@ == "toml parse error: "@ + message@,
{
    let line = match at {
        Some(offset) => line_from_offset(source, offset),
        None => None,
    };
    let mut text = "toml parse error: ".to_owned();
    text.append(message);
    ConfigError::new(path.to_owned(), line, text)
}

/// The TOML document in what was read of a file, if there is one.
pub open spec fn document_in(read: Result<String, String>) -> Option<toml::Value> {
    match read {
        Ok(source) => match parsed_toml(source@) {
            Ok(v) => Some(v),
            Err(_) => None,
        },
        Err(_) => None,
    }
}

/// `e` tells why a file holds no TOML document: it cannot be read, or its text
/// is not TOML.
pub open spec fn load_fails(path: Seq<char>, read: Result<String, String>, e: ConfigError) -> bool {
    &&& e.path@ == path
    &&& match read {
        Err(why) => e.line is None && e.message@ == "cannot read config: "@ + why@,
        Ok(source) => match parsed_toml(source@) {
            Ok(_) => false,
            Err((message, at)) => {
                &&& e.line == match at {
                    Some(offset) => line_at(source@, offset),
                    None => None,
                }
                &&& e.message@ == "toml parse error: "@ + message
            },
        },
    }
}

/// The TOML document in a file, given its contents or why it cannot be read.
pub fn load_toml(path: &str, read: Result<String, String>) -> (r: Result<toml::Value, ConfigError>)
    ensures
        match r {
            Ok(v) => document_in(read) == Some(v),
            Err(e) => document_in(read) is None && load_fails(path@, read, e),
        },
{
    match read {
        Err(why) => {
            let mut message = "cannot read config: ".to_owned();
            message.append(why.as_str());
            Err(ConfigError::new(path.to_owned(), None, message))
        },
        Ok(source) => match parse_toml(source.as_str()) {
            Ok(v) => Ok(v),
            Err((message, at)) => Err(toml_failure(path, source.as_str(), message.as_str(), at)),
        },
    }
}

/// The position of the last `/`, or -1 if there is none.
pub open spec fn last_slash(path: Seq<char>) -> int
    decreases path.len(),
{
    if path.len() == 0 || path.last() == '/' {
        path.len() - 1
    } else {
        last_slash(path.drop_last())
    }
}

/// A path without the separators and the components `.` that it ends in; the
/// root `/` and a `.` that is all of it stay.
pub open spec fn trimmed(path: Seq<char>) -> Seq<char>
    decreases path.len(),
{
    if path.len() <= 1 {
        path
    } else if path.last() == '/' || (path.last() == '.' && path[path.len() - 2] == '/') {
        trimmed(path.drop_last())
    } else {
        path
    }
}

/// The directory part of a path whose components are parted by `/`: the path
/// without its last component. A bare name has an empty one; the root and the
/// empty path have none.
pub open spec fn directory(path: Seq<char>) -> Option<Seq<char>> {
    let t = trimmed(path);
    let k = last_slash(t);
    if t.len() == 0 || k == t.len() - 1 {
        None
    } else if k < 0 {
        Some(Seq::empty())
    } else if k == 0 {
        Some(seq!['/'])
    } else {
        Some(trimmed(t.take(k)))
    }
}

/// All machines see the same directory part, also those where `\\` parts
/// components too and a path may begin with a drive (`C:`) or a host (`//host`).
pub open spec fn agreed(path: Seq<char>) -> bool {
    let t = trimmed(path);
    let k = last_slash(t);
    let dir = trimmed(t.take(k));
    &&& !(path.len() >= 2 && path[0] == '/' && (path[1] == '/' || path[1] == '\\'))
    &&& !t.skip(k + 1).contains('\\')
    &&& path.len() >= 2 && path[0] != '/' && path[1] == ':' ==> k > 0 && dir.len() > 2
    &&& k > 0 ==> {
        &&& dir.first() != '\\' && dir.last() != '\\'
        &&& dir.len() > 1 && dir.last() == '.' ==> dir[dir.len() - 2] != '\\' && dir[dir.len() - 2] != ':'
    }
}

/// Calls `std::path::Path::parent`: the path without its final component, if it
/// has one. Repeated separators, those at the end and components `.` are passed
/// over, as `std::path::Path::components` tells.
///
/// What parts the components depends on the machine; where the path is cut is
/// said of those paths on which all machines agree.
#[verifier::external_body]
fn parent(path: &str) -> (r: Option<String>)
    ensures
        agreed(path@) ==> maybe_text(r) == directory(path@),
        r matches Some(p) ==> p@.is_prefix_of(path@) && p@.len() < path@.len(),
{
    std::path::Path::new(path).parent().map(|p| p.to_string_lossy().into_owned())
}

/// The project root, given the directory part of the path of a configuration
/// file: that directory, or the current one if there is none.
pub open spec fn root_of(dir: Option<Seq<char>>) -> Seq<char> {
    match dir {
        Some(d) => if d.len() > 0 {
            d
        } else {
            "."@
        },
        None => "."@,
    }
}

/// The project root, given the directory part of the path of a configuration
/// file.
pub fn root_from_parent(parent: Option<String>) -> (r: String)
    ensures
        r@ == root_of(maybe_text(parent)),
{
    match parent {
        Some(p) => {
            proof {
                reveal_strlit("");
                assert(p@.len() == 0 ==> p@ =~= ""@);
            }
            if same_text(p.as_str(), "") {
                ".".to_owned()
            } else {
                p
            }
        },
        None => ".".to_owned(),
    }
}

/// `root` is what the project root below a configuration file may be: the
/// directory that holds it where all machines agree on that, and in any case
/// the current directory or a part of the path.
pub open spec fn is_root_for(config_path: Seq<char>, root: Seq<char>) -> bool {
    &&& agreed(config_path) ==> root == root_of(directory(config_path))
    &&& root == "."@ || (root.len() > 0 && root.is_prefix_of(config_path) && root.len() < config_path.len())
}

/// Locates the project root for a given configuration file path.
///
/// The project root is simply the directory that holds the configuration; this
/// is where `.neomake/cache/` and all glob patterns are resolved. What the
/// directory part of a path is may depend on the machine; it is said of those
/// paths on which all machines agree.
pub fn project_root_for(config_path: &str) -> (r: String)
    ensures
        is_root_for(config_path@, r@),
{
    root_from_parent(parent(config_path))
}

/// The root of the cache: the project root of the configuration, or the current
/// directory where there is none.
pub fn cache_root_for(config: Option<&str>) -> (r: String)
    ensures
        match config {
            Some(path) => is_root_for(path@, r@),
            None => r@ == "."@,
        },
{
    match config {
        Some(path) => project_root_for(path),
        None => ".".to_owned(),
    }
}

/// Chooses the configuration file: the one asked for, if it exists, or else the
/// first of `neomake.toml` and `neomake.tomlx` that does.
///
/// `explicit` is the path asked for, with whether it exists.
pub fn resolve_config(explicit: Option<(&str, bool)>, toml_exists: bool, tomlx_exists: bool) -> (r: Result<
    String,
    String,
>)
    ensures
        match explicit {
            Some((p, exists_there)) => if exists_there {
                r matches Ok(path) && path@ == p@
            } else {
                r matches Err(message) && message@ == "config file not found: "@ + p@
            },
            None => if toml_exists {
                r matches Ok(path) && path@ == "neomake.toml"@
            } else if tomlx_exists {
                r matches Ok(path) && path@ == "neomake.tomlx"@
            } else {
                r matches Err(message) && message@
                    == "no configuration file found (looked for `neomake.toml` and `neomake.tomlx`)"@
            },
        },
{
    match explicit {
        Some((p, exists_there)) => {
            if exists_there {
                Ok(p.to_owned())
            } else {
                let mut message = "config file not found: ".to_owned();
                message.append(p);
                Err(message)
            }
        },
        None => {
            if toml_exists {
                Ok("neomake.toml".to_owned())
            } else if tomlx_exists {
                Ok("neomake.tomlx".to_owned())
            } else {
                Err("no configuration file found (looked for `neomake.toml` and `neomake.tomlx`)".to_owned())
            }
        },
    }
}

} // verus!
