//! Which shell runs the commands.
//!
//! # Resolution order
//!
//! 1. An override is split at white space: the first word is the program, the
//!    others are leading arguments. An override without any word is ignored.
//! 2. Otherwise, on Unix-likes the default is `sh -c`.
//! 3. On Windows the default is the first that is installed:
//!    - `pwsh` with `-NoProfile -NoLogo -Command`
//!    - `powershell` with the same flags
//!    - `cmd` with `/S /C` as the last resort
//!
//! The user's command string goes behind these arguments. What was resolved
//! first is kept.

use vstd::prelude::*;

use crate::order::{copy_strings, texts};
use crate::text::{blank, blank_iff_no_words, split_words, words};

verus! {

/// A resolved shell invocation: the program to spawn plus the arguments that
/// precede the user's command string.
#[derive(Debug)]
pub struct ShellInvocation {
    /// Executable to spawn (e.g. `sh`, `pwsh`, `cmd`).
    pub program: String,
    /// Arguments inserted before the command string (e.g. `["-c"]`).
    pub args: Vec<String>,
}

/// What a [`ShellInvocation`] holds.
pub struct InvocationView {
    pub program: Seq<char>,
    pub args: Seq<Seq<char>>,
}

impl View for ShellInvocation {
    type V = InvocationView;

    open spec fn view(&self) -> InvocationView {
        InvocationView { program: self.program@, args: texts(self.args@) }
    }
}

impl Clone for ShellInvocation {
    fn clone(&self) -> (i: Self)
        ensures
            i@ == self@,
    {
        ShellInvocation { program: self.program.clone(), args: copy_strings(self.args.as_slice()) }
    }
}

/// What string slices hold.
pub open spec fn slices(args: Seq<&str>) -> Seq<Seq<char>> {
    args.map_values(|a: &str| a@)
}

impl ShellInvocation {
    /// Constructs an invocation from its parts.
    pub fn new(program: &str, args: &[&str]) -> (i: Self)
        ensures
            i@ == (InvocationView { program: program@, args: slices(args@) }),
    {
        let mut owned: Vec<String> = Vec::new();
        let mut n: usize = 0;
        while n < args.len()
            invariant
                n <= args@.len(),
                texts(owned@) == slices(args@).take(n as int),
            decreases args@.len() - n,
        {
            let ghost owned0 = owned@;
            owned.push(args[n].to_owned());
            proof {
                assert(texts(owned@) =~= texts(owned0).push(args@[n as int]@));
                assert(slices(args@).take(n as int + 1) =~= slices(args@).take(n as int).push(slices(args@)[n as int]));
            }
            n = n + 1;
        }
        proof {
            assert(slices(args@).take(args@.len() as int) =~= slices(args@));
        }
        ShellInvocation { program: program.to_owned(), args: owned }
    }
}

/// What the choice of a default shell depends on.
#[derive(Debug, Clone, Copy, PartialEq, Eq, Structural)]
pub enum Platform {
    /// Unix-likes.
    Unix,
    /// Windows, with what is installed there.
    Windows {
        /// PowerShell 7+ is installed.
        pwsh: bool,
        /// Windows PowerShell 5.1 is installed.
        powershell: bool,
    },
}

/// The default shell.
pub open spec fn platform_default(platform: Platform) -> InvocationView {
    let flags = seq!["-NoProfile"@, "-NoLogo"@, "-Command"@];
    match platform {
        Platform::Unix => InvocationView { program: "sh"@, args: seq!["-c"@] },
        Platform::Windows { pwsh, powershell } => if pwsh {
            InvocationView { program: "pwsh"@, args: flags }
        } else if powershell {
            InvocationView { program: "powershell"@, args: flags }
        } else {
            InvocationView { program: "cmd"@, args: seq!["/S"@, "/C"@] }
        },
    }
}

/// The shell that an override asks for, if it holds any word.
pub open spec fn overridden(raw: Option<Seq<char>>) -> Option<InvocationView> {
    match raw {
        Some(text) => if words(text).len() > 0 {
            Some(InvocationView { program: words(text).first(), args: words(text).skip(1) })
        } else {
            None
        },
        None => None,
    }
}

/// The shell to use: that of the override, or else the default.
pub open spec fn chosen(raw: Option<Seq<char>>, platform: Platform) -> InvocationView {
    match overridden(raw) {
        Some(i) => i,
        None => platform_default(platform),
    }
}

/// What an optional string slice holds.
pub open spec fn maybe_slice(s: Option<&str>) -> Option<Seq<char>> {
    match s {
        Some(x) => Some(x@),
        None => None,
    }
}

/// The default shell of a platform.
pub fn default_for_platform(platform: Platform) -> (i: ShellInvocation)
    ensures
        i@ == platform_default(platform),
{
    match platform {
        Platform::Unix => {
            let args: [&str; 1] = ["-c"];
            proof {
                assert(slices(args@) =~= seq!["-c"@]);
            }
            ShellInvocation::new("sh", &args)
        },
        Platform::Windows { pwsh, powershell } => {
            let flags: [&str; 3] = ["-NoProfile", "-NoLogo", "-Command"];
            let args: [&str; 2] = ["/S", "/C"];
            proof {
                assert(slices(flags@) =~= seq!["-NoProfile"@, "-NoLogo"@, "-Command"@]);
                assert(slices(args@) =~= seq!["/S"@, "/C"@]);
            }
            if pwsh {
                ShellInvocation::new("pwsh", &flags)
            } else if powershell {
                ShellInvocation::new("powershell", &flags)
            } else {
                ShellInvocation::new("cmd", &args)
            }
        },
    }
}

/// The shell that the value of the environment variable `NEOMAKE_SHELL` asks
/// for; none if it is unset or blank.
pub fn override_from_env(raw: Option<&str>) -> (r: Option<ShellInvocation>)
    ensures
        match r {
            Some(i) => overridden(maybe_slice(raw)) == Some(i@),
            None => overridden(maybe_slice(raw)) is None,
        },
{
    match raw {
        Some(text) => {
            let mut tokens = split_words(text);
            if tokens.len() == 0 {
                return None;
            }
            let ghost all = tokens@;
            let program = tokens.remove(0);
            proof {
                assert(all.len() == texts(all).len());
                assert(texts(tokens@) =~= words(text@).skip(1));
            }
            Some(ShellInvocation { program, args: tokens })
        },
        None => None,
    }
}

/// Computes the shell to use.
pub fn compute(raw: Option<&str>, platform: Platform) -> (i: ShellInvocation)
    ensures
        i@ == chosen(maybe_slice(raw), platform),
{
    match override_from_env(raw) {
        Some(i) => i,
        None => default_for_platform(platform),
    }
}

/// What is resolved, given what was resolved before.
pub open spec fn kept(
    resolved: Option<InvocationView>,
    raw: Option<Seq<char>>,
    platform: Platform,
) -> InvocationView {
    match resolved {
        Some(i) => i,
        None => chosen(raw, platform),
    }
}

/// What an optional invocation holds.
pub open spec fn maybe_invocation(i: Option<ShellInvocation>) -> Option<InvocationView> {
    match i {
        Some(x) => Some(x@),
        None => None,
    }
}

/// Returns the shell to use, computing and keeping it on first access.
pub fn resolve(resolved: &mut Option<ShellInvocation>, raw: Option<&str>, platform: Platform) -> (i: ShellInvocation)
    ensures
        i@ == kept(maybe_invocation(*old(resolved)), maybe_slice(raw), platform),
        maybe_invocation(*final(resolved)) == Some(i@),
{
    if let Some(i) = &*resolved {
        return i.clone();
    }
    let i = compute(raw, platform);
    *resolved = Some(i.clone());
    i
}

/// An override that is empty or blank is ignored; any other decides, whatever
/// the platform.
pub proof fn blank_override_ignored(text: Seq<char>, platform: Platform)
    ensures
        blank(text) ==> chosen(Some(text), platform) == platform_default(platform),
        !blank(text) ==> chosen(Some(text), platform) == (InvocationView {
            program: words(text).first(),
            args: words(text).skip(1),
        }),
{
    blank_iff_no_words(text);
}

/// What was resolved first stays, whatever becomes of the environment.
pub proof fn resolved_once(
    resolved: Option<InvocationView>,
    raw: Option<Seq<char>>,
    platform: Platform,
    later_raw: Option<Seq<char>>,
    later_platform: Platform,
)
    ensures
        ({
            let first = kept(resolved, raw, platform);
            kept(Some(first), later_raw, later_platform) == first
        }),
{
}

} // verus!
