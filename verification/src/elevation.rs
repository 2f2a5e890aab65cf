//! Administrator rights: when to ask for them at startup, how to tell
//! whether the process has them, and how to relaunch with them.
use vstd::prelude::*;

use crate::codec::lossy_utf8;
use crate::dns_service::{CommandOutcome, CommandRequest, OutcomeView};
use crate::text::{texts_of, chars_of, contains, same_text, trim, trimmed};

verus! {

/// The environment variable that a relaunched process finds set to `1`.
pub const ELEVATION_ATTEMPT_ENV: &'static str = "XHOSTS_ELEVATION_ATTEMPTED";

/// The argument that a relaunched process is given.
pub const ELEVATION_ATTEMPT_ARG: &'static str = "--xhosts-elevation-attempted";

/// The platforms on which the rights probe differs.
#[derive(Clone, Copy, Debug, PartialEq, Eq)]
pub enum ElevationPlatform {
    Windows,
    Unix,
    Other,
}

/// What to do next at startup.
#[derive(Clone, Copy, Debug, PartialEq, Eq)]
pub enum StartupStep {
    /// Find out whether the process has administrator rights.
    ProbeElevation,
    /// Relaunch the program with administrator rights.
    Relaunch,
    /// Exit: the relaunched program takes over.
    Exit,
    /// Go on, with whether the process has administrator rights.
    Done(bool),
}

// ---------------------------------------------------------------------
// Specification
// ---------------------------------------------------------------------

/// `s` with ASCII upper-case letters turned into lower case.
pub open spec fn ascii_lower(s: Seq<char>) -> Seq<char> {
    s.map_values(
        |c: char|
            if 'A' <= c <= 'Z' {
                ((c as u32) + 32) as char
            } else {
                c
            },
    )
}

/// Whether a relaunch was already attempted: the environment variable is
/// `1`, or the program was given the relaunch argument.
pub open spec fn attempted(env_value: Option<Seq<char>>, args: Seq<Seq<char>>) -> bool {
    env_value == Some("1"@) || exists|i: int|
        0 <= i < args.len() && #[trigger] args[i] == "--xhosts-elevation-attempted"@
}

/// Whether the output of the rights probe says that the process has
/// administrator rights: on Windows, the probe succeeded and its output
/// holds `true` in any case; on Unix, the probe succeeded and printed the
/// user id `0`.
pub open spec fn elevated_by(platform: ElevationPlatform, outcome: Option<OutcomeView>) -> bool {
    match outcome {
        Some(OutcomeView::Finished { success, stdout, .. }) => success && match platform {
            ElevationPlatform::Windows => contains(ascii_lower(lossy_utf8(stdout)), "true"@),
            ElevationPlatform::Unix => trim(lossy_utf8(stdout)) == "0"@,
            ElevationPlatform::Other => false,
        },
        _ => false,
    }
}

/// The PowerShell command that prints whether the current Windows user is
/// in the Administrators role.
pub open spec fn admin_role_script() -> Seq<char> {
    "[Security.Principal.WindowsPrincipal][Security.Principal.WindowsIdentity]::GetCurrent() | ForEach-Object { $_.IsInRole([Security.Principal.WindowsBuiltInRole]::Administrator) }"@
}

/// The PowerShell command that relaunches the program at `exe` with
/// administrator rights, in the directory `cwd`.
pub open spec fn relaunch_script(exe: Seq<char>, cwd: Seq<char>) -> Seq<char> {
    "$env:XHOSTS_ELEVATION_ATTEMPTED='1'; Start-Process -FilePath '"@ + exe
        + "' -WorkingDirectory '"@ + cwd + "' -Verb RunAs -ArgumentList '--xhosts-elevation-attempted'"@
}

/// The directory to relaunch in: the current one, or `C:\` when it is not
/// known.
pub open spec fn relaunch_dir(cwd: Option<Seq<char>>) -> Seq<char> {
    match cwd {
        Some(d) => d,
        None => "C:\\"@,
    }
}

/// What to do next at startup, given what is known so far.
pub open spec fn startup_decision(
    auto_elevate: bool,
    elevated: Option<bool>,
    already_attempted: bool,
    relaunched: Option<bool>,
) -> StartupStep {
    if !auto_elevate {
        StartupStep::Done(false)
    } else {
        match elevated {
            None => StartupStep::ProbeElevation,
            Some(true) => StartupStep::Done(true),
            Some(false) => if already_attempted {
                StartupStep::Done(false)
            } else {
                match relaunched {
                    None => StartupStep::Relaunch,
                    Some(true) => StartupStep::Exit,
                    Some(false) => StartupStep::Done(false),
                }
            },
        }
    }
}

// ---------------------------------------------------------------------
// Implementation
// ---------------------------------------------------------------------

/// Whether the program asks for administrator rights at startup: only a
/// release build for Windows does.
pub fn should_auto_elevate(target_windows: bool, debug_build: bool) -> (r: bool)
    ensures
        r == (target_windows && !debug_build),
{
    target_windows && !debug_build
}

/// Whether a relaunch with administrator rights was already attempted,
/// given the value of `XHOSTS_ELEVATION_ATTEMPTED` (if it is set and is
/// Unicode) and the program's arguments.
pub fn relaunch_already_attempted(env_value: Option<&str>, args: &Vec<String>) -> (r: bool)
    ensures
        r == attempted(
            match env_value {
                Some(v) => Some(v@),
                None => None,
            },
            texts_of(args@),
        ),
{
    let env_hit = match env_value {
        Some(v) => same_text(v, "1"),
        None => false,
    };
    if env_hit {
        return true;
    }
    let n = args.len();
    for i in 0..n
        invariant
            n == args@.len(),
            forall|j: int| 0 <= j < i ==> args@[j]@ != "--xhosts-elevation-attempted"@,
    {
        if same_text(args[i].as_str(), ELEVATION_ATTEMPT_ARG) {
            assert(texts_of(args@)[i as int] == "--xhosts-elevation-attempted"@);
            return true;
        }
    }
    assert forall|i: int| 0 <= i < n implies #[trigger] texts_of(args@)[i]
        != "--xhosts-elevation-attempted"@ by {
        assert(texts_of(args@)[i] == args@[i]@);
    }
    false
}

/// Whether to relaunch with administrator rights: when the program asks
/// for them, does not have them, and has not tried yet.
pub fn should_try_relaunch(is_admin: bool, auto_elevate: bool, already_attempted: bool) -> (r: bool)
    ensures
        r == (auto_elevate && !is_admin && !already_attempted),
{
    auto_elevate && !is_admin && !already_attempted
}

/// The command that tells whether the process has administrator rights.
pub fn elevation_probe_command(platform: ElevationPlatform) -> (r: Option<CommandRequest>)
    ensures
        match platform {
            ElevationPlatform::Windows => r matches Some(c) && c.program@ == "powershell"@
                && texts_of(c.args@) == seq!["-NoProfile"@, "-Command"@, admin_role_script()],
            ElevationPlatform::Unix => r matches Some(c) && c.program@ == "id"@ && texts_of(c.args@)
                == seq!["-u"@],
            ElevationPlatform::Other => r is None,
        },
{
    match platform {
        ElevationPlatform::Windows => {
            let mut args: Vec<String> = Vec::new();
            args.push("-NoProfile".to_owned());
            args.push("-Command".to_owned());
            args.push(
                "[Security.Principal.WindowsPrincipal][Security.Principal.WindowsIdentity]::GetCurrent() | ForEach-Object { $_.IsInRole([Security.Principal.WindowsBuiltInRole]::Administrator) }".to_owned(),
            );
            assert(texts_of(args@) =~= seq!["-NoProfile"@, "-Command"@, admin_role_script()]);
            Some(CommandRequest { program: "powershell".to_owned(), args })
        },
        ElevationPlatform::Unix => {
            let mut args: Vec<String> = Vec::new();
            args.push("-u".to_owned());
            assert(texts_of(args@) =~= seq!["-u"@]);
            Some(CommandRequest { program: "id".to_owned(), args })
        },
        ElevationPlatform::Other => None,
    }
}

/// `String::from_utf8_lossy`, as characters.
fn lossy_chars(bytes: &Vec<u8>) -> (r: Vec<char>)
    ensures
        r@ == lossy_utf8(bytes@),
{
    let text = crate::codec::utf8_lossy(bytes);
    chars_of(text.as_str())
}

/// Whether the process has administrator rights, given the outcome of the
/// probe command (`None` when there is no probe on the platform).
pub fn is_elevated(platform: ElevationPlatform, outcome: Option<&CommandOutcome>) -> (r: bool)
    ensures
        r == elevated_by(
            platform,
            match outcome {
                Some(o) => Some(o@),
                None => None,
            },
        ),
{
    match outcome {
        Some(CommandOutcome::Finished { success, stdout, .. }) => {
            if !*success {
                return false;
            }
            match platform {
                ElevationPlatform::Windows => {
                    let text = lossy_chars(stdout);
                    let mut lower: Vec<char> = Vec::new();
                    let n = text.len();
                    for i in 0..n
                        invariant
                            n == text@.len(),
                            lower@ == ascii_lower(text@.take(i as int)),
                    {
                        let c = text[i];
                        let l = if 'A' <= c && c <= 'Z' {
                            ((c as u8) + 32) as char
                        } else {
                            c
                        };
                        lower.push(l);
                        assert(lower@ =~= ascii_lower(text@.take(i + 1)));
                    }
                    assert(text@.take(n as int) =~= text@);
                    let needle = chars_of("true");
                    crate::text::contains_chars(&lower, &needle)
                },
                ElevationPlatform::Unix => {
                    let text = lossy_chars(stdout);
                    let t = trimmed(&text);
                    let zero = chars_of("0");
                    crate::text::same_chars(&t, &zero)
                },
                ElevationPlatform::Other => false,
            }
        },
        _ => false,
    }
}

/// The command that relaunches the program at `exe` with administrator
/// rights, in the directory `cwd` (`None` when it is not known or not
/// Unicode). Fails when the program's path is not Unicode (`None`).
pub fn relaunch_command(exe: Option<&str>, cwd: Option<&str>) -> (r: Result<CommandRequest, String>)
    ensures
        match exe {
            None => r matches Err(m) && m@ == "The current executable path contains invalid characters"@,
            Some(path) => r matches Ok(c) && c.program@ == "powershell"@ && c.args@.len() == 3
                && c.args@[0]@ == "-NoProfile"@ && c.args@[1]@ == "-Command"@ && c.args@[2]@
                == relaunch_script(
                path@,
                relaunch_dir(
                    match cwd {
                        Some(d) => Some(d@),
                        None => None,
                    },
                ),
            ),
        },
{
    let path = match exe {
        Some(p) => p,
        None => {
            return Err("The current executable path contains invalid characters".to_owned());
        },
    };
    let dir: &str = match cwd {
        Some(d) => d,
        None => "C:\\",
    };
    let mut script = "$env:XHOSTS_ELEVATION_ATTEMPTED='1'; Start-Process -FilePath '".to_owned();
    script.append(path);
    script.append("' -WorkingDirectory '");
    script.append(dir);
    script.append("' -Verb RunAs -ArgumentList '--xhosts-elevation-attempted'");
    let mut args: Vec<String> = Vec::new();
    args.push("-NoProfile".to_owned());
    args.push("-Command".to_owned());
    args.push(script);
    Ok(CommandRequest { program: "powershell".to_owned(), args })
}

/// Relaunching in two known directories writes the same script only when
/// the directories are the same: the script names the current directory
/// whenever it is known.
pub proof fn law_relaunch_names_directory(exe: Seq<char>, d1: Seq<char>, d2: Seq<char>)
    requires
        relaunch_script(exe, relaunch_dir(Some(d1))) == relaunch_script(exe, relaunch_dir(Some(d2))),
    ensures
        d1 == d2,
{
    let head = "$env:XHOSTS_ELEVATION_ATTEMPTED='1'; Start-Process -FilePath '"@ + exe
        + "' -WorkingDirectory '"@;
    let tail = "' -Verb RunAs -ArgumentList '--xhosts-elevation-attempted'"@;
    let s1 = relaunch_script(exe, relaunch_dir(Some(d1)));
    let s2 = relaunch_script(exe, relaunch_dir(Some(d2)));
    assert(s1 =~= head + relaunch_dir(Some(d1)) + tail);
    assert(s2 =~= head + relaunch_dir(Some(d2)) + tail);
    let x1 = relaunch_dir(Some(d1));
    let x2 = relaunch_dir(Some(d2));
    assert(x1.len() == x2.len());
    assert(s1.subrange(head.len() as int, (head.len() + x1.len()) as int) =~= x1);
    assert(s2.subrange(head.len() as int, (head.len() + x2.len()) as int) =~= x2);
    assert(x1 == d1);
    assert(x2 == d2);
}

/// Relaunching where the current directory is not known writes the script
/// of the directory `C:\`.
pub proof fn law_relaunch_default_directory(exe: Seq<char>)
    ensures
        relaunch_script(exe, relaunch_dir(None)) == relaunch_script(exe, "C:\\"@),
{
}

/// The result of a relaunch, from whether the relaunch command succeeded.
pub fn relaunch_result(success: bool) -> (r: Result<(), String>)
    ensures
        success ==> r is Ok,
        !success ==> (r matches Err(m) && m@
            == "The user canceled or the system denied the UAC elevation request"@),
{
    if success {
        Ok(())
    } else {
        Err("The user canceled or the system denied the UAC elevation request".to_owned())
    }
}

/// What to do next at startup: nothing unless the program asks for
/// administrator rights; then probe for them, and relaunch once with them
/// when they are missing, exiting when the relaunch succeeds.
pub fn ensure_admin_startup(
    auto_elevate: bool,
    elevated: Option<bool>,
    already_attempted: bool,
    relaunched: Option<bool>,
) -> (step: StartupStep)
    ensures
        step == startup_decision(auto_elevate, elevated, already_attempted, relaunched),
{
    if !auto_elevate {
        return StartupStep::Done(false);
    }
    match elevated {
        None => StartupStep::ProbeElevation,
        Some(true) => StartupStep::Done(true),
        Some(false) => {
            if !should_try_relaunch(false, auto_elevate, already_attempted) {
                return StartupStep::Done(false);
            }
            match relaunched {
                None => StartupStep::Relaunch,
                Some(true) => StartupStep::Exit,
                Some(false) => StartupStep::Done(false),
            }
        },
    }
}

} // verus!
