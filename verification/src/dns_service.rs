//! Flushing the DNS cache: which commands to run on each platform, and
//! what their outcomes mean.
use vstd::prelude::*;

use crate::codec::{decode_shell_output, max_decoded_input, shell_text};
use crate::text::{texts_of, decimal, decimal_of, string_of};

verus! {

/// The platforms whose DNS cache the editor knows how to flush.
#[derive(Clone, Copy, Debug, PartialEq, Eq)]
pub enum DnsPlatform {
    Windows,
    MacOs,
    Linux,
    Other,
}

/// A command to run: the program and its arguments.
#[derive(Debug)]
pub struct CommandRequest {
    pub program: String,
    pub args: Vec<String>,
}

/// What running a command gave.
#[derive(Debug)]
pub enum CommandOutcome {
    /// The command could not be started; the text of the system's error.
    SpawnFailed(String),
    /// The command ran: whether it succeeded, its exit code if it had one,
    /// and the bytes it wrote.
    Finished { success: bool, code: Option<i32>, stdout: Vec<u8>, stderr: Vec<u8> },
}

/// What to do next: run a command, or stop with the result.
#[derive(Debug)]
pub enum FlushStep {
    Run(CommandRequest),
    Done(Result<String, String>),
}

/// The mathematical content of a [`CommandOutcome`].
pub enum OutcomeView {
    SpawnFailed(Seq<char>),
    Finished { success: bool, code: Option<i32>, stdout: Seq<u8>, stderr: Seq<u8> },
}

/// The mathematical content of a [`FlushStep`].
pub enum StepView {
    Run(Seq<char>, Seq<Seq<char>>),
    Done(Result<Seq<char>, Seq<char>>),
}

impl View for CommandOutcome {
    type V = OutcomeView;

    open spec fn view(&self) -> OutcomeView {
        match self {
            CommandOutcome::SpawnFailed(e) => OutcomeView::SpawnFailed(e@),
            CommandOutcome::Finished { success, code, stdout, stderr } => OutcomeView::Finished {
                success: *success,
                code: *code,
                stdout: stdout@,
                stderr: stderr@,
            },
        }
    }
}

impl View for FlushStep {
    type V = StepView;

    open spec fn view(&self) -> StepView {
        match self {
            FlushStep::Run(r) => StepView::Run(
                r.program@,
                texts_of(r.args@),
            ),
            FlushStep::Done(Ok(m)) => StepView::Done(Ok(m@)),
            FlushStep::Done(Err(m)) => StepView::Done(Err(m@)),
        }
    }
}

// ---------------------------------------------------------------------
// Specification
// ---------------------------------------------------------------------

/// `c` in decimal, with a minus sign when it is negative.
pub open spec fn signed_decimal(c: i32) -> Seq<char> {
    if c < 0 {
        seq!['-'] + decimal((-c) as nat)
    } else {
        decimal(c as nat)
    }
}

/// How `{:?}` prints an optional exit code.
pub open spec fn debug_code(code: Option<i32>) -> Seq<char> {
    match code {
        Some(c) => "Some("@ + signed_decimal(c) + ")"@,
        None => "None"@,
    }
}

/// The message of a command that could not be started.
pub open spec fn spawn_message(program: Seq<char>, error: Seq<char>) -> Seq<char> {
    "Failed to execute `"@ + program + "`: "@ + error
}

/// `text`, or `fallback` when `text` is empty.
pub open spec fn or_else(text: Seq<char>, fallback: Seq<char>) -> Seq<char> {
    if text.len() > 0 {
        text
    } else {
        fallback
    }
}

/// The outputs of the outcomes can be decoded as a Windows text.
pub open spec fn outputs_bounded(outcomes: Seq<OutcomeView>) -> bool {
    forall|i: int|
        0 <= i < outcomes.len() ==> (#[trigger] outcomes[i] matches OutcomeView::Finished {
            stdout,
            stderr,
            ..
        } ==> stdout.len() <= max_decoded_input() && stderr.len() <= max_decoded_input())
}

/// The command that the Linux search tries at step `k`.
pub open spec fn linux_candidate(k: int) -> (Seq<char>, Seq<Seq<char>>) {
    if k == 0 {
        ("resolvectl"@, seq!["flush-caches"@])
    } else if k == 1 {
        ("systemd-resolve"@, seq!["--flush-caches"@])
    } else if k == 2 {
        ("service"@, seq!["nscd"@, "restart"@])
    } else {
        ("service"@, seq!["dnsmasq"@, "restart"@])
    }
}

/// The Linux search from step `k` on, with `last_error` the error of the
/// step before: each candidate is tried in turn until one succeeds; the
/// error of the last failure is returned when none does.
pub open spec fn linux_decision(outcomes: Seq<OutcomeView>, k: int, last_error: Option<Seq<char>>) -> StepView
    decreases 4 - k,
{
    if k < 0 || k >= 4 {
        StepView::Done(
            Err(
                match last_error {
                    Some(e) => e,
                    None => "Could not find a supported DNS cache flush command on this Linux system"@,
                },
            ),
        )
    } else if k >= outcomes.len() {
        StepView::Run(linux_candidate(k).0, linux_candidate(k).1)
    } else {
        let program = linux_candidate(k).0;
        match outcomes[k] {
            OutcomeView::SpawnFailed(e) => linux_decision(
                outcomes,
                k + 1,
                Some(spawn_message(program, e)),
            ),
            OutcomeView::Finished { success, code, stdout, stderr } => if success {
                StepView::Done(
                    Ok(
                        or_else(
                            shell_text(stdout, false),
                            "DNS cache flushed with `"@ + program + "`"@,
                        ),
                    ),
                )
            } else {
                linux_decision(
                    outcomes,
                    k + 1,
                    Some(
                        or_else(
                            shell_text(stderr, false),
                            "`"@ + program + "` failed with exit code "@ + debug_code(code),
                        ),
                    ),
                )
            },
        }
    }
}

/// What to do next on macOS: clear the directory service cache, then
/// restart the DNS responder; stop at the first failure.
pub open spec fn macos_decision(outcomes: Seq<OutcomeView>) -> StepView {
    if outcomes.len() == 0 {
        StepView::Run("dscacheutil"@, seq!["-flushcache"@])
    } else {
        match outcomes[0] {
            OutcomeView::SpawnFailed(e) => StepView::Done(Err(spawn_message("dscacheutil"@, e))),
            OutcomeView::Finished { success, stderr, .. } => if !success {
                StepView::Done(
                    Err(or_else(shell_text(stderr, false), "Failed to flush the macOS DNS cache"@)),
                )
            } else if outcomes.len() == 1 {
                StepView::Run("killall"@, seq!["-HUP"@, "mDNSResponder"@])
            } else {
                match outcomes[1] {
                    OutcomeView::SpawnFailed(e) => StepView::Done(
                        Err(spawn_message("killall"@, e)),
                    ),
                    OutcomeView::Finished { success, stderr, .. } => if !success {
                        StepView::Done(
                            Err(or_else(shell_text(stderr, false), "Failed to restart mDNSResponder"@)),
                        )
                    } else {
                        StepView::Done(Ok("DNS cache flushed"@))
                    },
                }
            },
        }
    }
}

/// What to do next on Windows: run `ipconfig /flushdns` and report its
/// output.
pub open spec fn windows_decision(outcomes: Seq<OutcomeView>) -> StepView {
    if outcomes.len() == 0 {
        StepView::Run("ipconfig"@, seq!["/flushdns"@])
    } else {
        match outcomes[0] {
            OutcomeView::SpawnFailed(e) => StepView::Done(Err(spawn_message("ipconfig"@, e))),
            OutcomeView::Finished { success, code, stdout, stderr } => if success {
                StepView::Done(Ok(or_else(shell_text(stdout, true), "DNS cache flushed"@)))
            } else {
                StepView::Done(
                    Err(
                        or_else(
                            shell_text(stderr, true),
                            "Failed to flush the DNS cache. Exit code: "@ + debug_code(code),
                        ),
                    ),
                )
            },
        }
    }
}

/// What to do next, given the outcomes of the commands run so far.
pub open spec fn flush_decision(platform: DnsPlatform, outcomes: Seq<OutcomeView>) -> StepView {
    match platform {
        DnsPlatform::Windows => windows_decision(outcomes),
        DnsPlatform::MacOs => macos_decision(outcomes),
        DnsPlatform::Linux => linux_decision(outcomes, 0, None),
        DnsPlatform::Other => StepView::Done(
            Err("DNS cache flushing is not supported on this platform"@),
        ),
    }
}

/// The views of a sequence of outcomes.
pub open spec fn outcome_views(outcomes: Seq<CommandOutcome>) -> Seq<OutcomeView> {
    outcomes.map_values(|o: CommandOutcome| o@)
}

// ---------------------------------------------------------------------
// Laws of the Linux search
// ---------------------------------------------------------------------

/// A command that could not be started, or that ran and failed.
pub open spec fn failed(o: OutcomeView) -> bool {
    match o {
        OutcomeView::SpawnFailed(_) => true,
        OutcomeView::Finished { success, .. } => !success,
    }
}

proof fn lemma_linux_after_failures(outcomes: Seq<OutcomeView>, k: int, e: Option<Seq<char>>)
    requires
        0 <= k <= outcomes.len() < 4,
        forall|i: int| 0 <= i < outcomes.len() ==> failed(#[trigger] outcomes[i]),
    ensures
        linux_decision(outcomes, k, e) == StepView::Run(
            linux_candidate(outcomes.len() as int).0,
            linux_candidate(outcomes.len() as int).1,
        ),
    decreases outcomes.len() - k,
{
    if k < outcomes.len() {
        assert(failed(outcomes[k]));
        match outcomes[k] {
            OutcomeView::SpawnFailed(m) => {
                lemma_linux_after_failures(
                    outcomes,
                    k + 1,
                    Some(spawn_message(linux_candidate(k).0, m)),
                );
            },
            OutcomeView::Finished { success, code, stdout, stderr } => {
                lemma_linux_after_failures(
                    outcomes,
                    k + 1,
                    Some(
                        or_else(
                            shell_text(stderr, false),
                            "`"@ + linux_candidate(k).0 + "` failed with exit code "@ + debug_code(
                                code,
                            ),
                        ),
                    ),
                );
            },
        }
    }
}

/// On Linux, while fewer than four commands have run and each of them
/// failed (could not start, or ran and failed), the next candidate is
/// run: `resolvectl`, then `systemd-resolve`, then `nscd`, then `dnsmasq`.
pub proof fn law_linux_tries_next_candidate(outcomes: Seq<OutcomeView>)
    requires
        outcomes.len() < 4,
        forall|i: int| 0 <= i < outcomes.len() ==> failed(#[trigger] outcomes[i]),
    ensures
        flush_decision(DnsPlatform::Linux, outcomes) == StepView::Run(
            linux_candidate(outcomes.len() as int).0,
            linux_candidate(outcomes.len() as int).1,
        ),
{
    lemma_linux_after_failures(outcomes, 0, None);
}

proof fn lemma_linux_success_after_failures(outcomes: Seq<OutcomeView>, k: int, j: int, e: Option<Seq<char>>)
    requires
        0 <= k <= j < 4,
        j < outcomes.len(),
        forall|i: int| 0 <= i < j ==> failed(#[trigger] outcomes[i]),
        !failed(outcomes[j]),
    ensures
        linux_decision(outcomes, k, e) matches StepView::Done(Ok(_)),
    decreases j - k,
{
    if k < j {
        assert(failed(outcomes[k]));
        match outcomes[k] {
            OutcomeView::SpawnFailed(m) => {
                lemma_linux_success_after_failures(
                    outcomes,
                    k + 1,
                    j,
                    Some(spawn_message(linux_candidate(k).0, m)),
                );
            },
            OutcomeView::Finished { success, code, stdout, stderr } => {
                lemma_linux_success_after_failures(
                    outcomes,
                    k + 1,
                    j,
                    Some(
                        or_else(
                            shell_text(stderr, false),
                            "`"@ + linux_candidate(k).0 + "` failed with exit code "@ + debug_code(
                                code,
                            ),
                        ),
                    ),
                );
            },
        }
    }
}

/// On Linux, the first of the four candidates that runs and succeeds ends
/// the search with success, whatever failed before it.
pub proof fn law_linux_first_success_flushes(outcomes: Seq<OutcomeView>, j: int)
    requires
        0 <= j < 4,
        j < outcomes.len(),
        forall|i: int| 0 <= i < j ==> failed(#[trigger] outcomes[i]),
        !failed(outcomes[j]),
    ensures
        flush_decision(DnsPlatform::Linux, outcomes) matches StepView::Done(Ok(_)),
{
    lemma_linux_success_after_failures(outcomes, 0, j, None);
}

// ---------------------------------------------------------------------
// Implementation
// ---------------------------------------------------------------------

/// A command with one argument.
fn run_with(program: &str, arg: &str) -> (r: FlushStep)
    ensures
        r@ == StepView::Run(program@, seq![arg@]),
{
    let mut args: Vec<String> = Vec::new();
    args.push(arg.to_owned());
    assert(texts_of(args@) =~= seq![arg@]);
    FlushStep::Run(CommandRequest { program: program.to_owned(), args })
}

/// A command with two arguments.
fn run_with_two(program: &str, first: &str, second: &str) -> (r: FlushStep)
    ensures
        r@ == StepView::Run(program@, seq![first@, second@]),
{
    let mut args: Vec<String> = Vec::new();
    args.push(first.to_owned());
    args.push(second.to_owned());
    assert(texts_of(args@) =~= seq![first@, second@]);
    FlushStep::Run(CommandRequest { program: program.to_owned(), args })
}

/// `s` followed by `t`.
fn concat(s: &str, t: &str) -> (r: String)
    ensures
        r@ == s@ + t@,
{
    let mut out = s.to_owned();
    out.append(t);
    out
}

/// `c` in decimal with its sign.
fn signed_decimal_of(c: i32) -> (r: String)
    ensures
        r@ == signed_decimal(c),
{
    if c < 0 {
        let magnitude: u64 = (0i64 - (c as i64)) as u64;
        let digits = decimal_of(magnitude);
        let mut out: Vec<char> = Vec::new();
        out.push('-');
        let ghost before = out@;
        crate::text::extend_range(&mut out, &digits, 0, digits.len());
        assert(digits@.subrange(0, digits@.len() as int) =~= digits@);
        assert(out@ =~= seq!['-'] + decimal((-c) as nat));
        string_of(&out)
    } else {
        string_of(&decimal_of(c as u64))
    }
}

/// How `{:?}` prints an optional exit code.
fn debug_code_text(code: Option<i32>) -> (r: String)
    ensures
        r@ == debug_code(code),
{
    match code {
        Some(c) => {
            let inner = signed_decimal_of(c);
            let with_open = concat("Some(", inner.as_str());
            concat(with_open.as_str(), ")")
        },
        None => "None".to_owned(),
    }
}

/// The decoded `text`, or `fallback` when it is empty.
fn text_or(bytes: &Vec<u8>, windows: bool, fallback: String) -> (r: String)
    requires
        windows ==> bytes@.len() <= max_decoded_input(),
    ensures
        r@ == or_else(shell_text(bytes@, windows), fallback@),
{
    let text = decode_shell_output(bytes, windows);
    if text.as_str().is_empty() {
        fallback
    } else {
        text
    }
}

/// The message of a command that could not be started.
fn spawn_error(program: &str, error: &String) -> (r: String)
    ensures
        r@ == spawn_message(program@, error@),
{
    let a = concat("Failed to execute `", program);
    let b = concat(a.as_str(), "`: ");
    concat(b.as_str(), error.as_str())
}

/// The Linux search from step `k` on.
fn linux_step(outcomes: &Vec<CommandOutcome>, k: usize, last_error: Option<String>) -> (r: FlushStep)
    requires
        k <= 4,
    ensures
        r@ == linux_decision(
            outcome_views(outcomes@),
            k as int,
            match last_error {
                Some(e) => Some(e@),
                None => None,
            },
        ),
    decreases 4 - k,
{
    let ghost views = outcome_views(outcomes@);
    if k >= 4 {
        let message = match last_error {
            Some(e) => e,
            None => "Could not find a supported DNS cache flush command on this Linux system".to_owned(),
        };
        return FlushStep::Done(Err(message));
    }
    let program: &str = if k == 0 {
        "resolvectl"
    } else if k == 1 {
        "systemd-resolve"
    } else {
        "service"
    };
    assert(program@ == linux_candidate(k as int).0);
    if k >= outcomes.len() {
        let r = if k == 0 {
            run_with("resolvectl", "flush-caches")
        } else if k == 1 {
            run_with("systemd-resolve", "--flush-caches")
        } else if k == 2 {
            run_with_two("service", "nscd", "restart")
        } else {
            run_with_two("service", "dnsmasq", "restart")
        };
        return r;
    }
    assert(views[k as int] == outcomes@[k as int]@);
    match &outcomes[k] {
        CommandOutcome::SpawnFailed(e) => {
            let message = spawn_error(program, e);
            linux_step(outcomes, k + 1, Some(message))
        },
        CommandOutcome::Finished { success, code, stdout, stderr } => {
            assert(views[k as int] matches OutcomeView::Finished { .. });
            if *success {
                let a = concat("DNS cache flushed with `", program);
                let fallback = concat(a.as_str(), "`");
                FlushStep::Done(Ok(text_or(stdout, false, fallback)))
            } else {
                let a = concat("`", program);
                let b = concat(a.as_str(), "` failed with exit code ");
                let code_text = debug_code_text(*code);
                let fallback = concat(b.as_str(), code_text.as_str());
                let message = text_or(stderr, false, fallback);
                linux_step(outcomes, k + 1, Some(message))
            }
        },
    }
}

/// What to do next to flush the DNS cache on `platform`, given the outcomes
/// of the commands run so far, in the order they were asked for: run
/// another command, or stop with a message of success or the error.
pub fn flush_dns(platform: DnsPlatform, outcomes: &Vec<CommandOutcome>) -> (step: FlushStep)
    requires
        platform is Windows ==> outputs_bounded(outcome_views(outcomes@)),
    ensures
        step@ == flush_decision(platform, outcome_views(outcomes@)),
{
    let ghost views = outcome_views(outcomes@);
    match platform {
        DnsPlatform::Windows => {
            if outcomes.len() == 0 {
                return run_with("ipconfig", "/flushdns");
            }
            assert(views[0] == outcomes@[0]@);
            match &outcomes[0] {
                CommandOutcome::SpawnFailed(e) => FlushStep::Done(Err(spawn_error("ipconfig", e))),
                CommandOutcome::Finished { success, code, stdout, stderr } => {
                    if *success {
                        FlushStep::Done(Ok(text_or(stdout, true, "DNS cache flushed".to_owned())))
                    } else {
                        let code_text = debug_code_text(*code);
                        let fallback = concat(
                            "Failed to flush the DNS cache. Exit code: ",
                            code_text.as_str(),
                        );
                        FlushStep::Done(Err(text_or(stderr, true, fallback)))
                    }
                },
            }
        },
        DnsPlatform::MacOs => {
            if outcomes.len() == 0 {
                return run_with("dscacheutil", "-flushcache");
            }
            assert(views[0] == outcomes@[0]@);
            match &outcomes[0] {
                CommandOutcome::SpawnFailed(e) => {
                    return FlushStep::Done(Err(spawn_error("dscacheutil", e)));
                },
                CommandOutcome::Finished { success, stderr, .. } => {
                    if !*success {
                        return FlushStep::Done(
                            Err(
                                text_or(
                                    stderr,
                                    false,
                                    "Failed to flush the macOS DNS cache".to_owned(),
                                ),
                            ),
                        );
                    }
                },
            }
            if outcomes.len() == 1 {
                return run_with_two("killall", "-HUP", "mDNSResponder");
            }
            assert(views[1] == outcomes@[1]@);
            match &outcomes[1] {
                CommandOutcome::SpawnFailed(e) => FlushStep::Done(Err(spawn_error("killall", e))),
                CommandOutcome::Finished { success, stderr, .. } => {
                    if !*success {
                        FlushStep::Done(
                            Err(text_or(stderr, false, "Failed to restart mDNSResponder".to_owned())),
                        )
                    } else {
                        FlushStep::Done(Ok("DNS cache flushed".to_owned()))
                    }
                },
            }
        },
        DnsPlatform::Linux => linux_step(outcomes, 0, None),
        DnsPlatform::Other => FlushStep::Done(
            Err("DNS cache flushing is not supported on this platform".to_owned()),
        ),
    }
}

} // verus!
