use x_hosts::dns_service::{flush_dns, CommandOutcome, DnsPlatform, FlushStep};

fn done(step: FlushStep) -> Result<String, String> {
    match step {
        FlushStep::Done(result) => result,
        FlushStep::Run(r) => panic!("expected a result, got a request for {}", r.program),
    }
}

fn run(step: FlushStep) -> (String, Vec<String>) {
    match step {
        FlushStep::Run(r) => (r.program, r.args),
        FlushStep::Done(result) => panic!("expected a request, got {result:?}"),
    }
}

fn finished(success: bool, code: Option<i32>, stdout: &str, stderr: &str) -> CommandOutcome {
    CommandOutcome::Finished {
        success,
        code,
        stdout: stdout.as_bytes().to_vec(),
        stderr: stderr.as_bytes().to_vec(),
    }
}

#[test]
fn windows_flush() {
    assert_eq!(run(flush_dns(DnsPlatform::Windows, &vec![])), ("ipconfig".into(), vec!["/flushdns".into()]));
    assert_eq!(
        done(flush_dns(DnsPlatform::Windows, &vec![finished(true, Some(0), "  ok \r\n", "")])),
        Ok("ok".into())
    );
    assert_eq!(
        done(flush_dns(DnsPlatform::Windows, &vec![finished(true, Some(0), "", "")])),
        Ok("DNS cache flushed".into())
    );
    assert_eq!(
        done(flush_dns(DnsPlatform::Windows, &vec![finished(false, Some(-5), "", " ")])),
        Err("Failed to flush the DNS cache. Exit code: Some(-5)".into())
    );
    assert_eq!(
        done(flush_dns(DnsPlatform::Windows, &vec![finished(false, None, "", "denied")])),
        Err("denied".into())
    );
    assert_eq!(
        done(flush_dns(DnsPlatform::Windows, &vec![CommandOutcome::SpawnFailed("not found".into())])),
        Err("Failed to execute `ipconfig`: not found".into())
    );
}

#[test]
fn macos_flush() {
    assert_eq!(run(flush_dns(DnsPlatform::MacOs, &vec![])).0, "dscacheutil");
    let first = finished(true, Some(0), "", "");
    assert_eq!(
        run(flush_dns(DnsPlatform::MacOs, &vec![finished(true, Some(0), "", "")])),
        ("killall".into(), vec!["-HUP".into(), "mDNSResponder".into()])
    );
    assert_eq!(
        done(flush_dns(DnsPlatform::MacOs, &vec![first, finished(true, Some(0), "", "")])),
        Ok("DNS cache flushed".into())
    );
    assert_eq!(
        done(flush_dns(DnsPlatform::MacOs, &vec![finished(false, Some(1), "", "")])),
        Err("Failed to flush the macOS DNS cache".into())
    );
    assert_eq!(
        done(flush_dns(
            DnsPlatform::MacOs,
            &vec![finished(true, Some(0), "", ""), finished(false, Some(1), "", "")]
        )),
        Err("Failed to restart mDNSResponder".into())
    );
}

#[test]
fn linux_flush_tries_each_command() {
    assert_eq!(run(flush_dns(DnsPlatform::Linux, &vec![])).0, "resolvectl");
    let mut outcomes = vec![CommandOutcome::SpawnFailed("missing".into())];
    assert_eq!(
        run(flush_dns(DnsPlatform::Linux, &outcomes)),
        ("systemd-resolve".into(), vec!["--flush-caches".into()])
    );
    outcomes.push(finished(false, Some(2), "", ""));
    assert_eq!(
        run(flush_dns(DnsPlatform::Linux, &outcomes)),
        ("service".into(), vec!["nscd".into(), "restart".into()])
    );
    outcomes.push(finished(false, None, "", "nscd: unrecognized service"));
    assert_eq!(
        run(flush_dns(DnsPlatform::Linux, &outcomes)),
        ("service".into(), vec!["dnsmasq".into(), "restart".into()])
    );
    let mut failing = outcomes.clone_outcomes();
    failing.push(finished(false, Some(1), "", ""));
    assert_eq!(
        done(flush_dns(DnsPlatform::Linux, &failing)),
        Err("`service` failed with exit code Some(1)".into())
    );
    outcomes.push(finished(true, Some(0), "", ""));
    assert_eq!(
        done(flush_dns(DnsPlatform::Linux, &outcomes)),
        Ok("DNS cache flushed with `service`".into())
    );
    assert_eq!(
        done(flush_dns(DnsPlatform::Linux, &vec![finished(true, Some(0), "flushed\n", "")])),
        Ok("flushed".into())
    );
}

#[test]
fn other_platforms_cannot_flush() {
    assert_eq!(
        done(flush_dns(DnsPlatform::Other, &vec![])),
        Err("DNS cache flushing is not supported on this platform".into())
    );
}

trait CloneOutcomes {
    fn clone_outcomes(&self) -> Vec<CommandOutcome>;
}

impl CloneOutcomes for Vec<CommandOutcome> {
    fn clone_outcomes(&self) -> Vec<CommandOutcome> {
        self.iter()
            .map(|o| match o {
                CommandOutcome::SpawnFailed(e) => CommandOutcome::SpawnFailed(e.clone()),
                CommandOutcome::Finished { success, code, stdout, stderr } => CommandOutcome::Finished {
                    success: *success,
                    code: *code,
                    stdout: stdout.clone(),
                    stderr: stderr.clone(),
                },
            })
            .collect()
    }
}
