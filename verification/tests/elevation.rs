use x_hosts::dns_service::CommandOutcome;
use x_hosts::elevation::{
    elevation_probe_command, ensure_admin_startup, is_elevated, relaunch_already_attempted,
    relaunch_command, relaunch_result, should_auto_elevate, should_try_relaunch, ElevationPlatform,
    StartupStep, ELEVATION_ATTEMPT_ARG, ELEVATION_ATTEMPT_ENV,
};

#[test]
fn debug_build_should_not_auto_elevate() {
    let debug_build = true;
    if debug_build {
        assert!(!should_auto_elevate(true, debug_build));
        assert!(!should_auto_elevate(false, debug_build));
    }
}

#[test]
fn should_have_stable_relaunch_flag_arg() {
    assert_eq!(ELEVATION_ATTEMPT_ARG, "--xhosts-elevation-attempted");
}

#[test]
fn should_not_try_relaunch_when_already_admin() {
    assert!(!should_try_relaunch(true, true, false));
    assert!(!should_try_relaunch(true, false, false));
}

#[test]
fn should_detect_relaunch_attempt_env() {
    assert!(relaunch_already_attempted(Some("1"), &Vec::new()));
    assert!(!relaunch_already_attempted(Some("0"), &Vec::new()));
    assert!(!relaunch_already_attempted(None, &vec!["app".to_string()]));
    assert!(relaunch_already_attempted(
        None,
        &vec!["app".to_string(), "--xhosts-elevation-attempted".to_string()]
    ));
    assert_eq!(ELEVATION_ATTEMPT_ENV, "XHOSTS_ELEVATION_ATTEMPTED");
}

#[test]
fn relaunch_decisions() {
    assert!(should_try_relaunch(false, true, false));
    assert!(!should_try_relaunch(false, true, true));
    assert!(should_auto_elevate(true, false));
    assert_eq!(ensure_admin_startup(false, None, false, None), StartupStep::Done(false));
    assert_eq!(ensure_admin_startup(true, None, false, None), StartupStep::ProbeElevation);
    assert_eq!(ensure_admin_startup(true, Some(true), false, None), StartupStep::Done(true));
    assert_eq!(ensure_admin_startup(true, Some(false), true, None), StartupStep::Done(false));
    assert_eq!(ensure_admin_startup(true, Some(false), false, None), StartupStep::Relaunch);
    assert_eq!(ensure_admin_startup(true, Some(false), false, Some(true)), StartupStep::Exit);
    assert_eq!(ensure_admin_startup(true, Some(false), false, Some(false)), StartupStep::Done(false));
}

fn finished(success: bool, stdout: &str) -> CommandOutcome {
    CommandOutcome::Finished {
        success,
        code: Some(if success { 0 } else { 1 }),
        stdout: stdout.as_bytes().to_vec(),
        stderr: Vec::new(),
    }
}

#[test]
fn is_elevated_reads_the_probe() {
    assert!(is_elevated(ElevationPlatform::Unix, Some(&finished(true, "0\n"))));
    assert!(!is_elevated(ElevationPlatform::Unix, Some(&finished(true, "1000\n"))));
    assert!(!is_elevated(ElevationPlatform::Unix, Some(&finished(false, "0\n"))));
    assert!(is_elevated(ElevationPlatform::Windows, Some(&finished(true, "True\r\n"))));
    assert!(!is_elevated(ElevationPlatform::Windows, Some(&finished(true, "False\r\n"))));
    assert!(!is_elevated(ElevationPlatform::Windows, Some(&CommandOutcome::SpawnFailed("no".into()))));
    assert!(!is_elevated(ElevationPlatform::Other, None));
    let probe = elevation_probe_command(ElevationPlatform::Unix).expect("command");
    assert_eq!(probe.program, "id");
    assert_eq!(probe.args, vec!["-u".to_string()]);
    assert!(elevation_probe_command(ElevationPlatform::Other).is_none());
}

#[test]
fn relaunch_command_and_result() {
    let command = relaunch_command(Some(r"C:\x\app.exe"), None).expect("command");
    assert_eq!(command.program, "powershell");
    assert_eq!(
        command.args[2],
        r"$env:XHOSTS_ELEVATION_ATTEMPTED='1'; Start-Process -FilePath 'C:\x\app.exe' -WorkingDirectory 'C:\' -Verb RunAs -ArgumentList '--xhosts-elevation-attempted'"
    );
    assert_eq!(
        relaunch_command(None, Some("C:\\")).unwrap_err(),
        "The current executable path contains invalid characters"
    );
    assert!(relaunch_result(true).is_ok());
    assert_eq!(
        relaunch_result(false).unwrap_err(),
        "The user canceled or the system denied the UAC elevation request"
    );
}
