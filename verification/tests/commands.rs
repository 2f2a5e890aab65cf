use x_hosts::codec::decode_shell_output;
use x_hosts::commands::{sync_success_message, AppState};

#[test]
fn app_state_uses_override_or_default() {
    assert_eq!(AppState::new(Some("/tmp/hosts"), false).hosts_path, "/tmp/hosts");
    assert_eq!(AppState::new(None, false).hosts_path, "/etc/hosts");
    assert_eq!(sync_success_message(), "Remote hosts synced successfully");
}

#[test]
fn shell_output_is_decoded_and_trimmed() {
    assert_eq!(decode_shell_output(b"  done \n", false), "done");
    assert_eq!(decode_shell_output(&[0xff, b'a'], false), "\u{fffd}a");
    assert_eq!(decode_shell_output(&[b' ', 0xD6, 0xD0, 0xCE, 0xC4, b'\r', b'\n'], true), "中文");
}
