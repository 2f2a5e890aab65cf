use x_hosts::diagnostic_log::{
    content_summary, content_summary_with_hash, fingerprint, format_log_line, frontend_log_line,
    log_event_line,
};

#[test]
fn content_summary_reports_key_markers() {
    let content =
        "127.0.0.1 localhost\n#Github Hosts Start\n1.1.1.1 a.com\n#Github Hosts End\n";
    let summary = content_summary(content);
    assert!(summary.contains("len="));
    assert!(summary.contains("lines=4"));
    assert!(summary.contains("github_start=1"));
    assert!(summary.contains("github_end=1"));
}

#[test]
fn content_summary_with_hash_exact() {
    let content = "\n  \n say \"hi\" \n#Github Hosts Start\n";
    let summary = content_summary_with_hash(content, 0xab);
    assert_eq!(
        summary,
        "len=35 lines=4 github_start=1 github_end=0 hash=00000000000000ab first_line=\" say 'hi' \""
    );
    let long = "x".repeat(100);
    let summary = content_summary_with_hash(&long, u64::MAX);
    assert!(summary.ends_with(&format!("hash=ffffffffffffffff first_line=\"{}\"", "x".repeat(80))));
    assert_eq!(content_summary_with_hash("", 1), "len=0 lines=0 github_start=0 github_end=0 hash=0000000000000001 first_line=\"\"");
}

#[test]
fn content_summary_counts_bytes_and_uses_a_fingerprint() {
    let summary = content_summary("é");
    assert!(summary.starts_with("len=2 lines=1 "));
    let f = fingerprint("é");
    assert_eq!(f.len(), 16);
    assert!(summary.contains(&format!("hash={f} ")));
    assert_eq!(fingerprint("abc"), fingerprint("abc"));
    assert_ne!(fingerprint("abc"), fingerprint(""));
    assert_eq!(
        content_summary("abc"),
        content_summary_with_hash("abc", u64::from_str_radix(&fingerprint("abc"), 16).unwrap())
    );
}

#[test]
fn log_lines() {
    assert_eq!(
        format_log_line("2024-01-01 00:00:00.000", "backend", "save_hosts_text:start", "path=C:/Windows/System32/drivers/etc/hosts"),
        "[2024-01-01 00:00:00.000] [backend] save_hosts_text:start path=C:/Windows/System32/drivers/etc/hosts"
    );
    let line = log_event_line("backend", "save_hosts_text:start", "path=C:/Windows/System32/drivers/etc/hosts");
    assert!(line.starts_with('['));
    let stamp = &line[1..24];
    assert_eq!(&line[24..26], "] ");
    for (i, c) in stamp.chars().enumerate() {
        match i {
            4 | 7 => assert_eq!(c, '-'),
            10 => assert_eq!(c, ' '),
            13 | 16 => assert_eq!(c, ':'),
            19 => assert_eq!(c, '.'),
            _ => assert!(c.is_ascii_digit()),
        }
    }
    assert!(line.contains("] [backend] save_hosts_text:start path=C:/Windows/System32/drivers/etc/hosts"));
    assert_eq!(frontend_log_line("ui", "click", "x=1"), "[frontend] [ui] click x=1");
}
