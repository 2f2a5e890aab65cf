use x_hosts::hosts_parser::{make_id, parse_hosts, parse_mapping, render_hosts};
use x_hosts::models::{HostEntry, HostsLine};

#[test]
fn parse_and_render_toggle_roundtrip() {
    let content = "127.0.0.1 example.local\n# 127.0.0.1 disabled.local\n";
    let mut lines = parse_hosts(content);
    let parsed = lines
        .iter()
        .filter_map(|line| match line {
            HostsLine::Managed(e) => Some((e.domain.clone(), e.enabled)),
            HostsLine::Raw(_) => None,
        })
        .collect::<Vec<_>>();
    assert_eq!(
        parsed,
        vec![
            ("example.local".into(), true),
            ("disabled.local".into(), false)
        ]
    );

    for line in &mut lines {
        if let HostsLine::Managed(entry) = line {
            if entry.domain == "example.local" {
                entry.enabled = false;
            }
        }
    }

    let rendered = render_hosts(&lines);
    assert!(rendered.contains("# 127.0.0.1 example.local"));
}

fn mapping_tuples(lines: &[HostsLine]) -> Vec<(String, String, bool)> {
    lines
        .iter()
        .filter_map(|line| match line {
            HostsLine::Managed(e) => Some((e.ip.clone(), e.domain.clone(), e.enabled)),
            HostsLine::Raw(_) => None,
        })
        .collect()
}

#[test]
fn parse_classifies_lines() {
    let content = "# comment\n\n  127.0.0.1   a.local  b.local \n#10.0.0.1 c.local\nlocalhost\n";
    let lines = parse_hosts(content);
    assert_eq!(lines.len(), 6);
    assert_eq!(lines[0], HostsLine::Raw("# comment".to_string()));
    assert_eq!(lines[1], HostsLine::Raw(String::new()));
    assert_eq!(
        mapping_tuples(&lines),
        vec![
            ("127.0.0.1".to_string(), "a.local".to_string(), true),
            ("127.0.0.1".to_string(), "b.local".to_string(), true),
            ("10.0.0.1".to_string(), "c.local".to_string(), false),
        ]
    );
    assert_eq!(lines[5], HostsLine::Raw("localhost".to_string()));
}

#[test]
fn parse_reads_windows_line_endings() {
    let lines = parse_hosts("1.1.1.1 a.com\r\n\r\n");
    assert_eq!(lines.len(), 2);
    assert_eq!(mapping_tuples(&lines), vec![("1.1.1.1".into(), "a.com".into(), true)]);
    assert_eq!(lines[1], HostsLine::Raw(String::new()));
}

#[test]
fn parse_gives_hex_ids_and_is_repeatable() {
    let content = "1.1.1.1 a.com b.com\n";
    let first = parse_hosts(content);
    let second = parse_hosts(content);
    assert_eq!(first, second);
    for line in &first {
        if let HostsLine::Managed(e) = line {
            assert!(!e.id.is_empty() && e.id.len() <= 16);
            assert!(e.id.chars().all(|c| c.is_ascii_hexdigit() && !c.is_ascii_uppercase()));
        }
    }
    assert_eq!(make_id("1.1.1.1", "a.com", 0), make_id("1.1.1.1", "a.com", 0));
    assert_ne!(make_id("1.1.1.1", "a.com", 0), make_id("a.com", "1.1.1.1", 0));
    assert_ne!(make_id("1.1.1.1", "a.com", 0), make_id("1.1.1.1", "a.com", 1));
    let ids: Vec<String> = first
        .iter()
        .filter_map(|l| match l {
            HostsLine::Managed(e) => Some(e.id.clone()),
            HostsLine::Raw(_) => None,
        })
        .collect();
    assert_eq!(ids, vec![make_id("1.1.1.1", "a.com", 0), make_id("1.1.1.1", "b.com", 0)]);
    let later = parse_hosts("\n# 2.2.2.2 c.com\n");
    match &later[1] {
        HostsLine::Managed(e) => assert_eq!(e.id, make_id("2.2.2.2", "c.com", 1)),
        HostsLine::Raw(_) => panic!("expected a mapping"),
    }
}

#[test]
fn render_writes_each_line() {
    let lines = vec![
        HostsLine::Raw("  # kept as is".to_string()),
        HostsLine::Managed(HostEntry {
            id: "x".into(),
            ip: "10.0.0.1".into(),
            domain: "a.local".into(),
            enabled: false,
        }),
        HostsLine::Managed(HostEntry {
            id: "y".into(),
            ip: "10.0.0.2".into(),
            domain: "b.local".into(),
            enabled: true,
        }),
    ];
    assert_eq!(render_hosts(&lines), "  # kept as is\n# 10.0.0.1 a.local\n10.0.0.2 b.local");
    assert_eq!(render_hosts(&[]), "");
}

#[test]
fn rewrite_keeps_mappings() {
    let content = "127.0.0.1 localhost\n#  ::1   a b\r\r\n\n# note\n2.2.2.2 c\n\n";
    let once = parse_hosts(content);
    let again = parse_hosts(&render_hosts(&once));
    assert_eq!(mapping_tuples(&again), mapping_tuples(&once));
    // The empty last line is not written back.
    assert_eq!(again.len(), once.len() - 1);
}

#[test]
fn parse_mapping_needs_two_words() {
    let one: Vec<char> = "localhost".chars().collect();
    assert!(parse_mapping(&one).is_none());
    let three: Vec<char> = " 1.2.3.4 a  b ".chars().collect();
    let (ip, domains) = parse_mapping(&three).expect("mapping");
    assert_eq!(ip.iter().collect::<String>(), "1.2.3.4");
    let domains: Vec<String> = domains.iter().map(|d| d.iter().collect()).collect();
    assert_eq!(domains, vec!["a".to_string(), "b".to_string()]);
}

#[test]
fn rewrite_reads_the_same_lines() {
    let content = "127.0.0.1 a b\n\n# 10.0.0.1 c\n  # just text\nlast";
    let once = parse_hosts(content);
    let twice = parse_hosts(&render_hosts(&once));
    assert_eq!(once.len(), twice.len());
    for (x, y) in once.iter().zip(twice.iter()) {
        match (x, y) {
            (HostsLine::Raw(a), HostsLine::Raw(b)) => assert_eq!(a, b),
            (HostsLine::Managed(a), HostsLine::Managed(b)) => {
                assert_eq!((&a.ip, &a.domain, a.enabled), (&b.ip, &b.domain, b.enabled))
            }
            _ => panic!("the kinds of the lines differ"),
        }
    }
}
