use x_hosts::codec::decode_windows_text;
use x_hosts::hosts_parser::{parse_hosts, render_hosts};
use x_hosts::hosts_service::{
    add_entry, delete_entry, extract_remote_block, hosts_path, list_entries,
    normalize_remote_hosts_url, replace_or_append_github_block, temp_file_name, toggle_entry,
    validate_new_entry,
};
use x_hosts::models::HostsLine;

#[test]
fn replace_existing_github_block() {
    let local = "127.0.0.1 localhost\n#Github Hosts Start\n1.1.1.1 a.com\n#Github Hosts End\n";
    let remote = "#Github Hosts Start\n2.2.2.2 b.com\n#Github Hosts End\n";
    let merged = replace_or_append_github_block(local, remote);
    assert!(merged.contains("2.2.2.2 b.com"));
    assert!(!merged.contains("1.1.1.1 a.com"));
}

#[test]
fn append_github_block_when_missing() {
    let local = "127.0.0.1 localhost\n";
    let remote = "#Github Hosts Start\n2.2.2.2 b.com\n#Github Hosts End\n";
    let merged = replace_or_append_github_block(local, remote);
    assert!(merged.starts_with("127.0.0.1 localhost"));
    assert!(merged.contains("#Github Hosts Start"));
    assert!(merged.contains("#Github Hosts End"));
}

#[test]
fn extract_remote_block_success() {
    let remote = "aaa\n#Github Hosts Start\n1.1.1.1 a.com\n#Github Hosts End\nbbb\n";
    let block = extract_remote_block(remote).expect("extract block");
    assert!(block.starts_with("#Github Hosts Start"));
    assert!(block.contains("1.1.1.1 a.com"));
    assert!(block.ends_with("#Github Hosts End\n"));
}

fn mappings_of(text: &str) -> Vec<(String, String, bool)> {
    list_entries(&parse_hosts(text))
        .into_iter()
        .map(|e| (e.ip, e.domain, e.enabled))
        .collect()
}

#[test]
fn add_and_toggle_entry() {
    let file = "127.0.0.1 localhost\n";
    let mut lines = parse_hosts(file);
    add_entry(&mut lines, "127.0.0.1", true, "example.local").expect("add entry");
    let file = render_hosts(&lines);

    let entries = list_entries(&parse_hosts(&file));
    let entry = entries
        .iter()
        .find(|x| x.domain == "example.local")
        .expect("find created entry");

    let mut lines = parse_hosts(&file);
    toggle_entry(&mut lines, &entry.id, false).expect("toggle off");
    let file = render_hosts(&lines);
    let after = list_entries(&parse_hosts(&file));
    let toggled = after
        .iter()
        .find(|x| x.domain == "example.local")
        .expect("find toggled entry");
    assert!(!toggled.enabled);
}

#[test]
fn add_entry_appends_manual_mapping() {
    let mut lines = parse_hosts("127.0.0.1 localhost\n");
    add_entry(&mut lines, "10.0.0.1", true, "new.local").expect("add");
    assert_eq!(lines.len(), 2);
    match &lines[1] {
        HostsLine::Managed(e) => {
            assert_eq!((e.ip.as_str(), e.domain.as_str(), e.enabled), ("10.0.0.1", "new.local", true));
            assert!(e.id.starts_with("manual-"));
            let uuid = &e.id["manual-".len()..];
            assert_eq!(uuid.len(), 36);
            assert_eq!(&uuid[14..15], "4");
        }
        HostsLine::Raw(_) => panic!("expected a mapping"),
    }
}

#[test]
fn add_entry_rejects_duplicate() {
    let mut lines = parse_hosts("# 127.0.0.1 example.local\n");
    let before = lines.clone();
    let err = add_entry(&mut lines, "127.0.0.1", true, "example.local").unwrap_err();
    assert_eq!(err, "This mapping already exists");
    assert_eq!(lines, before);
}

#[test]
fn add_entry_validates_first() {
    let mut lines = parse_hosts("127.0.0.1 localhost\n");
    let before = lines.clone();
    assert_eq!(add_entry(&mut lines, "nope", false, "a.local").unwrap_err(), "Invalid IP address");
    assert_eq!(add_entry(&mut lines, "nope", false, "").unwrap_err(), "Invalid IP address");
    assert_eq!(
        add_entry(&mut lines, "127.0.0.1", true, "").unwrap_err(),
        "The domain cannot be empty"
    );
    assert_eq!(
        add_entry(&mut lines, "127.0.0.1", false, "localhost").unwrap_err(),
        "Invalid IP address"
    );
    assert_eq!(lines, before);
    let mut empty: Vec<HostsLine> = Vec::new();
    assert!(add_entry(&mut empty, "127.0.0.1", true, "").is_err());
    assert!(empty.is_empty());
}

#[test]
fn toggle_twice_restores_file() {
    let file = "127.0.0.1 a.local\n# 10.0.0.1 b.local\n  \nkeep me";
    assert_eq!(render_hosts(&parse_hosts(file)), file);
    let lines = parse_hosts(file);
    let id = list_entries(&lines)[1].id.clone();
    let mut once = lines.clone();
    toggle_entry(&mut once, &id, true).expect("enable");
    let written = render_hosts(&once);
    assert_eq!(written, "127.0.0.1 a.local\n10.0.0.1 b.local\n  \nkeep me");
    let mut again = parse_hosts(&written);
    assert_eq!(list_entries(&again)[1].id, id);
    toggle_entry(&mut again, &id, false).expect("disable");
    assert_eq!(render_hosts(&again), file);
}

#[test]
fn normalize_github_blob_pages() {
    assert_eq!(
        normalize_remote_hosts_url("https://github.com/own/rep/blob/br/"),
        "https://raw.githubusercontent.com/own/rep/br/"
    );
    assert_eq!(
        normalize_remote_hosts_url("https://github.com/own/rep/blob/br/a/b/c"),
        "https://raw.githubusercontent.com/own/rep/br/a/b/c"
    );
    assert_eq!(
        normalize_remote_hosts_url("https://github.com/own/rep/blob/br"),
        "https://github.com/own/rep/blob/br"
    );
    assert_eq!(
        normalize_remote_hosts_url("https://github.com/own/rep/raw/br/x"),
        "https://github.com/own/rep/raw/br/x"
    );
}

#[test]
fn normalize_twice_is_normalize_once() {
    for url in [
        "  https://github.com/o/r/blob/main/hosts  ",
        "https://github.com/o/r/blob/main/",
        "https://github.com/o/r/tree/main/hosts",
        " https://example.com/hosts ",
        "https://github.com/o/r/blob/main/a/b/ ",
        "",
    ] {
        let once = normalize_remote_hosts_url(url);
        assert_eq!(normalize_remote_hosts_url(&once), once);
    }
    assert_eq!(
        normalize_remote_hosts_url(" https://github.com/o/r/blob/main/a/b "),
        "https://raw.githubusercontent.com/o/r/main/a/b"
    );
}

#[test]
fn validate_new_entry_errors() {
    assert_eq!(validate_new_entry(false, "a.local").unwrap_err(), "Invalid IP address");
    assert_eq!(validate_new_entry(false, "").unwrap_err(), "Invalid IP address");
    assert_eq!(validate_new_entry(true, "").unwrap_err(), "The domain cannot be empty");
    assert!(validate_new_entry(true, "a.local").is_ok());
}

#[test]
fn delete_entry_removes_every_line_with_the_id() {
    let mut lines = parse_hosts("1.1.1.1 a.com\n# c\n2.2.2.2 b.com\n");
    let id = match &lines[0] {
        HostsLine::Managed(e) => e.id.clone(),
        HostsLine::Raw(_) => panic!("expected a mapping"),
    };
    delete_entry(&mut lines, &id).expect("delete");
    assert_eq!(render_hosts(&lines), "# c\n2.2.2.2 b.com");
    let before = lines.clone();
    assert_eq!(delete_entry(&mut lines, &id).unwrap_err(), "The target entry was not found");
    assert_eq!(lines, before);
}

#[test]
fn toggle_entry_unknown_id_fails() {
    let mut lines = parse_hosts("1.1.1.1 a.com\n");
    let before = lines.clone();
    assert_eq!(toggle_entry(&mut lines, "nope", false).unwrap_err(), "The target entry was not found");
    assert_eq!(lines, before);
    let id = match &lines[0] {
        HostsLine::Managed(e) => e.id.clone(),
        HostsLine::Raw(_) => panic!("expected a mapping"),
    };
    toggle_entry(&mut lines, &id, false).expect("toggle");
    toggle_entry(&mut lines, &id, true).expect("toggle back");
    assert_eq!(lines, before);
}

#[test]
fn replace_github_block_persists_after_save_and_read() {
    let local = "127.0.0.1 localhost\n#Github Hosts Start\n1.1.1.1 old.example.com\n#Github Hosts End\n192.168.0.1 intranet.local\n";
    let remote = "#Github Hosts Start\n2.2.2.2 new.example.com\n#Github Hosts End\n";
    let merged = replace_or_append_github_block(local, remote);
    let read_back = decode_windows_text(merged.as_bytes());
    assert!(read_back.contains("2.2.2.2 new.example.com"));
    assert!(!read_back.contains("1.1.1.1 old.example.com"));
    assert_eq!(read_back.matches("#Github Hosts Start").count(), 1);
    assert_eq!(read_back.matches("#Github Hosts End").count(), 1);
}

#[test]
fn append_github_block_persists_once_after_save_and_read() {
    let local = "127.0.0.1 localhost\n192.168.0.1 intranet.local\n";
    let remote = "#Github Hosts Start\n2.2.2.2 new.example.com\n#Github Hosts End\n";
    let merged = replace_or_append_github_block(local, remote);
    let read_back = decode_windows_text(merged.as_bytes());
    assert!(read_back.starts_with(local));
    assert!(read_back.contains("2.2.2.2 new.example.com"));
    assert_eq!(read_back.matches("#Github Hosts Start").count(), 1);
    assert_eq!(read_back.matches("#Github Hosts End").count(), 1);
    assert_eq!(read_back.matches("2.2.2.2 new.example.com").count(), 1);
}

#[test]
fn merge_exact_texts() {
    let remote = "#Github Hosts Start\nx\n#Github Hosts End\n";
    assert_eq!(
        replace_or_append_github_block("a\n#Github Hosts Start\nold\n#Github Hosts End\nb\n", remote),
        "a\n#Github Hosts Start\nx\n#Github Hosts End\nb\n"
    );
    assert_eq!(replace_or_append_github_block("a", remote), format!("a\n\n{remote}"));
    assert_eq!(replace_or_append_github_block("", remote), remote);
    // A closing line before the opening line is no block: the block is appended.
    assert_eq!(
        replace_or_append_github_block("#Github Hosts End\n#Github Hosts Start\n", remote),
        format!("#Github Hosts End\n#Github Hosts Start\n\n{remote}")
    );
}

#[test]
fn extract_remote_block_errors() {
    assert_eq!(
        extract_remote_block("a\n#Github Hosts End\n").unwrap_err(),
        "The remote content is missing #Github Hosts Start"
    );
    assert_eq!(
        extract_remote_block("#Github Hosts Start\n").unwrap_err(),
        "The remote content is missing #Github Hosts End"
    );
    assert_eq!(
        extract_remote_block("#Github Hosts End\n#Github Hosts Start\n").unwrap_err(),
        "The GitHub hosts block in the remote content is invalid"
    );
    assert_eq!(
        extract_remote_block("  #Github Hosts Start  \r\nx\n#Github Hosts End").unwrap(),
        "  #Github Hosts Start  \nx\n#Github Hosts End\n"
    );
}

#[test]
fn sync_block_reads_back() {
    let remote = "junk\n#Github Hosts Start\n3.3.3.3 c.com\n#Github Hosts End\nmore\n";
    let block = extract_remote_block(remote).expect("block");
    for local in [
        "",
        "127.0.0.1 localhost",
        "127.0.0.1 localhost\n",
        "x\n#Github Hosts Start\nold\n#Github Hosts End\ny\n",
    ] {
        let merged = replace_or_append_github_block(local, &block);
        assert_eq!(extract_remote_block(&merged).expect("block again"), block);
        assert_eq!(replace_or_append_github_block(&merged, &block), merged);
    }
}

#[test]
fn sync_twice_rewrites_crlf_before_appended_block() {
    let block = "#Github Hosts Start\n3.3.3.3 c.com\n#Github Hosts End\n";
    let once = replace_or_append_github_block("a\r\n", block);
    assert_eq!(once, format!("a\r\n\n{block}"));
    let twice = replace_or_append_github_block(&once, block);
    assert_eq!(twice, format!("a\n\n{block}"));
}

#[test]
fn list_entries_after_rewrite() {
    let text = "1.1.1.1 a.com b.com\n# 2.2.2.2 c.com\n";
    assert_eq!(
        mappings_of(text),
        vec![
            ("1.1.1.1".into(), "a.com".into(), true),
            ("1.1.1.1".into(), "b.com".into(), true),
            ("2.2.2.2".into(), "c.com".into(), false),
        ]
    );
    let rewritten = render_hosts(&parse_hosts(text));
    assert_eq!(mappings_of(&rewritten), mappings_of(text));
}

#[test]
fn normalize_remote_hosts_url_cases() {
    assert_eq!(
        normalize_remote_hosts_url("  https://github.com/o/r/blob/main/dir/hosts.txt \n"),
        "https://raw.githubusercontent.com/o/r/main/dir/hosts.txt"
    );
    assert_eq!(
        normalize_remote_hosts_url("https://github.com/o/r/tree/main/hosts"),
        "https://github.com/o/r/tree/main/hosts"
    );
    assert_eq!(
        normalize_remote_hosts_url("https://github.com/o/r/blob/main"),
        "https://github.com/o/r/blob/main"
    );
    assert_eq!(normalize_remote_hosts_url(" https://example.com/h "), "https://example.com/h");
}

#[test]
fn hosts_path_override_and_default() {
    assert_eq!(hosts_path(Some("/tmp/h"), false), "/tmp/h");
    assert_eq!(hosts_path(None, false), "/etc/hosts");
    assert_eq!(hosts_path(None, true), r"C:\Windows\System32\drivers\etc\hosts");
}

#[test]
fn decode_windows_text_utf8_then_gbk() {
    assert_eq!(decode_windows_text("héllo\n".as_bytes()), "héllo\n");
    assert_eq!(decode_windows_text(&[0xD6, 0xD0, 0xCE, 0xC4]), "中文");
}

#[test]
fn temp_file_names_are_fresh() {
    let a = temp_file_name();
    let b = temp_file_name();
    assert_ne!(a, b);
    assert!(a.starts_with("hosts.tmp."));
    assert_eq!(a.len(), 46);
}
