use x_hosts::backup_service::{
    backup_file_name, backup_name_from, created_at_label, created_at_label_of, order_backups,
    text_before,
};
use x_hosts::clock::{time_text_or_unknown, unix_timestamp};
use x_hosts::models::BackupItem;

fn item(name: &str, created_at: &str) -> BackupItem {
    BackupItem { name: name.into(), path: format!("/b/{name}"), created_at: created_at.into() }
}

#[test]
fn order_backups_newest_first_and_stable() {
    let found = vec![
        item("a", "2024-01-01 10:00:00"),
        item("b", "2024-03-01 10:00:00"),
        item("c", "unknown"),
        item("d", "2024-03-01 10:00:00"),
        item("e", "2023-12-31 23:59:59"),
    ];
    let ordered = order_backups(&found);
    let names: Vec<&str> = ordered.iter().map(|b| b.name.as_str()).collect();
    assert_eq!(names, vec!["c", "b", "d", "a", "e"]);
    assert!(order_backups(&Vec::new()).is_empty());
}

#[test]
fn backup_names() {
    assert_eq!(
        backup_name_from("20240101-101010", "0000"),
        "hosts-20240101-101010-0000.bak"
    );
    let first = backup_file_name();
    let second = backup_file_name();
    assert_ne!(first, second);
    assert!(first.starts_with("hosts-") && first.ends_with(".bak"));
    assert_eq!(first.len(), "hosts-".len() + 15 + 1 + 36 + ".bak".len());
    let stamp = &first["hosts-".len().."hosts-".len() + 15];
    for (i, c) in stamp.chars().enumerate() {
        if i == 8 {
            assert_eq!(c, '-');
        } else {
            assert!(c.is_ascii_digit());
        }
    }
}

fn is_label(s: &str) -> bool {
    let b = s.as_bytes();
    s.len() == 19
        && b.iter().enumerate().all(|(i, c)| match i {
            4 | 7 => *c == b'-',
            10 => *c == b' ',
            13 | 16 => *c == b':',
            _ => c.is_ascii_digit(),
        })
}

#[test]
fn unix_timestamps() {
    assert_eq!(unix_timestamp(Ok((5, 7))), Some((5, 7)));
    assert_eq!(unix_timestamp(Err((5, 0))), Some((-5, 0)));
    assert_eq!(unix_timestamp(Err((5, 250_000_000))), Some((-6, 750_000_000)));
    assert_eq!(unix_timestamp(Ok((u64::MAX, 0))), None);
    assert_eq!(unix_timestamp(Err((u64::MAX, 0))), None);
    assert_eq!(unix_timestamp(Ok((1, 1_000_000_000))), None);
    assert_eq!(
        unix_timestamp(Err((i64::MAX as u64, 1))),
        Some((i64::MIN, 999_999_999))
    );
}

#[test]
fn created_at_labels() {
    assert_eq!(created_at_label_of(None), "unknown");
    assert!(is_label(&created_at_label_of(Some(Ok((0, 0))))));
    assert!(is_label(&created_at_label_of(Some(Err((86_400, 5))))));
    assert_eq!(created_at_label_of(Some(Ok((u64::MAX, 0)))), "unknown");
    assert_eq!(created_at_label_of(Some(Ok((i64::MAX as u64, 0)))), "unknown");
    assert_eq!(time_text_or_unknown(i64::MIN, 0, "%Y-%m-%d %H:%M:%S"), "unknown");
    let far = time_text_or_unknown(8_000_000_000_000, 0, "%Y-%m-%d %H:%M:%S");
    assert!(far.starts_with('+') && far.len() > 19);
    let stamp = time_text_or_unknown(1_700_000_000, 0, "%Y%m%d-%H%M%S");
    assert_eq!(stamp.len(), 15);
    let log = time_text_or_unknown(1_700_000_000, 123_456_789, "%Y-%m-%d %H:%M:%S%.3f");
    assert!(log.ends_with(".123"));
}

#[test]
fn created_at_and_text_order() {
    assert_eq!(created_at_label(None), "unknown");
    assert!(is_label(&created_at_label(Some(std::time::SystemTime::now()))));
    assert!(is_label(&created_at_label(Some(std::time::UNIX_EPOCH))));
    assert!(text_before("2024", "2025"));
    assert!(text_before("abc", "abcd"));
    assert!(!text_before("b", "a"));
    assert!(!text_before("a", "a"));
    assert!(text_before("Z", "a"));
}
