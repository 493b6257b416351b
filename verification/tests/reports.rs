use cshell::calendar::civil_from_unix;
use cshell::error::{human_bytes, Error, FailedItem, FaultKind, IoFault};
use cshell::ledger::now_timestamp;
use cshell::migrate::{default_copy_threads, default_remove_threads, logical_cores, Threads};
use cshell::path::{PathBuf, Style};

fn path(s: &str) -> PathBuf {
    PathBuf::parse(Style::Unix, s.as_bytes())
}

#[test]
fn human_bytes_scales() {
    assert_eq!(human_bytes(0), "0 B");
    assert_eq!(human_bytes(1023), "1023 B");
    assert_eq!(human_bytes(1024), "1.00 KiB");
    assert_eq!(human_bytes(1536), "1.50 KiB");
    assert_eq!(human_bytes(1024 * 1024), "1.00 MiB");
    assert_eq!(human_bytes(3 * 1024 * 1024 * 1024), "3.00 GiB");
}

/// The same as computing with an `f64`.
#[test]
fn human_bytes_agrees_with_floating_point() {
    let mut samples: Vec<u64> = vec![1025, 1029, 1034, 1039, 10_239, 123_456_789, u64::MAX, u64::MAX - 1];
    for shift in 0..64 {
        let base = 1u64 << shift;
        for d in [0u64, 1, 3, 5, 1000] {
            samples.push(base.saturating_add(d));
            samples.push(base.saturating_sub(d));
        }
    }
    let mut x: u64 = 88172645463325252;
    for _ in 0..2000 {
        x ^= x << 13;
        x ^= x >> 7;
        x ^= x << 17;
        samples.push(x >> (x % 60));
    }
    for n in samples {
        let units = ["B", "KiB", "MiB", "GiB", "TiB", "PiB"];
        let mut v = n as f64;
        let mut i = 0;
        while v >= 1024.0 && i < units.len() - 1 {
            v /= 1024.0;
            i += 1;
        }
        let expected = if i == 0 { format!("{} B", n) } else { format!("{:.2} {}", v, units[i]) };
        assert_eq!(human_bytes(n), expected, "{n}");
    }
}

#[test]
fn exit_codes_distinguish_severity() {
    assert_eq!(Error::invalid(path("/x"), "不存在".to_string()).exit_code(), 1);
    assert_eq!(Error::Aborted { reason: "复制失败".to_string(), failures: vec![] }.exit_code(), 2);
    assert_eq!(Error::PartialFailure { total: 10, failed: 2, failures: vec![] }.exit_code(), 3);
}

#[test]
fn exit_codes_of_the_other_errors() {
    assert_eq!(Error::risky(path("/x"), "r".to_string()).exit_code(), 1);
    assert_eq!(Error::forbidden(path("/x"), "r".to_string()).exit_code(), 1);
    let full = Error::InsufficientSpace { needed: 2, available: 1, target: path("/t") };
    assert_eq!(full.exit_code(), 1);
    let halfway = Error::Incomplete { path: path("/x"), reason: "r".to_string() };
    assert_eq!(halfway.exit_code(), 3);
}

#[test]
fn io_errors_keep_their_cause() {
    let cause = IoFault { kind: FaultKind::NotFound, code: Some(2), text: "gone".to_string() };
    let e = Error::io(path("/x"), cause.clone());
    assert_eq!(e.source(), Some(&cause));
    assert!(e.to_string().contains("gone"));
    assert!(e.to_string().contains("/x"));
    assert_eq!(Error::from(cause.clone()), Error::Io { path: None, source: cause });
    let failures = vec![FailedItem { path: path("/y"), error: "r".to_string(), is_dir: false }];
    assert_eq!(Error::Aborted { reason: "x".to_string(), failures }.source(), None);
}

#[test]
fn timestamp_has_expected_shape() {
    let ts = now_timestamp(1_789_084_800);
    assert_eq!(ts.len(), 19, "{ts}");
    assert_eq!(&ts[4..5], "-");
    assert_eq!(&ts[7..8], "-");
    assert_eq!(&ts[10..11], " ");
    assert_eq!(&ts[13..14], ":");
    assert_eq!(ts, "2026-09-11 00:00:00");
}

#[test]
fn civil_from_unix_matches_known_dates() {
    assert_eq!(civil_from_unix(0), (1970, 1, 1, 0, 0, 0));
    assert_eq!(civil_from_unix(951_868_800), (2000, 3, 1, 0, 0, 0));
    assert_eq!(civil_from_unix(1_709_210_096), (2024, 2, 29, 12, 34, 56));
    assert_eq!(civil_from_unix(1_789_084_800), (2026, 9, 11, 0, 0, 0));
}

#[test]
fn days_before_the_epoch_have_dates_too() {
    assert_eq!(civil_from_unix(-1), (1969, 12, 31, 23, 59, 59));
    assert_eq!(civil_from_unix(-86_400), (1969, 12, 31, 0, 0, 0));
}

#[test]
fn default_thread_counts_are_sane() {
    for cores in [1usize, 2, 4, 7, 8, 16, 31, 32, 33, 64, 128, usize::MAX] {
        let c = default_copy_threads(cores);
        let r = default_remove_threads(cores);
        assert!((1..=32).contains(&c), "{c}");
        assert!(r >= 1, "{r}");
        assert!(c >= r);
    }
    assert_eq!(default_copy_threads(3), 12);
    assert_eq!(default_remove_threads(3), 3);
    for cores in [32usize, 33, 64, 128] {
        assert_eq!(default_copy_threads(cores), 32);
        assert_eq!(default_remove_threads(cores), 32);
    }
    assert_eq!(logical_cores(None), 4);
    assert_eq!(logical_cores(Some(6)), 6);
}

#[test]
fn threads_are_as_asked_for() {
    let t = Threads::resolve(Some(5), 8);
    assert_eq!(t, Threads { copy: 5, remove: 5, explicit: true });
    assert_eq!(t.describe(), "复制 5，删除 5（-t 指定）");
    assert_eq!(Threads::resolve(None, 64), Threads { copy: 32, remove: 32, explicit: false });
    let t = Threads::resolve(None, 2);
    assert_eq!(t, Threads { copy: 8, remove: 2, explicit: false });
    assert_eq!(t.describe(), "复制 8，删除 2（按本机逻辑核数自动选择）");
}
