use cshell::cli::{answer, dispatch, render_error, Cli, Cmd, LinkType, MoveArgs, Order, RestoreArgs};
use cshell::error::{Error, FailedItem, FaultKind, IoFault};
use cshell::job::Job;
use cshell::migrate::Threads;
use cshell::path::{PathBuf, Style};
use cshell::plan::{hardlink_groups, FileItem, Plan, SymlinkItem};
use cshell::platform::LinkKind;
use cshell::report::{
    close_preview, describe_plan, dry_run, report_copy, report_parents, report_restore,
    report_scan, report_success, report_unreadable,
};
use cshell::restore::{restore_threads, run_restore, RestoreStart};
use cshell::share::count_shared;
use cshell::transfer::Outcome;

fn path(s: &str) -> PathBuf {
    PathBuf::parse(Style::Unix, s.as_bytes())
}

fn args() -> MoveArgs {
    MoveArgs {
        source: path("/a"),
        target: path("/b"),
        threads: None,
        dry_run: false,
        verbose: false,
        quiet: false,
        force: false,
        no_link: false,
        link_type: LinkType::Junction,
        no_follow_link: false,
    }
}

fn job(link: Option<LinkKind>) -> Job {
    Job { source: path("/s"), real_source: path("/r"), source_was_link: link, target: path("/t") }
}

fn plan() -> Plan {
    let file = |name: &str, size, id| FileItem { rel: path(name), size, hardlink_id: id };
    Plan {
        dirs: vec![path("a")],
        files: vec![
            file("big", 2048, Some((1, 1))),
            file("a/big2", 2048, Some((1, 1))),
            file("a/big3", 2048, Some((1, 1))),
            file("x", 10, Some((1, 2))),
            file("y", 10, Some((1, 2))),
            file("lone", 5, Some((1, 9))),
            file("z", 1, None),
        ],
        symlinks: vec![SymlinkItem { rel: path("l"), target: b"a".to_vec() }],
        total_bytes: 3 * 2048 + 26,
        unreadable: vec![],
    }
}

#[test]
fn commands_are_told_apart() {
    let cli = Cli { cmd: None, move_args: Some(args()) };
    assert_eq!(dispatch(cli), Order::Move(args()));
    let cli = Cli { cmd: Some(Cmd::Move(args())), move_args: None };
    assert_eq!(dispatch(cli), Order::Move(args()));
    let cli = Cli { cmd: Some(Cmd::List { json: true }), move_args: None };
    assert_eq!(dispatch(cli), Order::List { json: true });
    let back = || RestoreArgs { source: path("/a"), threads: None, dry_run: true, verbose: false, quiet: false };
    let cli = Cli { cmd: Some(Cmd::Restore(back())), move_args: None };
    assert_eq!(dispatch(cli), Order::Restore(back()));
    assert_eq!(dispatch(Cli { cmd: None, move_args: None }), Order::Help);
}

#[test]
fn the_process_answers_by_the_error() {
    assert_eq!(answer(&Ok(())), 0);
    assert_eq!(answer(&Err(Error::Ledger("x".to_string()))), 1);
    let e = Error::PartialFailure { total: 3, failed: 1, failures: vec![] };
    assert_eq!(answer(&Err(e)), 3);
}

#[test]
fn errors_are_shown_with_what_to_do() {
    let failures = vec![FailedItem {
        path: path("/tmp/tree/a/locked.bin"),
        error: "Permission denied (os error 13)".to_string(),
        is_dir: false,
    }];
    let reason = "/tmp/tree/a/locked.bin: Permission denied (os error 13)".to_string();
    let e = Error::Aborted { reason, failures };
    assert_eq!(
        render_error(&e),
        vec![
            "cshl: 迁移已中止，源目录未被改动: /tmp/tree/a/locked.bin: Permission denied (os error 13)（1 项失败）",
            "\n源目录未被改动，修复下列问题后可直接重试。",
            "\n前 1 项失败:",
            "  1. [文件] /tmp/tree/a/locked.bin: Permission denied (os error 13)",
        ]
    );
    let e = Error::risky(path("/h"), "r".to_string());
    assert_eq!(render_error(&e)[1], "\n确认无误可加 --force 越过检查。");
    let e = Error::forbidden(path("/h"), "r".to_string());
    assert_eq!(render_error(&e)[1], "\n这条限制无法越过 —— 加 --force 也不行。");
    let e = Error::io(path("/h"), IoFault { kind: FaultKind::Other, code: None, text: "t".to_string() });
    assert_eq!(render_error(&e), vec!["cshl: I/O 错误 '/h': t"]);
}

#[test]
fn no_more_than_ten_failures_are_shown() {
    let mut failures = vec![];
    for i in 0..13 {
        failures.push(FailedItem { path: path(&format!("/f{i}")), error: "e".to_string(), is_dir: true });
    }
    let e = Error::PartialFailure { total: 20, failed: 13, failures };
    let lines = render_error(&e);
    assert_eq!(lines[0], "cshl: 源目录清理未完成: 13/20 项删除失败（数据已在目标位置）");
    assert_eq!(lines[3], "  1. [目录] /f0: e");
    assert_eq!(lines.last().unwrap(), "  ... 另有 3 项失败");
    assert_eq!(lines.len(), 14);
}

#[test]
fn a_preview_on_one_volume_needs_no_scan() {
    let threads = Threads { copy: 8, remove: 2, explicit: false };
    let (lines, more) = dry_run(&job(Some(LinkKind::Symlink)), &Ok(vec![]), Some(true), &threads);
    assert!(!more);
    assert_eq!(
        lines,
        vec![
            "预演模式 —— 不会做任何改动\n",
            "  源:   /r",
            "        （/s 是一个 symlink，将穿透到上面这个真实目录）",
            "  目标: /t",
            "\n  判定: 同卷 —— 一次原子 rename 即可完成",
            "  预计: 微秒级，与目录大小无关，无需复制任何数据",
            "\n  （实际执行时仍会先尝试 rename，以返回值为准）",
        ]
    );
}

#[test]
fn a_preview_across_volumes_tells_what_would_be_moved() {
    let threads = Threads { copy: 3, remove: 3, explicit: true };
    let parents = Ok(vec![path("/x"), path("/x/y")]);
    let (lines, more) = dry_run(&job(None), &parents, Some(false), &threads);
    assert!(more);
    assert_eq!(lines[3], "        （父目录不存在，将自动创建 2 层，最深一层是 /x/y）");
    assert_eq!(lines[4], "\n  判定: 跨卷 —— 需要复制数据后删除源目录");
    assert_eq!(lines[5], "  线程: 复制 3，删除 3（-t 指定）");
    let refused = Err(Error::invalid(path("/x"), "不是目录".to_string()));
    let (lines, more) = dry_run(&job(None), &refused, None, &threads);
    assert!(more);
    assert_eq!(lines[3], "        ⚠️  路径无效 '/x': 不是目录，实际执行会被拒绝");

    assert_eq!(
        describe_plan(&plan(), Some(100)),
        vec![
            "\n  将要搬运:",
            "    1 个目录",
            "    7 个文件",
            "    1 个符号链接（原样重建，不跟随）",
            "    共 6.03 KiB",
            "    检测到 2 组硬链接（5 个文件），去重可省下 4.01 KiB",
            "\n  目标卷可用空间: 100 B",
            "    ⚠️  空间不足！实际执行会被拒绝。",
        ]
    );
    assert_eq!(describe_plan(&plan(), None).len(), 6);
    assert_eq!(
        close_preview(&job(None), "1.00ms"),
        vec!["\n  扫描耗时 1.00ms", "\n  执行迁移: cshl /s /t"]
    );
}

#[test]
fn shared_files_are_counted_once() {
    let p = plan();
    let groups = hardlink_groups(&p.files);
    assert_eq!(groups, vec![vec![0, 1, 2], vec![3, 4]]);
    assert_eq!(count_shared(&p.files, &groups), (5, 4096 + 10));
}

#[test]
fn unreadable_paths_are_named() {
    let mut p = plan();
    assert!(report_unreadable(&p).is_empty());
    for i in 0..12 {
        p.unreadable.push((path(&format!("u{i}")), "denied".to_string()));
    }
    let lines = report_unreadable(&p);
    assert_eq!(lines.len(), 12);
    assert_eq!(lines[0], "\n⚠️  有 12 项无法读取（权限不足等），它们不会被迁移:");
    assert_eq!(lines[1], "    u0: denied");
    assert_eq!(lines[11], "    ... 另有 2 项");
}

#[test]
fn success_is_told() {
    let o = Outcome { same_volume: true, bytes: 0, files: 0, dirs: 0 };
    assert_eq!(
        report_success(&job(None), &o, Some(LinkKind::Junction), "804.58µs", false),
        vec!["✓ 已迁移到 /t（同卷 rename，耗时 804.58µs）", "  /s → /t （junction）"]
    );
    let o = Outcome { same_volume: false, bytes: 1536, files: 8, dirs: 3 };
    assert_eq!(
        report_success(&job(Some(LinkKind::Symlink)), &o, Some(LinkKind::Symlink), "6.21s", false),
        vec![
            "✓ 已迁移到 /t（1.50 KiB · 8 文件 · 3 目录，耗时 6.21s）",
            "  /s → /t （symlink）",
            "  （原链接已改指到新位置）",
        ]
    );
    let lines = report_success(&job(None), &o, None, "1s", false);
    assert_eq!(lines[1], "  未创建链接（--no-link）");
    assert!(report_success(&job(None), &o, None, "1s", true).is_empty());
}

#[test]
fn steps_are_told() {
    assert_eq!(
        report_scan(&plan(), "2ms"),
        "扫描完成：1 目录 · 7 文件 · 1 链接 · 6.03 KiB · 耗时 2ms"
    );
    assert_eq!(report_copy(1024, "1s", 512), "复制完成：1.00 KiB · 耗时 1s · 512 B/s");
    assert_eq!(report_parents(&vec![path("/x"), path("/x/y")])[1], "已创建目标父目录：/x/y");
    let o = Outcome { same_volume: true, bytes: 0, files: 0, dirs: 0 };
    assert_eq!(report_restore(&path("/s"), &o, "1ms"), "✓ 已还原到 /s（耗时 1ms，同卷 rename）");
    let o = Outcome { same_volume: false, ..o };
    assert_eq!(report_restore(&path("/s"), &o, "1ms"), "✓ 已还原到 /s（耗时 1ms）");
    assert_eq!(restore_threads(Some(3), 8), 3);
    assert_eq!(restore_threads(None, 2), 8);
}

#[test]
fn a_restore_preview_tells_where_the_data_goes() {
    let entry = |real: Option<PathBuf>| cshell::ledger::Entry {
        source: path("/s"),
        target: path("/t"),
        original_real_path: real,
        link_kind: "symlink".to_string(),
        state: cshell::ledger::State::Done,
        moved_at: "2026-09-11 00:00:00".to_string(),
        bytes: 0,
        files: 0,
        dirs: 0,
        same_volume: true,
    };
    let args = RestoreArgs { source: path("/s"), threads: None, dry_run: true, verbose: false, quiet: false };
    let lines = |real| {
        let numbers = cshell::platform::unix::errnos();
        let system = cshell::platform::System::Linux;
        match run_restore(&args, path("/s"), entry(real), true, 1, system, numbers) {
            Ok(RestoreStart::Preview(l)) => l,
            s => panic!("{s:?}"),
        }
    };
    let plain = lines(None);
    assert_eq!(plain[1], "  将把 /t 搬回 /s");
    assert_eq!(plain[2], "  并删除 /s 处的链接");
    let linked = lines(Some(path("/r")));
    assert_eq!(linked[1], "  将把 /t 搬回 /r");
    assert_eq!(linked[2], "  并把链接 /s 改指回 /r");
}
