use cshell::error::{Error, FaultKind, IoFault};
use cshell::home::{home_dir, home_dir_from};
use cshell::ledger::{
    begin, complete, find, ledger_path, ledger_path_from, load, now_timestamp, remove, run_list,
    save, with_lock, Change, Completion, Entry, Ledger, LedgerAction, LedgerEvent, ReadOutcome,
    SaveState, State, UpdateState, WriteOutcome,
};
use cshell::path::{PathBuf, Style};
use cshell::platform::LinkKind;

fn path(s: &str) -> PathBuf {
    PathBuf::parse(Style::Unix, s.as_bytes())
}

fn fault(kind: FaultKind) -> IoFault {
    IoFault { kind, code: None, text: "io".to_string() }
}

fn sample(source: &str, target: &str) -> Entry {
    Entry {
        source: path(source),
        target: path(target),
        original_real_path: None,
        link_kind: "symlink".to_string(),
        state: State::Done,
        moved_at: "2026-07-18 10:00:00".to_string(),
        bytes: 1024,
        files: 3,
        dirs: 2,
        same_volume: false,
    }
}

fn done() -> Completion {
    Completion { bytes: 5, files: 4, dirs: 3, same_volume: true, link_kind: "junction".to_string() }
}

#[test]
fn load_missing_file_yields_empty_ledger() {
    let l = load(&path("/x/ledger.json"), ReadOutcome::Failed(fault(FaultKind::NotFound))).unwrap();
    assert!(l.entries.is_empty());
    assert_eq!(l.version, 1);
}

#[test]
fn corrupt_ledger_reports_clearly() {
    let read = ReadOutcome::Malformed("key must be a string".to_string());
    let err = load(&path("/x/ledger.json"), read).unwrap_err();
    let msg = err.to_string();
    assert!(msg.contains("解析失败"), "{msg}");
    assert!(msg.contains("key must be a string"), "{msg}");
    let err = load(&path("/x/ledger.json"), ReadOutcome::Failed(fault(FaultKind::Other))).unwrap_err();
    assert!(matches!(err, Error::Io { .. }));
}

#[test]
fn an_entry_lives_from_begin_to_remove() {
    let mut inflight = sample("/a", "/b");
    inflight.state = State::Inflight;
    inflight.original_real_path = Some(path("/real"));
    let l = begin(Ledger { version: 1, entries: vec![sample("/other", "/o")] }, inflight);
    assert_eq!(l.entries.len(), 2);
    assert_eq!(find(&l, &path("/a")).unwrap().state, State::Inflight);
    assert_eq!(find(&l, &path("/a")).unwrap().original_real_path, Some(path("/real")));

    let l = complete(l, &path("/a"), done()).unwrap();
    let e = find(&l, &path("/a")).unwrap();
    assert_eq!(e.state, State::Done);
    assert_eq!((e.bytes, e.files, e.dirs, e.same_volume), (5, 4, 3, true));
    assert_eq!(e.link_kind, "junction");

    let l = remove(l, &path("/a")).unwrap();
    assert_eq!(find(&l, &path("/a")), None);
    assert_eq!(find(&l, &path("/other")), Some(sample("/other", "/o")));
    assert!(matches!(remove(l, &path("/a")), Err(Error::Ledger(_))));
}

#[test]
fn beginning_again_replaces_the_entry() {
    let l = begin(Ledger { version: 1, entries: vec![] }, sample("/a", "/b"));
    let l = begin(l, sample("/a", "/c"));
    assert_eq!(l.entries.len(), 1);
    assert_eq!(l.entries[0].target, path("/c"));
    let gone = complete(Ledger { version: 1, entries: vec![] }, &path("/a"), done());
    assert!(matches!(gone, Err(Error::Ledger(_))));
}

#[test]
fn the_ledger_has_its_place() {
    let env = Some(b"/elsewhere".to_vec());
    assert_eq!(ledger_path_from(Style::Unix, &env, &None), Ok(path("/elsewhere/ledger.json")));
    let at_home = ledger_path_from(Style::Unix, &None, &Some(path("/home/me"))).unwrap();
    assert_eq!(at_home, path("/home/me/.cshell/ledger.json"));
    assert!(ledger_path_from(Style::Unix, &None, &None).is_err());
    assert_eq!(ledger_path(Style::Unix, &env), Ok(path("/elsewhere/ledger.json")));
    // The home directory is the one that the system knows.
    let home = dirs::home_dir().map(|h| path(h.to_str().expect("plain name")));
    assert_eq!(home_dir(Style::Unix), home);
    if let Some(h) = home {
        let expected = ledger_path_from(Style::Unix, &None, &Some(h));
        assert_eq!(ledger_path(Style::Unix, &None), expected);
    }
}

#[test]
fn save_leaves_no_temp_file_behind() {
    let run = save(path("/x/ledger.json"), 9);
    assert_eq!(run.action(), Some(LedgerAction::MakeDirs { at: path("/x") }));
    let run = run.step(LedgerEvent::Tried(None));
    let tmp = path("/x/ledger.json.tmp-9");
    assert_eq!(run.action(), Some(LedgerAction::Write { at: tmp.clone() }));
    let run = run.step(LedgerEvent::Wrote(WriteOutcome::Written));
    let to = path("/x/ledger.json");
    assert_eq!(run.action(), Some(LedgerAction::Replace { from: tmp.clone(), to }));
    // Where it cannot take its place it is removed.
    let run = run.step(LedgerEvent::Tried(Some(fault(FaultKind::Other))));
    assert_eq!(run.action(), Some(LedgerAction::RemoveFile { at: tmp }));
    let run = run.step(LedgerEvent::Tried(None));
    assert_eq!(run.action(), None);
    assert!(matches!(run.state, SaveState::Over(Some(Error::Io { .. }))));
}

/// Does what writing a ledger asks for, until the step `stop`, with a fault at `broken`.
fn write_until(place: &str, broken: usize, stop: usize) -> (Vec<(PathBuf, &'static str)>, bool) {
    let mut files = vec![(path(place), "old")];
    let mut run = save(path(place), 9);
    assert_ne!(run.tmp, run.path);
    assert_eq!(run.tmp.parent(), run.path.parent());
    for n in 0..stop {
        let bad = n == broken;
        let event = match run.action() {
            None => return (files, matches!(run.state, SaveState::Over(None))),
            Some(LedgerAction::Write { at }) => {
                files.retain(|f| f.0 != at);
                files.push((at, if bad { "half" } else { "new" }));
                if bad {
                    LedgerEvent::Wrote(WriteOutcome::Failed(fault(FaultKind::Other)))
                } else {
                    LedgerEvent::Wrote(WriteOutcome::Written)
                }
            }
            Some(_) if bad => LedgerEvent::Tried(Some(fault(FaultKind::Other))),
            Some(LedgerAction::Replace { from, to }) => {
                let what = files.iter().find(|f| f.0 == from).unwrap().1;
                files.retain(|f| f.0 != from && f.0 != to);
                files.push((to, what));
                LedgerEvent::Tried(None)
            }
            Some(LedgerAction::RemoveFile { at }) => {
                files.retain(|f| f.0 != at);
                LedgerEvent::Tried(None)
            }
            Some(_) => LedgerEvent::Tried(None),
        };
        run = run.step(event);
    }
    (files, matches!(run.state, SaveState::Over(None)))
}

#[test]
fn a_ledger_is_the_old_one_or_the_new_one_at_every_step() {
    for place in ["/x/ledger.json", "ledger", "/x/.json", "/x/a.json.tmp-9"] {
        for broken in 0..6 {
            for stop in 0..6 {
                let (files, worked) = write_until(place, broken, stop);
                let at: Vec<&str> =
                    files.iter().filter(|f| f.0 == path(place)).map(|f| f.1).collect();
                assert_eq!(at, vec![if worked { "new" } else { "old" }], "{place} {broken} {stop}");
            }
        }
        let (files, worked) = write_until(place, 9, 9);
        assert!(worked);
        assert_eq!(files, vec![(path(place), "new")]);
    }
}

fn drive(change: Change, read: ReadOutcome, written: WriteOutcome) -> (Vec<&'static str>, Option<Error>, Option<Ledger>) {
    let mut run = with_lock(path("/x/ledger.json"), 9, change);
    let mut did = vec![];
    let mut wrote = None;
    let mut read = Some(read);
    let mut written = Some(written);
    loop {
        let event = match run.action() {
            None => break,
            Some(LedgerAction::MakeDirs { .. }) => {
                did.push("dirs");
                LedgerEvent::Tried(None)
            }
            Some(LedgerAction::Open { at }) => {
                assert_eq!(at, path("/x/ledger.lock"));
                did.push("open");
                LedgerEvent::Tried(None)
            }
            Some(LedgerAction::Lock) => {
                did.push("lock");
                LedgerEvent::Tried(None)
            }
            Some(LedgerAction::Read { .. }) => {
                did.push("read");
                LedgerEvent::Read(read.take().expect("read once"))
            }
            Some(LedgerAction::Write { .. }) => {
                did.push("write");
                if let UpdateState::Save(l, _) = &run.state {
                    let mut copy = Ledger { version: l.version, entries: vec![] };
                    copy.entries.extend(l.entries.iter().cloned());
                    wrote = Some(copy);
                }
                LedgerEvent::Wrote(written.take().expect("written once"))
            }
            Some(LedgerAction::Replace { .. }) => {
                did.push("replace");
                LedgerEvent::Tried(None)
            }
            Some(LedgerAction::RemoveFile { .. }) => {
                did.push("drop");
                LedgerEvent::Tried(None)
            }
            Some(LedgerAction::Unlock) => {
                did.push("unlock");
                LedgerEvent::Tried(None)
            }
        };
        run = run.step(event);
    }
    match run.state {
        UpdateState::Over(e) => (did, e, wrote),
        s => panic!("{s:?}"),
    }
}

#[test]
fn changes_are_made_under_the_lock() {
    let old = Ledger { version: 1, entries: vec![sample("/other", "/o")] };
    let (did, e, wrote) =
        drive(Change::Begin(sample("/a", "/b")), ReadOutcome::Parsed(old), WriteOutcome::Written);
    assert_eq!(did, vec!["dirs", "open", "lock", "read", "dirs", "write", "replace", "unlock"]);
    assert_eq!(e, None);
    assert_eq!(wrote.unwrap().entries, vec![sample("/other", "/o"), sample("/a", "/b")]);
}

#[test]
fn the_lock_is_given_up_behind_every_failure() {
    let (did, e, wrote) = drive(
        Change::Remove(path("/a")),
        ReadOutcome::Parsed(Ledger { version: 1, entries: vec![] }),
        WriteOutcome::Written,
    );
    assert_eq!(did, vec!["dirs", "open", "lock", "read", "unlock"]);
    assert!(matches!(e, Some(Error::Ledger(_))));
    assert_eq!(wrote, None);

    let (did, e, _) = drive(
        Change::Begin(sample("/a", "/b")),
        ReadOutcome::Malformed("?".to_string()),
        WriteOutcome::Written,
    );
    assert_eq!(did.last(), Some(&"unlock"));
    assert!(!did.contains(&"replace"));
    assert_eq!(e.unwrap().exit_code(), 1);

    let (did, e, _) = drive(
        Change::Begin(sample("/a", "/b")),
        ReadOutcome::Failed(fault(FaultKind::NotFound)),
        WriteOutcome::Failed(fault(FaultKind::Other)),
    );
    assert_eq!(did.last(), Some(&"unlock"));
    assert!(!did.contains(&"replace"));
    assert_eq!(e.unwrap().exit_code(), 2);
}

#[test]
fn a_link_is_there_where_it_leads_somewhere() {
    let e = sample("/a", "/b");
    assert!(e.link_exists(&Ok(Some(LinkKind::Symlink)), true));
    assert!(e.link_exists(&Ok(Some(LinkKind::Junction)), true));
    assert!(!e.link_exists(&Ok(Some(LinkKind::Symlink)), false));
    assert!(!e.link_exists(&Ok(None), true));
    assert!(!e.link_exists(&Err(fault(FaultKind::NotFound)), false));
}

#[test]
fn the_list_tells_all_entries() {
    let none = run_list(&Ledger { version: 1, entries: vec![] }, &vec![]);
    assert_eq!(none, vec!["台账为空 —— 还没有用 cshl 迁移过任何目录。"]);

    let mut stuck = sample("/c", "/d");
    stuck.state = State::Inflight;
    stuck.original_real_path = Some(path("/real"));
    let l = Ledger { version: 1, entries: vec![sample("/a", "/b"), stuck] };
    let lines = run_list(&l, &vec![false, true]);
    assert_eq!(lines[0], "共 2 条迁移记录：\n");
    assert_eq!(lines[1], "  ⚠ 链接缺失  /a");
    assert_eq!(lines[2], "      → /b");
    assert_eq!(lines[3], "      1.00 KiB · 3 文件 · 2 目录 · symlink · 2026-07-18 10:00:00");
    assert_eq!(lines[4], "");
    assert_eq!(lines[5], "  ⚠ 未完成  /c");
    assert_eq!(lines[7], "      （原链接指向 /real）");
    assert!(lines[9].contains("上次迁移未正常结束"));
    let lines = run_list(&l, &vec![true, true]);
    assert_eq!(lines[1], "  ✓  /a");
}

#[test]
fn moments_are_shown_in_utc() {
    assert_eq!(now_timestamp(0), "1970-01-01 00:00:00");
    assert_eq!(now_timestamp(1_709_210_096), "2024-02-29 12:34:56");
}

#[test]
fn a_ledger_starts_without_a_version() {
    let l = Ledger::default();
    assert_eq!(l.version, 0);
    assert!(l.entries.is_empty());
}

#[test]
fn the_home_directory_is_what_the_system_names() {
    let found = Some(b"/home//me/.".to_vec());
    assert_eq!(home_dir_from(Style::Unix, &found), Some(path("/home/me")));
    assert_eq!(home_dir_from(Style::Unix, &None), None);
}

/// Many processes that each begin a move, their steps taken in turn: all the moves are in
/// the ledger in the end, and so is what was there before.
#[test]
fn beginnings_at_one_time_all_stay() {
    let mut file = vec![sample("/old", "/o"), sample("/s1", "/earlier")];
    let mut held: Option<usize> = None;
    let mut runs: Vec<_> = (0..4)
        .map(|i| {
            let entry = sample(&format!("/s{i}"), &format!("/t{i}"));
            Some(with_lock(path("/home/ledger.json"), 10 + i, Change::Begin(entry)))
        })
        .collect();
    let mut written: Vec<Vec<Entry>> = vec![vec![]; 4];
    let mut turn = 0;
    while runs.iter().flatten().any(|r| r.action().is_some()) {
        let i = turn % runs.len();
        turn += 1;
        let run = runs[i].take().expect("a run");
        let event = match run.action() {
            None => {
                runs[i] = Some(run);
                continue;
            }
            Some(LedgerAction::Lock) if held.is_some() => {
                runs[i] = Some(run);
                continue;
            }
            Some(LedgerAction::Lock) => {
                held = Some(i);
                LedgerEvent::Tried(None)
            }
            Some(LedgerAction::Read { .. }) => {
                assert_eq!(held, Some(i));
                let entries = file.clone();
                LedgerEvent::Read(ReadOutcome::Parsed(Ledger { version: 1, entries }))
            }
            Some(LedgerAction::Write { .. }) => {
                assert_eq!(held, Some(i));
                if let UpdateState::Save(l, _) = &run.state {
                    written[i] = l.entries.clone();
                }
                LedgerEvent::Wrote(WriteOutcome::Written)
            }
            Some(LedgerAction::Replace { .. }) => {
                assert_eq!(held, Some(i));
                file = written[i].clone();
                LedgerEvent::Tried(None)
            }
            Some(LedgerAction::Unlock) => {
                held = None;
                LedgerEvent::Tried(None)
            }
            Some(_) => LedgerEvent::Tried(None),
        };
        runs[i] = Some(run.step(event));
    }
    assert!(runs.iter().flatten().all(|r| r.state == UpdateState::Over(None)));
    assert_eq!(file.len(), 5);
    assert!(file.contains(&sample("/old", "/o")));
    for i in 0..4 {
        assert!(file.contains(&sample(&format!("/s{i}"), &format!("/t{i}"))));
    }
}
