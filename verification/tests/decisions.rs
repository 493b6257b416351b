use cshell::cli::{LinkType, MoveArgs};
use cshell::error::Error;
use cshell::home::home_dir;
use cshell::job::PlaceState::{Absent, Dir, Other};
use cshell::job::{missing_parents, validate_paths, Job, PlaceState, TargetState};
use cshell::migrate::run_move;
use cshell::path::{PathBuf, Style};
use cshell::platform::unix::errnos;
use cshell::platform::System;
use cshell::safety::{canonical_or_self, check_source, enforce, Verdict};
use cshell::volume::{ancestors, available_at, nearest_existing_ancestor, same_volume};

fn unix_path(s: &str) -> PathBuf {
    PathBuf::parse(Style::Unix, s.as_bytes())
}

fn win_path(s: &str) -> PathBuf {
    PathBuf::parse(Style::Windows, s.as_bytes())
}

fn check(p: &PathBuf) -> Verdict {
    check_source(p, &None, &None)
}

#[test]
fn temp_subdir_is_safe() {
    let home = Some(unix_path("/home/me"));
    let cwd = Some(unix_path("/home/me/src"));
    assert!(matches!(check_source(&unix_path("/tmp/cshell_safety_ok"), &home, &cwd), Verdict::Safe));
}

#[test]
fn root_is_forbidden() {
    assert!(matches!(check(&unix_path("/")), Verdict::Forbidden(_)));
    assert!(matches!(check(&win_path(r"C:\")), Verdict::Forbidden(_)));
}

#[test]
fn system_dirs_are_forbidden() {
    assert!(matches!(check(&unix_path("/System")), Verdict::Forbidden(_)));
    assert!(matches!(check(&unix_path("/usr")), Verdict::Forbidden(_)));
    assert!(matches!(check(&unix_path("/etc")), Verdict::Forbidden(_)));
    assert!(matches!(check(&win_path(r"C:\Windows")), Verdict::Forbidden(_)));
}

#[test]
fn mount_point_itself_is_forbidden() {
    assert!(matches!(check(&unix_path("/Volumes/SomeDisk")), Verdict::Forbidden(_)));
    assert!(matches!(check(&unix_path("/mnt/somedisk")), Verdict::Forbidden(_)));
}

#[test]
fn forbidden_cannot_be_forced() {
    for p in [unix_path("/"), win_path(r"C:\")] {
        let v = check(&p);
        assert!(enforce(&p, v, true).is_err());
    }
}

#[test]
fn risky_can_be_forced() {
    let home = home_dir(Style::Unix).unwrap_or(unix_path("/root"));
    let known = Some(home.clone());
    assert!(matches!(check_source(&home, &known, &None), Verdict::Risky(_)));
    assert!(enforce(&home, check_source(&home, &known, &None), false).is_err());
    assert!(enforce(&home, check_source(&home, &known, &None), true).is_ok());
}

/// A home directory that is also one of the system's can be forced; a volume cannot.
#[test]
fn the_home_directory_comes_before_those_of_the_system() {
    let root = unix_path("/root");
    assert!(matches!(check_source(&root, &Some(root.clone()), &None), Verdict::Risky(_)));
    assert!(matches!(check_source(&root, &None, &None), Verdict::Forbidden(_)));
    let volume = unix_path("/mnt/home");
    let v = check_source(&volume, &Some(volume.clone()), &None);
    assert!(matches!(v, Verdict::Forbidden(_)));
}

#[test]
fn forcing_gives_a_warning() {
    let home = unix_path("/home/me");
    let v = check_source(&home, &Some(home.clone()), &None);
    let warning = enforce(&home, v, true).unwrap().expect("a warning");
    assert_eq!(warning, "cshl: ⚠️  这是你的用户主目录（已被 --force 放行）");
    assert_eq!(enforce(&unix_path("/data/x"), Verdict::Safe, false), Ok(None));
}

#[test]
fn the_working_directory_is_not_moved_away() {
    let cwd = Some(unix_path("/data/x/y"));
    assert!(matches!(check_source(&unix_path("/data/x"), &None, &cwd), Verdict::Risky(_)));
    assert!(matches!(check_source(&unix_path("/data/x/y/z"), &None, &cwd), Verdict::Safe));
}

#[test]
fn canonical_or_self_falls_back() {
    assert_eq!(canonical_or_self(&unix_path("/l"), &Some(unix_path("/t"))), unix_path("/t"));
    assert_eq!(canonical_or_self(&unix_path("/l"), &None), unix_path("/l"));
    assert_eq!(canonical_or_self(&win_path(r"\\?\C:\l"), &None), win_path(r"C:\l"));
}

#[test]
fn validate_rejects_target_inside_source() {
    let src = unix_path("/d/src");
    let target = unix_path("/d/src/inner/deep");
    let err = validate_paths(&src, &src, &target, TargetState::Absent).unwrap_err();
    assert!(err.to_string().contains("自吞"), "{err:?}");
}

#[test]
fn validate_rejects_identical_paths() {
    let src = unix_path("/d/src");
    assert!(validate_paths(&src, &src, &src, TargetState::Empty).is_err());
}

#[test]
fn validate_rejects_nonempty_target() {
    let src = unix_path("/d/src");
    let err = validate_paths(&src, &src, &unix_path("/d/target"), TargetState::Occupied).unwrap_err();
    assert!(err.to_string().contains("非空"), "{err:?}");
}

#[test]
fn validate_accepts_and_clears_empty_target() {
    let src = unix_path("/d/src");
    assert_eq!(validate_paths(&src, &src, &unix_path("/d/target"), TargetState::Empty), Ok(true));
    assert_eq!(validate_paths(&src, &src, &unix_path("/d/target"), TargetState::Absent), Ok(false));
}

#[test]
fn validate_rejects_the_rest() {
    let src = unix_path("/d/src");
    let err = validate_paths(&src, &src, &unix_path("/d/file"), TargetState::NotDir).unwrap_err();
    assert!(err.to_string().contains("不是目录"));
    let err = validate_paths(&src, &src, &unix_path("/d"), TargetState::Occupied).unwrap_err();
    assert!(err.to_string().contains("源目录位于目标内部"));
}

#[test]
fn create_parents_builds_the_whole_chain() {
    let states = vec![Absent, Absent, Absent, Dir, Dir];
    let created = missing_parents(&unix_path("/d/a/b/c/target"), &states).unwrap();
    assert_eq!(created, vec![unix_path("/d/a"), unix_path("/d/a/b"), unix_path("/d/a/b/c")]);
}

#[test]
fn create_parents_only_reports_dirs_it_made() {
    let states = vec![Absent, Dir, Dir, Dir];
    let created = missing_parents(&unix_path("/d/already/new/target"), &states).unwrap();
    assert_eq!(created, vec![unix_path("/d/already/new")]);
}

#[test]
fn create_parents_is_a_noop_when_parent_exists() {
    let states = vec![PlaceState::Dir, PlaceState::Dir];
    assert!(missing_parents(&unix_path("/d/target"), &states).unwrap().is_empty());
}

#[test]
fn create_parents_rejects_a_file_in_the_way() {
    let states = vec![Absent, Other, Dir, Dir];
    let err = missing_parents(&unix_path("/d/blocker/sub/target"), &states).unwrap_err();
    assert!(err.to_string().contains("不是目录"), "{err:?}");
    assert!(err.to_string().contains("/d/blocker"), "{err:?}");
}

#[test]
fn create_parents_refuses_to_invent_a_missing_root() {
    let states = vec![PlaceState::Absent; 3];
    let err = missing_parents(&win_path(r"Q:\nope\deeper\target"), &states).unwrap_err();
    assert!(err.to_string().contains("盘符"), "{err:?}");

    let states = vec![PlaceState::Absent, PlaceState::Absent, PlaceState::Dir];
    let target = unix_path("/nonexistent_root_xyz/nope/target");
    assert!(!missing_parents(&target, &states).unwrap().is_empty());
}

#[test]
fn a_root_has_no_parents_to_make() {
    let err = missing_parents(&unix_path("/"), &vec![]).unwrap_err();
    assert!(matches!(err, Error::InvalidPath { .. }));
}

#[test]
fn nearest_existing_ancestor_walks_up() {
    let deep = unix_path("/tmp/cshell_anc/nope/nope");
    assert_eq!(ancestors(&deep).len(), 5);
    let there = vec![false, false, false, true, true];
    let found = nearest_existing_ancestor(&deep, &there).unwrap();
    assert_eq!(found, unix_path("/tmp"));
    assert!(deep.starts_with(&found));
    assert_eq!(nearest_existing_ancestor(&deep, &vec![false; 5]), None);
}

#[test]
fn volumes_are_told_apart_by_their_numbers() {
    assert_eq!(same_volume(&Ok(7), &Some(Ok(7))), Some(true));
    assert_eq!(same_volume(&Ok(7), &Some(Ok(8))), Some(false));
    assert_eq!(same_volume(&Ok(7), &None), None);
    assert_eq!(available_at(&Some(Ok(12))), Some(12));
    assert_eq!(available_at(&None), None);
}

/// Begins to move a directory of this name, which the system found to be `found`.
fn begin_move(
    named: PathBuf,
    found: &str,
    home: &Option<PathBuf>,
    cwd: &Option<PathBuf>,
    force: bool,
) -> Result<Option<String>, Error> {
    let target = win_path(r"D:\there");
    let args = MoveArgs {
        source: named.clone(),
        target: target.clone(),
        threads: None,
        dry_run: false,
        verbose: false,
        quiet: true,
        force,
        no_link: false,
        link_type: LinkType::Junction,
        no_follow_link: false,
    };
    let found = Some(PathBuf::parse(named.style, found.as_bytes()));
    let job = Job { source: named.clone(), real_source: named, source_was_link: None, target };
    let stamp = "2026-09-11 00:00:00".to_string();
    let places = vec![Dir];
    let begun = run_move(
        &args, job, false, &found, home, cwd, &places, stamp, 7, System::Windows, errnos(),
    );
    begun.map(|(warning, _)| warning)
}

/// A directory is judged by what it really is, and named as it was named.
#[test]
fn a_short_name_does_not_get_around_the_checks() {
    for force in [false, true] {
        let named = win_path(r"C:\WINDOW~1");
        let e = begin_move(named.clone(), r"\\?\C:\Windows", &None, &None, force).unwrap_err();
        assert!(matches!(e, Error::Unsafe { can_force: false, path: p, .. } if p == named));
        let named = win_path(r"C:\PROGRA~1");
        assert!(begin_move(named, r"\\?\C:\Program Files", &None, &None, force).is_err());
    }
    assert_eq!(begin_move(win_path(r"C:\DATA~1"), r"\\?\C:\Data", &None, &None, false), Ok(None));
}

#[test]
fn another_letter_case_does_not_get_around_the_checks() {
    for (named, found) in [("/USR", "/usr"), ("/library", "/Library")] {
        let e = begin_move(unix_path(named), found, &None, &None, true).unwrap_err();
        assert!(matches!(e, Error::Unsafe { can_force: false, .. }));
    }
    let home = Some(win_path(r"C:\Users\Me"));
    let named = win_path(r"C:\USERS\ME");
    let e = begin_move(named.clone(), r"\\?\C:\Users\Me", &home, &None, false).unwrap_err();
    assert!(matches!(e, Error::Unsafe { can_force: true, path: p, .. } if p == named));
    let cwd = Some(win_path(r"C:\Work\src"));
    let named = win_path(r"C:\WORK");
    assert!(begin_move(named.clone(), r"\\?\C:\Work", &None, &cwd, false).is_err());
    let warning = begin_move(named, r"\\?\C:\Work", &None, &cwd, true).unwrap().unwrap();
    assert!(warning.contains(r"'C:\Work' 包含你当前所在的工作目录"));
}
