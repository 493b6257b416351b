use cshell::copy::partial_path;
use cshell::error::{FaultKind, IoFault};
use cshell::link::{absolutize, canonical_key, canonicalize, normalize_dots};
use cshell::path::{PathBuf, Style};
use cshell::platform::{self, unix, windows, System};

fn unix_path(s: &str) -> PathBuf {
    PathBuf::parse(Style::Unix, s.as_bytes())
}

fn win_path(s: &str) -> PathBuf {
    PathBuf::parse(Style::Windows, s.as_bytes())
}

fn wide(s: &str) -> Vec<u16> {
    s.encode_utf16().collect()
}

fn decode(w: &[u16]) -> String {
    let end = w.iter().position(|&c| c == 0).unwrap_or(w.len());
    String::from_utf16_lossy(&w[..end])
}

fn fault(kind: FaultKind, code: Option<i32>) -> IoFault {
    IoFault { kind, code, text: "io".to_string() }
}

#[test]
fn normalize_dots_removes_cur_and_parent() {
    assert_eq!(normalize_dots(&unix_path("/a/./b")), unix_path("/a/b"));
    assert_eq!(normalize_dots(&unix_path("/a/b/../c")), unix_path("/a/c"));
    assert_eq!(normalize_dots(&unix_path("/a/b/../../c")), unix_path("/c"));
    assert_eq!(normalize_dots(&unix_path("/../a")), unix_path("/a"));
    assert_eq!(normalize_dots(&unix_path("/../../..")), unix_path("/"));
    assert_eq!(normalize_dots(&unix_path("../a")), unix_path("../a"));
}

#[test]
fn strip_verbatim_handles_disk_unc_and_unprefixed() {
    assert_eq!(platform::strip_verbatim(&win_path(r"\\?\C:\Users\a\b")), win_path(r"C:\Users\a\b"));
    assert_eq!(platform::strip_verbatim(&win_path(r"\\?\C:\")), win_path(r"C:\"));
    assert_eq!(
        platform::strip_verbatim(&win_path(r"\\?\UNC\server\share\dir")),
        win_path(r"\\server\share\dir")
    );
    assert_eq!(platform::strip_verbatim(&win_path(r"C:\Users\a")), win_path(r"C:\Users\a"));
    assert_eq!(platform::strip_verbatim(&win_path(r"\\server\share\d")), win_path(r"\\server\share\d"));
    assert_eq!(platform::strip_verbatim(&win_path(r"a\b")), win_path(r"a\b"));
    let vol = r"\\?\Volume{11111111-2222-3333-4444-555555555555}\x";
    assert_eq!(platform::strip_verbatim(&win_path(vol)), win_path(vol));
    // Nothing is a prefix under the rules of Unix.
    assert_eq!(platform::strip_verbatim(&unix_path(r"\\?\C:\a")), unix_path(r"\\?\C:\a"));
}

#[test]
fn to_wide_prefixes_absolute_paths() {
    assert_eq!(decode(&windows::to_wide(&wide(r"C:\a\b"))), r"\\?\C:\a\b");
    assert_eq!(decode(&windows::to_wide(&wide(r"\\server\share\d"))), r"\\?\UNC\server\share\d");
    assert_eq!(decode(&windows::to_wide(&wide(r"\\?\C:\a"))), r"\\?\C:\a");
    assert_eq!(decode(&windows::to_wide(&wide(r"a\b"))), r"a\b");
}

#[test]
fn to_wide_normalizes_forward_slashes() {
    assert_eq!(decode(&windows::to_wide(&wide("C:/a/b"))), r"\\?\C:\a\b");
    assert_eq!(decode(&windows::to_wide(&wide(r"C:\a/b\c"))), r"\\?\C:\a\b\c");
    assert_eq!(decode(&windows::to_wide(&wide("//server/share/d"))), r"\\?\UNC\server\share\d");
}

#[test]
fn strip_verbatim_and_to_wide_roundtrip() {
    for p in [r"C:\a\b", r"\\server\share\d"] {
        let stripped = windows::strip_verbatim(&win_path(&decode(&windows::to_wide(&wide(p)))));
        assert_eq!(stripped, win_path(p), "{p}");
    }
}

#[test]
fn cross_device_detects_exdev() {
    let numbers = unix::errnos();
    let e = fault(FaultKind::Other, Some(libc::EXDEV));
    assert!(platform::is_cross_device(System::Linux, &numbers, &e));
    assert!(platform::is_cross_device(System::MacOs, &numbers, &e));
    let e = fault(FaultKind::NotFound, Some(libc::ENOENT));
    assert!(!platform::is_cross_device(System::Linux, &numbers, &e));

    // ERROR_NOT_SAME_DEVICE
    let windows = System::Windows;
    assert!(platform::is_cross_device(windows, &numbers, &fault(FaultKind::Other, Some(17))));
    assert!(!platform::is_cross_device(windows, &numbers, &fault(FaultKind::NotFound, Some(2))));
    assert!(!platform::is_cross_device(windows, &numbers, &fault(FaultKind::Other, None)));
}

#[test]
fn partial_path_is_sibling_of_target() {
    let target = unix_path("/data/disk2/moved");
    let p = partial_path(&target, 4711);
    assert_eq!(p.parent(), target.parent());
    assert_ne!(p, target);
    assert_eq!(p, unix_path("/data/disk2/.moved.cshl-partial-4711"));
}

#[test]
fn paths_are_read_by_their_rules() {
    let p = unix_path("//a//b/./c/..");
    assert!(p.rooted);
    assert_eq!(p.parts, vec![b"a".to_vec(), b"b".to_vec(), b"c".to_vec(), b"..".to_vec()]);
    assert_eq!(p.display(), "/a/b/c/..");
    assert_eq!(unix_path("").display(), "");
    assert_eq!(unix_path("/").display(), "/");
    assert_eq!(unix_path(r"a\b").parts, vec![br"a\b".to_vec()]);

    assert_eq!(win_path("C:/x\\y").display(), r"C:\x\y");
    assert_eq!(win_path(r"\\srv\sh\d").display(), r"\\srv\sh\d");
    assert_eq!(win_path(r"C:x").rooted, false);
}

#[test]
fn parts_of_a_path() {
    let p = unix_path("/a/b.tar.gz");
    assert_eq!(p.parent(), Some(unix_path("/a")));
    assert_eq!(p.file_name(), Some(b"b.tar.gz".to_vec()));
    assert_eq!(p.with_extension(b"json"), unix_path("/a/b.tar.json"));
    assert_eq!(unix_path("/").parent(), None);
    assert_eq!(unix_path("/").file_name(), None);
    assert_eq!(unix_path("/a/..").file_name(), None);
    assert_eq!(unix_path("/a/.bashrc").with_extension(b"x"), unix_path("/a/.bashrc.x"));
    assert!(p.starts_with(&unix_path("/a")));
    assert!(!unix_path("/ab").starts_with(&unix_path("/a")));
    assert_eq!(unix_path("/a").join(&unix_path("b/c")), unix_path("/a/b/c"));
    assert_eq!(unix_path("/a").join(&unix_path("/b")), unix_path("/b"));
    assert!(unix_path("/a").is_absolute());
    assert!(!unix_path("a").is_absolute());
    assert!(win_path(r"C:\a").is_absolute());
    assert!(!win_path(r"\a").is_absolute());
}

#[test]
fn written_paths_read_back() {
    for s in ["/", "a", "/a/b", "../a", "/with space/.hidden", ""] {
        let p = unix_path(s);
        assert_eq!(PathBuf::parse(Style::Unix, &p.render()), p);
    }
}

#[test]
fn bytes_that_are_no_text_are_shown_with_a_stand_in() {
    let p = PathBuf::parse(Style::Unix, b"/a\xff/b");
    assert_eq!(p.display(), "/a\u{fffd}/b");
    assert_eq!(p.render(), b"/a\xff/b".to_vec());
}

/// On Windows half of a surrogate pair is one character that is no text; on Unix each of
/// its bytes is.
#[test]
fn half_a_pair_is_shown_by_one_stand_in_on_windows() {
    let p = PathBuf::parse(Style::Windows, b"C:\\a\xed\xa0\x80b");
    assert_eq!(p.display(), "C:\\a\u{fffd}b");
    let p = PathBuf::parse(Style::Windows, b"C:\\\xed\xbf\xbf\xed\x9f\xbf");
    assert_eq!(p.display(), "C:\\\u{fffd}\u{d7ff}");
    let p = PathBuf::parse(Style::Unix, b"/a\xed\xa0\x80b");
    assert_eq!(p.display(), "/a\u{fffd}\u{fffd}\u{fffd}b");
}

#[test]
fn partial_path_is_never_the_target() {
    for name in [&b"\xff"[..], b".x.cshl-partial-7", b"\xe4\xb8", b"a b"] {
        let target = PathBuf::parse(Style::Unix, &[b"/d/", name].concat());
        let p = partial_path(&target, 7);
        assert_ne!(p, target);
        assert_eq!(p.parent(), target.parent());
    }
    let target = PathBuf::parse(Style::Unix, b"/d/\xff");
    assert_eq!(partial_path(&target, 7), unix_path("/d/.\u{fffd}.cshl-partial-7"));
    let target = PathBuf::parse(Style::Windows, b"D:\\x\xed\xa0\x80");
    assert_eq!(partial_path(&target, 7), win_path("D:\\.x\u{fffd}.cshl-partial-7"));
}

#[test]
fn absolutize_does_not_resolve_symlinks() {
    let cwd = Ok(unix_path("/work/here"));
    assert_eq!(absolutize(&unix_path("link/./x/../y"), &cwd), Ok(unix_path("/work/here/link/y")));
    assert_eq!(absolutize(&unix_path("/abs/link"), &cwd), Ok(unix_path("/abs/link")));
    let gone = Err(fault(FaultKind::NotFound, Some(2)));
    assert!(absolutize(&unix_path("x"), &gone).is_err());
    assert_eq!(absolutize(&unix_path("/x"), &gone), Ok(unix_path("/x")));
}

#[test]
fn canonical_key_resolves_parent_but_keeps_last_segment() {
    let real_parent = Some(unix_path("/tmp/real"));
    let k1 = canonical_key(&unix_path("/tmp/real/inner"), &real_parent);
    let k2 = canonical_key(&unix_path("/tmp/via/inner"), &real_parent);
    assert_eq!(k1, k2);
    assert_eq!(k1, unix_path("/tmp/real/inner"));
}

#[test]
fn canonical_key_does_not_resolve_the_link_itself() {
    let k = canonical_key(&unix_path("/tmp/link"), &Some(unix_path("/private/tmp")));
    assert_eq!(k.file_name(), Some(b"link".to_vec()));
}

#[test]
fn canonical_key_tolerates_missing_path() {
    let k = canonical_key(&unix_path("/tmp/not-created-yet"), &Some(unix_path("/tmp")));
    assert_eq!(k, unix_path("/tmp/not-created-yet"));
    let k2 = canonical_key(&unix_path("/tmp/no/such/parent"), &None);
    assert_eq!(k2, unix_path("/tmp/no/such/parent"));
}

#[test]
fn canonical_key_has_no_verbatim_prefix() {
    let k = canonical_key(&win_path(r"C:\d\inner"), &Some(win_path(r"C:\d")));
    assert_eq!(k.display(), r"C:\d\inner");
    let found = canonicalize(Ok(win_path(r"\\?\C:\d")));
    assert_eq!(found, Ok(win_path(r"C:\d")));
    assert!(canonicalize(Err(fault(FaultKind::NotFound, None))).is_err());
}

#[test]
fn cleaning_twice_changes_nothing_more() {
    for s in [r"\\?\C:\a", r"\\?\UNC\srv\share\d", r"C:\a", r"\\?\Volume{1}\x"] {
        let once = windows::strip_verbatim(&win_path(s));
        assert_eq!(windows::strip_verbatim(&once), once);
    }
    for s in ["/a/./b/../c", "../../x/..", "/..", "a/.."] {
        let once = normalize_dots(&unix_path(s));
        assert_eq!(normalize_dots(&once), once);
    }
}

/// The one form of a path is absolute, and has itself as its one form.
#[test]
fn a_key_is_its_own_key() {
    let cwd = Ok(unix_path("/work/here"));
    for (named, found) in [("../x/./l", Some("/real/x")), ("/a/b/../l", Some("/a")), ("l", None)] {
        let abs = absolutize(&unix_path(named), &cwd).unwrap();
        let found = found.map(unix_path);
        let k = canonical_key(&abs, &found);
        assert!(k.is_absolute());
        let again = absolutize(&k, &Ok(unix_path("/elsewhere"))).unwrap();
        assert_eq!(again, k);
        assert_eq!(canonical_key(&again, &found), k);
    }
    let k = canonical_key(&unix_path("/work/x/l"), &Some(unix_path("/real/x")));
    assert_eq!(k, unix_path("/real/x/l"));
}
