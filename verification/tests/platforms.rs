use cshell::cli::LinkType;
use cshell::error::{FaultKind, IoFault};
use cshell::link::{
    create_dir_link, kind_of, remove_dir_link, repoint_dir_link, target_of, CreateState,
    LinkAction, RepointEvent, RepointState,
};
use cshell::path::{PathBuf, Style};
use cshell::platform::unix::{
    available_space, buffer_size, cpath, entry_by_type, errnos, fill_next, mode_bits, range_chunk,
    stat_entry, EntryStep, Fill, Meta, TypeProbe,
};
use cshell::platform::windows::{
    copy_flags, cut_at_nul, entry_from_find_data, hardlink_id, is_dots, link_kind,
    mount_point_buffer, read_link_target, remove_dir, remove_file, win_err, FindData,
    TAG_MOUNT_POINT, TAG_SYMLINK,
};
use cshell::platform::{
    self, copy_file, copy_next, rename_next, rename_no_replace, CopyStep, EntryKind, LinkKind,
    RenameEvent, RenameStep, System,
};

fn unix_path(s: &str) -> PathBuf {
    PathBuf::parse(Style::Unix, s.as_bytes())
}

fn win_path(s: &str) -> PathBuf {
    PathBuf::parse(Style::Windows, s.as_bytes())
}

fn wide(s: &str) -> Vec<u16> {
    s.encode_utf16().collect()
}

fn fault(kind: FaultKind, code: i32) -> IoFault {
    IoFault { kind, code: Some(code), text: "io".to_string() }
}

fn other() -> IoFault {
    fault(FaultKind::Other, 1)
}

#[test]
fn rename_no_replace_refuses_existing_target() {
    let n = errnos();
    let linux = System::Linux;
    assert_eq!(rename_no_replace(linux), RenameStep::Exclusive);
    let taken = fault(FaultKind::AlreadyExists, libc::EEXIST);
    let s = rename_next(linux, &n, RenameStep::Exclusive, RenameEvent::Tried(Some(taken.clone())));
    assert_eq!(s, RenameStep::Over(Some(taken)));

    // A kernel without such a rename: look first, then rename.
    let none = fault(FaultKind::Other, libc::ENOSYS);
    let s = rename_next(linux, &n, RenameStep::Exclusive, RenameEvent::Tried(Some(none)));
    assert_eq!(s, RenameStep::Probe);
    assert_eq!(rename_next(linux, &n, RenameStep::Probe, RenameEvent::Probed(false)), RenameStep::Plain);
    match rename_next(linux, &n, RenameStep::Probe, RenameEvent::Probed(true)) {
        RenameStep::Over(Some(e)) => assert_eq!(e.kind, FaultKind::AlreadyExists),
        s => panic!("{s:?}"),
    }
    let s = rename_next(linux, &n, RenameStep::Plain, RenameEvent::Tried(None));
    assert_eq!(s, RenameStep::Over(None));
    assert_eq!(rename_no_replace(System::OtherUnix), RenameStep::Probe);
}

#[test]
fn files_are_copied_by_the_fastest_way_there_is() {
    let n = errnos();
    let linux = System::Linux;
    assert_eq!(copy_file(linux), CopyStep::Open);
    let s = copy_next(linux, &n, 10, CopyStep::Open, None);
    assert_eq!(s, CopyStep::Clone);
    assert_eq!(copy_next(linux, &n, 10, CopyStep::Clone, None), CopyStep::Attributes);
    assert_eq!(copy_next(linux, &n, 10, CopyStep::Clone, Some(other())), CopyStep::Range);
    assert_eq!(copy_next(linux, &n, 0, CopyStep::Clone, Some(other())), CopyStep::Discard);
    assert_eq!(copy_next(linux, &n, 10, CopyStep::Range, Some(other())), CopyStep::Discard);
    assert_eq!(copy_next(linux, &n, 10, CopyStep::Discard, None), CopyStep::Buffered);
    assert_eq!(copy_next(linux, &n, 10, CopyStep::Buffered, None), CopyStep::Over(None));

    // What is there already is never copied over.
    let taken = fault(FaultKind::AlreadyExists, libc::EEXIST);
    let s = copy_next(linux, &n, 10, CopyStep::Open, Some(taken.clone()));
    assert_eq!(s, CopyStep::Over(Some(taken.clone())));
    assert_eq!(copy_file(System::MacOs), CopyStep::Native);
    let s = copy_next(System::MacOs, &n, 10, CopyStep::Native, Some(taken.clone()));
    assert_eq!(s, CopyStep::Over(Some(taken)));
    assert_eq!(copy_next(System::MacOs, &n, 10, CopyStep::Native, Some(other())), CopyStep::Buffered);
    let s = copy_next(System::Windows, &n, 10, CopyStep::Native, Some(other()));
    assert_eq!(s, CopyStep::Over(Some(other())));
}

#[test]
fn amounts_of_copying() {
    assert_eq!(range_chunk(5, 0), 5);
    assert_eq!(range_chunk(u64::MAX, 0), 1 << 30);
    // What is beyond the size that was told is asked for too.
    assert_eq!(range_chunk(5, 5), 0x1_0000);
    assert_eq!(range_chunk(0, 7), 0x1_0000);
    let mut fill = Fill::More(0);
    for n in [5, 3] {
        fill = fill_next(fill, n);
    }
    assert_eq!(fill, Fill::More(8));
    assert_eq!(fill_next(fill, 0), Fill::Whole(8));
    assert_eq!(fill_next(fill, -1), Fill::Failed);
    assert_eq!(fill_next(Fill::More(0), 0), Fill::Whole(0));
    assert_eq!(fill_next(Fill::Whole(8), 4), Fill::Whole(8));
    assert_eq!(buffer_size(0), 64 * 1024);
    assert_eq!(buffer_size(100_000), 100_000);
    assert_eq!(buffer_size(u64::MAX), 4 * 1024 * 1024);
    assert_eq!(mode_bits(0o100640), 0o640);
    assert_eq!(available_space(3, 4096), 12288);
}

#[test]
fn a_path_with_a_zero_in_it_is_no_path() {
    assert_eq!(cpath(b"/a"), Ok(b"/a\0".to_vec()));
    assert_eq!(cpath(b"/a\0b").unwrap_err().kind, FaultKind::InvalidInput);
}

#[test]
fn entries_are_known_by_their_type() {
    match entry_by_type(b"l", TypeProbe::Link) {
        EntryStep::Known(i) => assert_eq!((i.kind, i.size), (EntryKind::Symlink, 0)),
        s => panic!("{s:?}"),
    }
    match entry_by_type(b"d", TypeProbe::Dir) {
        EntryStep::Known(i) => assert_eq!((i.kind, i.name), (EntryKind::Dir, b"d".to_vec())),
        s => panic!("{s:?}"),
    }
    assert_eq!(entry_by_type(b"f", TypeProbe::Other), EntryStep::Look);
    let gone = fault(FaultKind::NotFound, 2);
    assert_eq!(entry_by_type(b"f", TypeProbe::Failed(gone.clone())), EntryStep::Skip);
    assert_eq!(entry_by_type(b"f", TypeProbe::Failed(other())), EntryStep::Fail(other()));

    let meta = Meta { is_symlink: false, is_dir: false, nlink: 2, dev: 5, ino: 6, len: 7 };
    let i = stat_entry(b"f".to_vec(), Ok(meta)).unwrap();
    assert_eq!((i.kind, i.size, i.hardlink_id), (EntryKind::File, 7, Some((5, 6))));
    let i = stat_entry(b"f".to_vec(), Ok(Meta { nlink: 1, ..meta })).unwrap();
    assert_eq!(i.hardlink_id, None);
    let i = stat_entry(b"f".to_vec(), Ok(Meta { is_dir: true, ..meta })).unwrap();
    assert_eq!((i.kind, i.size, i.hardlink_id), (EntryKind::Dir, 0, None));
    let i = stat_entry(b"f".to_vec(), Err(gone)).unwrap();
    assert_eq!((i.kind, i.size), (EntryKind::File, 0));
    assert_eq!(stat_entry(b"f".to_vec(), Err(other())), Err(other()));
}

/// Only junctions and symbolic links are links, whatever else has a tag.
#[test]
fn placeholders_of_cloud_drives_are_no_links() {
    let reparse_dir = 0x410;
    let cloud = 0x9000_001A;
    let find = |tag| FindData { attributes: reparse_dir, tag, size_high: 1, size_low: 2 };
    assert_eq!(entry_from_find_data(&find(cloud)), (EntryKind::Dir, 0));
    assert_eq!(entry_from_find_data(&find(TAG_MOUNT_POINT)), (EntryKind::Symlink, 0));
    let file = FindData { attributes: 0x20, tag: TAG_SYMLINK, size_high: 1, size_low: 2 };
    assert_eq!(entry_from_find_data(&file), (EntryKind::File, 0x1_0000_0002));
    assert_eq!(link_kind(reparse_dir, cloud), None);
    assert_eq!(link_kind(reparse_dir, TAG_MOUNT_POINT), Some(LinkKind::Junction));
    assert_eq!(link_kind(reparse_dir, TAG_SYMLINK), Some(LinkKind::Symlink));
    assert_eq!(link_kind(0x10, TAG_SYMLINK), None);
    assert_eq!(platform::link_kind(true), Some(LinkKind::Symlink));
    assert_eq!(platform::link_kind(false), None);
}

#[test]
fn small_matters_of_windows() {
    assert_eq!(win_err(-2147024879), 17);
    assert_eq!(copy_flags(1), 0x1);
    assert_eq!(copy_flags(16 * 1024 * 1024), 0x1001);
    assert_eq!(remove_file().disposition, 0x13);
    assert_eq!(remove_dir().disposition, 0x3);
    assert_eq!(hardlink_id(1, 7, 1, 2), None);
    assert_eq!(hardlink_id(2, 7, 1, 2), Some((7, 0x1_0000_0002)));
    assert_eq!(cut_at_nul(&[65, 66, 0, 67]), vec![65, 66]);
    assert_eq!(cut_at_nul(&[65]), vec![65]);
    assert!(is_dots(&wide(".")));
    assert!(is_dots(&wide("..")));
    assert!(!is_dots(&wide("...")));
}

#[test]
fn junctions_read_back_what_was_written() {
    let target = wide(r"C:\data\moved");
    let buffer = mount_point_buffer(&target).unwrap();
    assert_eq!(&buffer[..4], &TAG_MOUNT_POINT.to_le_bytes());
    assert_eq!(read_link_target(&buffer), Ok(target));
    let long = vec![97u16; 5000];
    assert_eq!(mount_point_buffer(&long).unwrap_err().kind, FaultKind::InvalidInput);
}

#[test]
fn damaged_reparse_data_is_refused() {
    assert!(read_link_target(&[0; 4]).is_err());
    let mut buffer = mount_point_buffer(&wide(r"C:\a")).unwrap();
    buffer.truncate(20);
    assert!(read_link_target(&buffer).is_err());
    let mut unknown = mount_point_buffer(&wide(r"C:\a")).unwrap();
    unknown[0] = 0x1A;
    assert!(read_link_target(&unknown).is_err());
}

fn drive_create(target: &PathBuf, link: &PathBuf, t: LinkType, fail: &[&str]) -> (Vec<String>, Result<LinkKind, IoFault>) {
    let mut run = create_dir_link(target.clone(), link.clone(), t, &Ok(unix_path("/work")));
    let mut did = vec![];
    while let Some(a) = run.action() {
        let name = match a {
            LinkAction::MakeDir { .. } => "mkdir",
            LinkAction::SetMountPoint { .. } => "mount",
            LinkAction::RemoveDir { .. } => "rmdir",
            LinkAction::Symlink { .. } => "symlink",
            a => panic!("{a:?}"),
        };
        did.push(name.to_string());
        run = run.step(if fail.contains(&name) { Some(other()) } else { None });
    }
    match run.state {
        CreateState::Over(r) => (did, r),
        s => panic!("{s:?}"),
    }
}

#[test]
fn junctions_fall_back_to_symbolic_links() {
    let (t, l) = (win_path(r"D:\t"), win_path(r"C:\l"));
    let (did, r) = drive_create(&t, &l, LinkType::Junction, &[]);
    assert_eq!(did, vec!["mkdir", "mount"]);
    assert_eq!(r, Ok(LinkKind::Junction));
    let (did, r) = drive_create(&t, &l, LinkType::Junction, &["mount"]);
    assert_eq!(did, vec!["mkdir", "mount", "rmdir", "symlink"]);
    assert_eq!(r, Ok(LinkKind::Symlink));
    let (did, r) = drive_create(&t, &l, LinkType::Symlink, &[]);
    assert_eq!(did, vec!["symlink"]);
    assert_eq!(r, Ok(LinkKind::Symlink));
    let (_, r) = drive_create(&t, &l, LinkType::Junction, &["mount", "symlink"]);
    assert!(r.is_err());
    // There is only one kind on Unix.
    let (did, r) = drive_create(&unix_path("/t"), &unix_path("/l"), LinkType::Junction, &[]);
    assert_eq!(did, vec!["symlink"]);
    assert_eq!(r, Ok(LinkKind::Symlink));
}

#[test]
fn repoint_switches_target_and_keeps_both_intact() {
    let cwd = Ok(unix_path("/work"));
    let run = repoint_dir_link(unix_path("/d/l"), unix_path("../new"), LinkType::Junction, 3, &cwd);
    let tmp = match run.action() {
        Some(LinkAction::RemoveFile { at }) => at,
        a => panic!("{a:?}"),
    };
    assert_eq!(tmp.parent(), Some(unix_path("/d")));
    assert_ne!(tmp, unix_path("/d/l"));
    // Whether there was something to sweep does not matter.
    let run = run.step(RepointEvent::Tried(Some(fault(FaultKind::NotFound, 2))));
    let made = LinkAction::Symlink { target: unix_path("/new"), at: tmp.clone() };
    assert_eq!(run.action(), Some(made));
    let run = run.step(RepointEvent::Tried(None));
    let swap = LinkAction::Replace { from: tmp.clone(), to: unix_path("/d/l") };
    assert_eq!(run.action(), Some(swap));
    let run = run.step(RepointEvent::Tried(None));
    assert_eq!(run.state, RepointState::Over(Ok(LinkKind::Symlink)));
}

/// On Windows the old link is gone for a moment: where the new one fails it is made
/// again.
#[test]
fn repointing_on_windows_puts_the_old_link_back() {
    let cwd = Ok(win_path(r"E:\work"));
    let (at, new) = (win_path(r"C:\l"), win_path(r"D:\new"));
    let mut run = repoint_dir_link(at, new, LinkType::Symlink, 3, &cwd);
    let mut made = vec![];
    while let Some(a) = run.action() {
        let event = match a {
            LinkAction::Look { .. } => RepointEvent::Looked(Ok(Some(LinkKind::Symlink))),
            LinkAction::Read { .. } => RepointEvent::Said(Ok(win_path(r"\\?\D:\old"))),
            LinkAction::RemoveDir { at } => {
                assert_eq!(at, win_path(r"C:\l"));
                RepointEvent::Tried(None)
            }
            LinkAction::Symlink { target, .. } => {
                made.push(target.display());
                RepointEvent::Tried(if made.len() == 1 { Some(other()) } else { None })
            }
            a => panic!("{a:?}"),
        };
        run = run.step(event);
    }
    assert_eq!(made, vec![r"D:\new", r"D:\old"]);
    assert!(matches!(run.state, RepointState::Over(Err(_))));
}

#[test]
fn links_are_removed_as_what_they_are() {
    let l = unix_path("/l");
    assert_eq!(remove_dir_link(&l), LinkAction::RemoveFile { at: l.clone() });
    let l = win_path(r"C:\l");
    assert_eq!(remove_dir_link(&l), LinkAction::RemoveDir { at: l.clone() });
}

#[test]
fn kind_of_returns_none_for_plain_dir_and_missing_path() {
    assert_eq!(kind_of(Ok(None)), Ok(None));
    assert_eq!(kind_of(Err(fault(FaultKind::NotFound, 2))), Ok(None));
    assert_eq!(kind_of(Ok(Some(LinkKind::Symlink))), Ok(Some(LinkKind::Symlink)));
    assert!(kind_of(Err(other())).is_err());
    assert_eq!(target_of(&Ok(unix_path("/t"))), "/t");
    assert_eq!(target_of(&Err(other())), "<读取失败>");
    assert_eq!(LinkKind::Junction.to_string(), "junction");
}

#[test]
fn a_rename_across_volumes_says_so() {
    let n = errnos();
    for system in [System::Linux, System::MacOs] {
        for code in [libc::EXDEV, libc::EEXIST] {
            let e = fault(FaultKind::Other, code);
            let s = rename_next(system, &n, RenameStep::Exclusive, RenameEvent::Tried(Some(e.clone())));
            assert_eq!(s, RenameStep::Over(Some(e)));
        }
    }
}

/// A link says an absolute path, wherever it was made from.
#[test]
fn a_link_says_where_its_target_is_from_the_root() {
    let cwd = Ok(unix_path("/work/here"));
    let at = unix_path("/d/l");
    let run = create_dir_link(unix_path("../x/./y"), at.clone(), LinkType::Symlink, &cwd);
    let made = LinkAction::Symlink { target: unix_path("/work/x/y"), at: at.clone() };
    assert_eq!(run.action(), Some(made));
    // Without a working directory there is no telling.
    let gone = Err(fault(FaultKind::NotFound, 2));
    let run = create_dir_link(unix_path("x"), at.clone(), LinkType::Symlink, &gone);
    assert_eq!(run.state, CreateState::Over(Err(fault(FaultKind::NotFound, 2))));
    let run = repoint_dir_link(at.clone(), unix_path("x"), LinkType::Symlink, 3, &gone);
    assert_eq!(run.state, RepointState::Over(Err(fault(FaultKind::NotFound, 2))));
    // An absolute one needs none.
    let run = create_dir_link(unix_path("/x"), at.clone(), LinkType::Symlink, &gone);
    assert_eq!(run.action(), Some(LinkAction::Symlink { target: unix_path("/x"), at }));
}
