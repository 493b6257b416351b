//! Whole moves, on a file system that is held in memory.

use cshell::cli::{LinkType, MoveArgs, RestoreArgs};
use cshell::copy::{copy_tree, Progress, Task};
use cshell::error::{Error, FaultKind, IoFault};
use cshell::job::{missing_parents, resolve_job, Facts, PlaceState, TargetState};
use cshell::ledger::{apply, Change, Ledger, State};
use cshell::link::{canonical_key, create_dir_link, remove_dir_link, repoint_dir_link};
use cshell::link::{CreateState, LinkAction};
use cshell::link::{RepointEvent, RepointState};
use cshell::migrate::{run_move, MoveAction, MoveEvent, MoveState, Start};
use cshell::path::{PathBuf, Style};
use cshell::plan::{hardlink_groups, scan, Found, Listing, Plan};
use cshell::platform::unix::{errnos, Errnos};
use cshell::platform::{DirEntryInfo, EntryKind, LinkKind, System};
use cshell::remove::{remove_tree, RemoveProgress};
use cshell::restore::{choose_entry, run_restore, RestoreAction, RestoreEvent};
use cshell::restore::{RestoreStart, RestoreState};
use cshell::transfer::{Outcome, TransferAction, TransferEvent};
use cshell::volume::ancestors;
use std::collections::BTreeMap;

const PID: u32 = 77;

fn path(s: &str) -> PathBuf {
    PathBuf::parse(Style::Unix, s.as_bytes())
}

fn key(p: &PathBuf) -> String {
    String::from_utf8(p.render()).expect("plain names")
}

fn fault(kind: FaultKind, code: i32, text: &str) -> IoFault {
    IoFault { kind, code: Some(code), text: text.to_string() }
}

fn not_found() -> IoFault {
    fault(FaultKind::NotFound, libc::ENOENT, "No such file or directory (os error 2)")
}

fn taken() -> IoFault {
    fault(FaultKind::AlreadyExists, libc::EEXIST, "File exists (os error 17)")
}

#[derive(Debug, Clone, PartialEq, Eq)]
enum Node {
    Dir,
    File(u64),
    Link(String),
}

#[derive(Debug, Clone, PartialEq, Eq)]
struct Fake {
    nodes: BTreeMap<String, Node>,
    contents: BTreeMap<u64, Vec<u8>>,
    ledger: Entries,
    /// Where another volume is mounted.
    mount: Option<String>,
    /// Where reading, writing or removing fails.
    broken: Vec<String>,
    free: Option<u64>,
    hard_links: bool,
    next: u64,
    /// A directory that another process makes while a move is entered.
    meanwhile: Option<String>,
    /// What was done, by name.
    log: Vec<String>,
}

/// What is in the ledger.
#[derive(Debug, Clone, PartialEq, Eq)]
struct Entries(Vec<cshell::ledger::Entry>);

impl Fake {
    fn new() -> Fake {
        let mut nodes = BTreeMap::new();
        for d in ["/", "/d", "/vol2"] {
            nodes.insert(d.to_string(), Node::Dir);
        }
        Fake {
            nodes,
            contents: BTreeMap::new(),
            ledger: Entries(vec![]),
            mount: None,
            broken: vec![],
            free: None,
            hard_links: true,
            next: 1,
            meanwhile: None,
            log: vec![],
        }
    }

    fn two_volumes() -> Fake {
        Fake { mount: Some("/vol2".to_string()), ..Fake::new() }
    }

    fn dir(&mut self, at: &str) {
        self.nodes.insert(at.to_string(), Node::Dir);
    }

    fn file(&mut self, at: &str, content: &[u8]) {
        self.nodes.insert(at.to_string(), Node::File(self.next));
        self.contents.insert(self.next, content.to_vec());
        self.next += 1;
    }

    fn link(&mut self, at: &str, target: &str) {
        self.nodes.insert(at.to_string(), Node::Link(target.to_string()));
    }

    fn hard_link(&mut self, existing: &str, at: &str) {
        let node = self.nodes[existing].clone();
        self.nodes.insert(at.to_string(), node);
    }

    fn has(&self, at: &str) -> bool {
        self.nodes.contains_key(at)
    }

    fn read(&self, at: &str) -> Option<&[u8]> {
        match self.nodes.get(at) {
            Some(Node::File(i)) => Some(&self.contents[i]),
            _ => None,
        }
    }

    /// All that is at or below a place, with what it is.
    fn tree(&self, at: &str) -> Vec<(String, String)> {
        let mut r = vec![];
        for (k, n) in &self.nodes {
            if k == at || k.starts_with(&format!("{at}/")) {
                let what = match n {
                    Node::Dir => "dir".to_string(),
                    Node::File(i) => format!("file {:?}", self.contents[i]),
                    Node::Link(t) => format!("link {t}"),
                };
                r.push((k[at.len()..].to_string(), what));
            }
        }
        r
    }

    /// What a place really is, with all links on the way to it followed.
    fn resolve(&self, at: &str) -> Option<String> {
        let mut r = String::new();
        for name in at.split('/').filter(|n| !n.is_empty()) {
            let here = format!("{r}/{name}");
            r = match self.nodes.get(&here)? {
                Node::Link(t) if t.starts_with('/') => self.resolve(t)?,
                Node::Link(t) => self.resolve(&format!("{r}/{t}"))?,
                _ => here,
            };
        }
        Some(if r.is_empty() { "/".to_string() } else { r })
    }

    /// The one form of a path.
    fn key_of(&self, p: &PathBuf) -> PathBuf {
        let real_parent = p.parent().and_then(|u| self.resolve(&key(&u))).map(|u| path(&u));
        canonical_key(p, &real_parent)
    }

    fn children(&self, at: &str) -> Vec<String> {
        let head = if at == "/" { "/".to_string() } else { format!("{at}/") };
        let mut r = vec![];
        for k in self.nodes.keys() {
            if k.len() > head.len() && k.starts_with(&head) && !k[head.len()..].contains('/') {
                r.push(k.clone());
            }
        }
        r
    }

    fn device(&self, at: &str) -> u64 {
        match &self.mount {
            Some(m) if at.starts_with(m.as_str()) => 2,
            _ => 1,
        }
    }

    fn is_broken(&self, at: &str) -> bool {
        self.broken.iter().any(|b| b == at)
    }

    fn denied(&self) -> IoFault {
        fault(FaultKind::Other, libc::EACCES, "Permission denied (os error 13)")
    }

    fn listing(&self, dir: &PathBuf) -> Listing {
        let at = key(dir);
        if self.is_broken(&at) {
            return Err(self.denied());
        }
        if self.nodes.get(&at) != Some(&Node::Dir) {
            return Err(not_found());
        }
        let mut r = vec![];
        for k in self.children(&at) {
            let name = k.rsplit('/').next().unwrap().as_bytes().to_vec();
            let found = match &self.nodes[&k] {
                Node::Dir => Found {
                    info: DirEntryInfo { name, kind: EntryKind::Dir, size: 0, hardlink_id: None },
                    target: Err("no link".to_string()),
                },
                Node::Link(t) => Found {
                    info: DirEntryInfo { name, kind: EntryKind::Symlink, size: 0, hardlink_id: None },
                    target: Ok(t.as_bytes().to_vec()),
                },
                Node::File(i) => {
                    let names = self.nodes.values().filter(|n| **n == Node::File(*i)).count();
                    let hardlink_id = if names > 1 { Some((1, *i)) } else { None };
                    let size = self.contents[i].len() as u64;
                    Found {
                        info: DirEntryInfo { name, kind: EntryKind::File, size, hardlink_id },
                        target: Err("no link".to_string()),
                    }
                }
            };
            r.push(found);
        }
        Ok(r)
    }

    fn make_dir(&mut self, at: &str) -> Option<IoFault> {
        self.log.push(format!("mkdir {at}"));
        if self.is_broken(at) {
            return Some(self.denied());
        }
        if self.has(at) {
            return Some(taken());
        }
        self.dir(at);
        None
    }

    fn remove_dir(&mut self, at: &str) -> Option<IoFault> {
        self.log.push(format!("rmdir {at}"));
        if self.is_broken(at) {
            return Some(self.denied());
        }
        if self.nodes.get(at) != Some(&Node::Dir) {
            return Some(not_found());
        }
        if !self.children(at).is_empty() {
            return Some(fault(FaultKind::Other, libc::ENOTEMPTY, "Directory not empty"));
        }
        self.nodes.remove(at);
        None
    }

    fn remove_file(&mut self, at: &str) -> Option<IoFault> {
        self.log.push(format!("unlink {at}"));
        if self.is_broken(at) {
            return Some(self.denied());
        }
        match self.nodes.get(at) {
            None => Some(not_found()),
            Some(Node::Dir) => Some(fault(FaultKind::Other, libc::EISDIR, "Is a directory")),
            _ => {
                self.nodes.remove(at);
                None
            }
        }
    }

    fn symlink(&mut self, target: &str, at: &str) -> Option<IoFault> {
        self.log.push(format!("symlink {at}"));
        if self.is_broken(at) {
            return Some(self.denied());
        }
        if self.has(at) {
            return Some(taken());
        }
        self.link(at, target);
        None
    }

    fn rename(&mut self, from: &str, to: &str, replace: bool) -> Option<IoFault> {
        self.log.push(format!("rename {from} {to}"));
        if !self.has(from) {
            return Some(not_found());
        }
        if self.has(to) && !replace {
            return Some(taken());
        }
        if self.device(from) != self.device(to) {
            return Some(fault(FaultKind::Other, libc::EXDEV, "Invalid cross-device link"));
        }
        if self.is_broken(to) {
            return Some(self.denied());
        }
        let moved: Vec<String> = self
            .nodes
            .keys()
            .filter(|k| *k == from || k.starts_with(&format!("{from}/")))
            .cloned()
            .collect();
        for k in moved {
            let n = self.nodes.remove(&k).unwrap();
            self.nodes.insert(format!("{to}{}", &k[from.len()..]), n);
        }
        None
    }

    fn copy(&mut self, from: &str, to: &str) -> Option<IoFault> {
        self.log.push(format!("copy {from}"));
        if self.is_broken(from) {
            return Some(self.denied());
        }
        match self.read(from) {
            None => Some(not_found()),
            Some(c) => {
                let c = c.to_vec();
                self.file(to, &c);
                None
            }
        }
    }

    fn sweep(&mut self, at: &str) {
        let gone: Vec<String> =
            self.nodes.keys().filter(|k| *k == at || k.starts_with(&format!("{at}/"))).cloned().collect();
        for k in gone {
            self.nodes.remove(&k);
        }
    }

    fn scan(&self, root: &PathBuf) -> Result<Plan, Error> {
        let mut s = scan(root.clone());
        while let Some(t) = s.take() {
            let listing = self.listing(&s.path(t));
            assert!(s.fits(&listing));
            s.absorb(t, listing);
        }
        assert!(s.is_done());
        s.finish()
    }

    fn perform(&mut self, task: Task) -> Option<IoFault> {
        match task {
            Task::MakeDir { path } => self.make_dir(&key(&path)),
            Task::MakeLink { target, path } => {
                self.symlink(&String::from_utf8(target).unwrap(), &key(&path))
            }
            Task::CopyFile { from, to, .. } => self.copy(&key(&from), &key(&to)),
            Task::HardLink { existing, link } => {
                self.log.push(format!("link {}", key(&link)));
                if !self.hard_links {
                    return Some(fault(FaultKind::Other, libc::EPERM, "Operation not permitted"));
                }
                self.hard_link(&key(&existing), &key(&link));
                None
            }
        }
    }

    fn copy_all(&mut self, from: PathBuf, to: PathBuf, plan: &Plan) -> Progress {
        let mut run = copy_tree(from, to, plan, Progress::new());
        while let Some(t) = run.take() {
            let task = run.task(t);
            let r = self.perform(task);
            run.settle(t, r);
        }
        assert!(run.is_finished());
        run.into_progress()
    }

    fn remove_all(&mut self, root: &PathBuf, plan: &Plan) -> RemoveProgress {
        let mut run = remove_tree(root, plan).expect("a tree");
        while let Some(d) = run.take() {
            let mut results = vec![];
            for s in run.steps(d) {
                let at = key(&s.path);
                results.push(if s.is_dir { self.remove_dir(&at) } else { self.remove_file(&at) });
            }
            run.settle(d, &results);
        }
        assert!(run.is_finished());
        run.into_progress()
    }

    fn transfer(&mut self, action: TransferAction, plan: Option<&Plan>) -> TransferEvent {
        match action {
            TransferAction::Scan { root } => TransferEvent::Scanned(self.scan(&root)),
            TransferAction::Space { .. } => TransferEvent::Free(self.free),
            TransferAction::Sweep { at } => {
                self.sweep(&key(&at));
                TransferEvent::Tried(None)
            }
            TransferAction::MakeDir { at } => TransferEvent::Tried(self.make_dir(&key(&at))),
            TransferAction::Copy { from, to } => {
                TransferEvent::Copied(self.copy_all(from, to, plan.expect("a plan")))
            }
            TransferAction::Rename { from, to } => {
                TransferEvent::Tried(self.rename(&key(&from), &key(&to), false))
            }
            TransferAction::Remove { root } => {
                let mut p = self.remove_all(&root, plan.expect("a plan"));
                TransferEvent::Removed(p.take_failures())
            }
        }
    }

    fn kind(&self, at: &str) -> Result<Option<LinkKind>, IoFault> {
        match self.nodes.get(at) {
            None => Err(not_found()),
            Some(Node::Link(_)) => Ok(Some(LinkKind::Symlink)),
            _ => Ok(None),
        }
    }

    fn do_link(&mut self, action: LinkAction) -> RepointEvent {
        match action {
            LinkAction::RemoveFile { at } => RepointEvent::Tried(self.remove_file(&key(&at))),
            LinkAction::Symlink { target, at } => {
                RepointEvent::Tried(self.symlink(&key(&target), &key(&at)))
            }
            LinkAction::Replace { from, to } => {
                let (from, to) = (key(&from), key(&to));
                let old = self.nodes.remove(&to);
                let f = self.rename(&from, &to, true);
                if let (Some(_), Some(node)) = (&f, old) {
                    self.nodes.insert(to, node);
                }
                RepointEvent::Tried(f)
            }
            other => panic!("not on Unix: {other:?}"),
        }
    }

    fn place(&mut self, repoint: bool, link: PathBuf, target: PathBuf, t: LinkType) -> Result<LinkKind, IoFault> {
        if repoint {
            let mut run = repoint_dir_link(link, target, t, PID, &Ok(path("/d")));
            while let Some(a) = run.action() {
                let e = self.do_link(a);
                run = run.step(e);
            }
            match run.state {
                RepointState::Over(r) => r,
                s => panic!("{s:?}"),
            }
        } else {
            let mut run = create_dir_link(target, link, t, &Ok(path("/d")));
            while let Some(a) = run.action() {
                match self.do_link(a) {
                    RepointEvent::Tried(f) => run = run.step(f),
                    e => panic!("{e:?}"),
                }
            }
            match run.state {
                CreateState::Over(r) => r,
                s => panic!("{s:?}"),
            }
        }
    }

    fn change(&mut self, change: Change) -> Option<Error> {
        if self.is_broken("ledger") {
            return Some(Error::Ledger("broken".to_string()));
        }
        if matches!(change, Change::Begin(_)) {
            if let Some(at) = self.meanwhile.take() {
                self.dir(&at);
            }
        }
        let mut l = Ledger { version: 1, entries: vec![] };
        l.entries.append(&mut self.ledger.0.clone());
        match apply(l, change) {
            Ok(l) => {
                self.ledger = Entries(l.entries);
                None
            }
            Err(e) => Some(e),
        }
    }

    fn state_of(&self, at: &str) -> TargetState {
        match self.nodes.get(at) {
            None => TargetState::Absent,
            Some(Node::Dir) if self.children(at).is_empty() => TargetState::Empty,
            Some(Node::Dir) => TargetState::Occupied,
            Some(_) => TargetState::NotDir,
        }
    }

    fn facts(&self, args: &MoveArgs) -> Facts {
        let source = self.key_of(&args.source);
        let target = self.key_of(&args.target);
        let at = key(&source);
        let resolved = match self.nodes.get(&at) {
            Some(Node::Link(t)) => t.clone(),
            _ => at.clone(),
        };
        let said = match self.nodes.get(&at) {
            Some(Node::Link(t)) => Ok(path(t)),
            _ => Err(fault(FaultKind::InvalidInput, libc::EINVAL, "Invalid argument")),
        };
        Facts {
            source_is_dir: self.nodes.get(&at).map(|n| *n == Node::Dir),
            kind: self.kind(&at),
            said,
            resolved_is_dir: self.nodes.get(&resolved) == Some(&Node::Dir),
            resolved: if self.has(&resolved) { Ok(path(&resolved)) } else { Err(not_found()) },
            target_state: self.state_of(&key(&target)),
            source: Ok(source),
            target: Ok(target),
        }
    }

    fn places(&self, target: &PathBuf) -> Vec<PlaceState> {
        let mut states = vec![];
        if let Some(p) = target.parent() {
            for a in ancestors(&p) {
                states.push(match self.nodes.get(&key(&a)) {
                    None => PlaceState::Absent,
                    Some(Node::Dir) => PlaceState::Dir,
                    Some(_) => PlaceState::Other,
                });
            }
        }
        states
    }

    fn mv(&mut self, args: &MoveArgs) -> Result<Option<(Outcome, Option<LinkKind>)>, Error> {
        let (job, clear) = resolve_job(args, self.facts(args))?;
        let home = Some(path("/home/me"));
        let found = self.resolve(&key(&job.real_source)).map(|p| path(&p));
        let places = self.places(&job.target);
        let stamp = "2026-09-11 00:00:00".to_string();
        let numbers = errnos();
        let start = run_move(
            args, job, clear, &found, &home, &None, &places, stamp, PID, System::Linux, numbers,
        )?;
        let mut m = match start.1 {
            Start::Preview(_) => return Ok(None),
            Start::Go(m) => m,
        };
        while let Some(a) = m.action() {
            let event = match a {
                MoveAction::RemoveDir { at } => MoveEvent::Tried(self.remove_dir(&key(&at))),
                MoveAction::MakeDir { at } => MoveEvent::Tried(self.make_dir(&key(&at))),
                MoveAction::Begin { entry } => MoveEvent::Entered(self.change(Change::Begin(entry))),
                MoveAction::Forget { source } => {
                    MoveEvent::Entered(self.change(Change::Remove(source)))
                }
                MoveAction::Complete { source, done } => {
                    MoveEvent::Entered(self.change(Change::Complete(source, done)))
                }
                MoveAction::Rename { from, to } => {
                    MoveEvent::Tried(self.rename(&key(&from), &key(&to), false))
                }
                MoveAction::Transfer(a) => {
                    let plan = match &m.state {
                        MoveState::Transfer(t) => t.plan(),
                        _ => None,
                    };
                    MoveEvent::Transferred(self.transfer(a, plan))
                }
                MoveAction::Link { repoint, link, target, preferred } => {
                    MoveEvent::Linked(self.place(repoint, link, target, preferred))
                }
            };
            m = m.step(event);
        }
        match m.state {
            MoveState::Over(r) => r.map(Some),
            s => panic!("{s:?}"),
        }
    }

    fn restore(&mut self, args: &RestoreArgs) -> Result<Option<Outcome>, Error> {
        let mut l = Ledger { version: 1, entries: vec![] };
        l.entries.append(&mut self.ledger.0.clone());
        let known = self.key_of(&args.source);
        let (source, entry) = choose_entry(&args.source, Ok(known), Ok(l))?;
        let is_dir = self.nodes.get(&key(&entry.target)) == Some(&Node::Dir);
        let start = run_restore(args, source, entry, is_dir, PID, System::Linux, errnos())?;
        let mut m = match start {
            RestoreStart::Preview(_) => return Ok(None),
            RestoreStart::Go(m) => m,
        };
        while let Some(a) = m.action() {
            let event = match a {
                RestoreAction::Look { at } => RestoreEvent::Looked(self.kind(&key(&at))),
                RestoreAction::Unlink { at } => RestoreEvent::Tried(self.remove_file(&key(&at))),
                RestoreAction::Rename { from, to } => {
                    RestoreEvent::Tried(self.rename(&key(&from), &key(&to), false))
                }
                RestoreAction::Transfer(a) => {
                    let plan = match &m.state {
                        RestoreState::Transfer(t) => t.plan(),
                        _ => None,
                    };
                    RestoreEvent::Transferred(self.transfer(a, plan))
                }
                RestoreAction::Link { repoint, link, target, preferred } => {
                    RestoreEvent::Linked(self.place(repoint, link, target, preferred))
                }
                RestoreAction::Forget { source } => {
                    RestoreEvent::Entered(self.change(Change::Remove(source)))
                }
            };
            m = m.step(event);
        }
        match m.state {
            RestoreState::Over(r) => r.map(Some),
            s => panic!("{s:?}"),
        }
    }
}

fn move_args(source: &str, target: &str) -> MoveArgs {
    MoveArgs {
        source: path(source),
        target: path(target),
        threads: None,
        dry_run: false,
        verbose: false,
        quiet: true,
        force: false,
        no_link: false,
        link_type: LinkType::Junction,
        no_follow_link: false,
    }
}

fn restore_args(source: &str) -> RestoreArgs {
    RestoreArgs { source: path(source), threads: None, dry_run: false, verbose: false, quiet: true }
}

/// A tree with directories, files of several names, and links.
fn plant(fs: &mut Fake, at: &str) {
    fs.dir(at);
    fs.dir(&format!("{at}/a"));
    fs.dir(&format!("{at}/a/b"));
    fs.dir(&format!("{at}/empty"));
    fs.file(&format!("{at}/top.txt"), b"top");
    fs.file(&format!("{at}/a/mid.bin"), &[7; 1000]);
    fs.file(&format!("{at}/a/b/deep.txt"), b"deep!");
    fs.file(&format!("{at}/shared"), b"shared");
    fs.hard_link(&format!("{at}/shared"), &format!("{at}/a/shared2"));
    fs.hard_link(&format!("{at}/shared"), &format!("{at}/a/b/shared3"));
    fs.link(&format!("{at}/inside"), "a/b");
    fs.link(&format!("{at}/outside"), "/etc");
}

fn inode(fs: &Fake, at: &str) -> u64 {
    match fs.nodes[at] {
        Node::File(i) => i,
        _ => panic!("no file at {at}"),
    }
}

// ---- scanning ----

#[test]
fn scan_finds_all_dirs_files_and_bytes() {
    let mut fs = Fake::new();
    for d in ["/d/s", "/d/s/a", "/d/s/a/b", "/d/s/a/b/c", "/d/s/x"] {
        fs.dir(d);
    }
    fs.file("/d/s/root.txt", b"1234567890");
    fs.file("/d/s/a/one.txt", b"abc");
    fs.file("/d/s/a/b/c/deep.bin", &[0; 1000]);
    let plan = fs.scan(&path("/d/s")).unwrap();
    assert_eq!(plan.dirs.len(), 4);
    assert_eq!(plan.files.len(), 3);
    assert_eq!(plan.total_bytes, 1013);
    assert!(plan.unreadable.is_empty());
}

#[test]
fn a_scan_lists_links_and_all_names() {
    let mut fs = Fake::new();
    plant(&mut fs, "/d/src");
    let plan = fs.scan(&path("/d/src")).unwrap();
    assert_eq!(plan.dirs.len(), 3);
    assert_eq!(plan.files.len(), 6);
    assert_eq!(plan.symlinks.len(), 2);
    assert_eq!(plan.total_bytes, 3 + 1000 + 5 + 3 * 6);
    assert_eq!(plan.total_items(), 11);
}

#[test]
fn dirs_are_sorted_parents_before_children() {
    let mut fs = Fake::new();
    for d in ["/d/s", "/d/s/a", "/d/s/a/b", "/d/s/a/b/c", "/d/s/a/b/c/d", "/d/s/a/b/c/d/e"] {
        fs.dir(d);
    }
    let plan = fs.scan(&path("/d/s")).unwrap();
    let mut seen: Vec<PathBuf> = vec![];
    for d in plan.dirs {
        let up = d.parent().expect("a directory below the top");
        assert!(up.is_empty() || seen.contains(&up));
        seen.push(d);
    }
    assert_eq!(seen.len(), 5);
}

#[test]
fn dirs_are_sorted_by_depth() {
    let mut fs = Fake::new();
    for d in ["/d/s", "/d/s/z", "/d/s/z/y", "/d/s/z/y/x", "/d/s/a", "/d/s/a/b"] {
        fs.dir(d);
    }
    let plan = fs.scan(&path("/d/s")).unwrap();
    let depths: Vec<usize> = plan.dirs.iter().map(|d| d.parts.len()).collect();
    assert_eq!(depths, vec![1, 1, 2, 2, 3]);
}

#[test]
fn files_are_sorted_largest_first_for_lpt() {
    let mut fs = Fake::new();
    fs.dir("/d/s");
    fs.file("/d/s/small", &[0; 10]);
    fs.file("/d/s/huge", &[0; 100_000]);
    fs.file("/d/s/medium", &[0; 5_000]);
    let plan = fs.scan(&path("/d/s")).unwrap();
    let sizes: Vec<u64> = plan.files.iter().map(|f| f.size).collect();
    assert_eq!(sizes, vec![100_000, 5_000, 10]);
}

#[test]
fn symlinks_are_recorded_not_followed() {
    let mut fs = Fake::new();
    fs.dir("/d/s");
    fs.dir("/d/s/inner");
    fs.dir("/d/outside");
    fs.file("/d/outside/secret.txt", b"should not be copied");
    fs.link("/d/s/escape", "/d/outside");
    let plan = fs.scan(&path("/d/s")).unwrap();
    assert_eq!(plan.symlinks.len(), 1);
    assert_eq!(plan.symlinks[0].rel, path("escape"));
    assert_eq!(plan.symlinks[0].target, b"/d/outside".to_vec());
    assert_eq!(plan.files.len(), 0);
    assert!(!plan.dirs.contains(&path("escape")));
}

#[test]
fn hardlinks_are_detected() {
    let mut fs = Fake::new();
    fs.dir("/d/s");
    fs.file("/d/s/a.bin", b"shared content");
    fs.hard_link("/d/s/a.bin", "/d/s/b.bin");
    let plan = fs.scan(&path("/d/s")).unwrap();
    assert_eq!(plan.files.len(), 2);
    assert!(plan.files.iter().all(|f| f.hardlink_id.is_some()));
    assert_eq!(plan.files[0].hardlink_id, plan.files[1].hardlink_id);
}

#[test]
fn names_of_one_file_form_a_group() {
    let mut fs = Fake::new();
    fs.dir("/d/s");
    fs.file("/d/s/a", b"x");
    fs.hard_link("/d/s/a", "/d/s/b");
    fs.file("/d/s/c", b"alone");
    let plan = fs.scan(&path("/d/s")).unwrap();
    let groups = hardlink_groups(&plan.files);
    assert_eq!(groups.len(), 1);
    assert_eq!(groups[0].len(), 2);
    let names: Vec<String> = groups[0].iter().map(|&i| key(&plan.files[i].rel)).collect();
    assert_eq!(names, vec!["a", "b"]);
}

#[test]
fn lone_file_has_no_hardlink_id() {
    let mut fs = Fake::new();
    fs.dir("/d/s");
    fs.file("/d/s/solo.txt", b"x");
    let plan = fs.scan(&path("/d/s")).unwrap();
    assert_eq!(plan.files.len(), 1);
    assert_eq!(plan.files[0].hardlink_id, None);
    assert!(hardlink_groups(&plan.files).is_empty());
}

#[test]
fn scan_handles_empty_dir() {
    let mut fs = Fake::new();
    fs.dir("/d/s");
    let plan = fs.scan(&path("/d/s")).unwrap();
    assert_eq!(plan.total_items(), 0);
    assert_eq!(plan.total_bytes, 0);
}

#[test]
fn scan_fails_loudly_on_missing_root() {
    let fs = Fake::new();
    let e = fs.scan(&path("/d/does-not-exist")).unwrap_err();
    assert!(matches!(e, Error::Io { .. }));
    assert!(e.to_string().contains("/d/does-not-exist/"));
}

#[test]
fn what_cannot_be_read_is_listed() {
    let mut fs = Fake::new();
    plant(&mut fs, "/d/src");
    fs.broken.push("/d/src/a".to_string());
    let plan = fs.scan(&path("/d/src")).unwrap();
    assert_eq!(plan.unreadable, vec![(path("a"), "Permission denied (os error 13)".to_string())]);
    assert_eq!(plan.files.len(), 2);
}

#[test]
fn deep_tree_scans_completely() {
    let mut fs = Fake::new();
    let mut at = "/d/s".to_string();
    fs.dir(&at);
    for i in 0..40 {
        at = format!("{at}/l{i}");
        fs.dir(&at);
    }
    fs.file(&format!("{at}/bottom.txt"), b"end");
    let plan = fs.scan(&path("/d/s")).unwrap();
    assert_eq!(plan.dirs.len(), 40);
    assert_eq!(plan.files.len(), 1);
}

/// Scans with directories handed out together, and taken back the last one first.
fn scan_backwards(fs: &Fake, root: &PathBuf) -> Result<Plan, Error> {
    let mut s = scan(root.clone());
    let mut out = vec![];
    loop {
        while let Some(t) = s.take() {
            out.push(t);
        }
        match out.pop() {
            None => break,
            Some(t) => {
                assert!(!s.is_done());
                let listing = fs.listing(&s.path(t));
                s.absorb(t, listing);
            }
        }
    }
    assert!(s.is_done());
    s.finish()
}

#[test]
fn wide_tree_scans_completely_under_concurrency() {
    let mut fs = Fake::new();
    fs.dir("/d/s");
    for i in 0..60 {
        fs.dir(&format!("/d/s/d{i}"));
        for j in 0..5 {
            fs.file(&format!("/d/s/d{i}/f{j}"), &[0; 100]);
        }
    }
    let plan = scan_backwards(&fs, &path("/d/s")).unwrap();
    assert_eq!(plan.dirs.len(), 60);
    assert_eq!(plan.files.len(), 300);
    assert_eq!(plan.total_bytes, 30_000);
}

/// What a scan lists, in an order of its own.
fn sorted(plan: &Plan) -> Vec<String> {
    let mut r: Vec<String> = plan.dirs.iter().map(|d| format!("dir {}", key(d))).collect();
    r.extend(plan.files.iter().map(|f| format!("file {} {}", key(&f.rel), f.size)));
    r.extend(plan.symlinks.iter().map(|l| format!("link {} {:?}", key(&l.rel), l.target)));
    r.extend(plan.unreadable.iter().map(|(p, e)| format!("unreadable {} {e}", key(p))));
    r.sort();
    r
}

#[test]
fn scans_agree_whatever_comes_back_first() {
    let mut fs = Fake::new();
    plant(&mut fs, "/d/src");
    let root = path("/d/src");
    let (a, b) = (fs.scan(&root).unwrap(), scan_backwards(&fs, &root).unwrap());
    assert_eq!(sorted(&a), sorted(&b));
    assert_eq!(a.total_bytes, b.total_bytes);
    // A directory that cannot be read fails neither.
    fs.broken.push("/d/src/a".to_string());
    let (a, b) = (fs.scan(&root).unwrap(), scan_backwards(&fs, &root).unwrap());
    assert_eq!(a.unreadable.len(), 1);
    assert_eq!(sorted(&a), sorted(&b));
    // The source itself fails both, in the same way.
    fs.broken.push("/d/src".to_string());
    assert_eq!(fs.scan(&root).unwrap_err(), scan_backwards(&fs, &root).unwrap_err());
}

// ---- copying ----

#[test]
fn copy_tree_reproduces_structure_and_content() {
    let mut fs = Fake::new();
    plant(&mut fs, "/d/src");
    fs.dir("/d/dst");
    let plan = fs.scan(&path("/d/src")).unwrap();
    let mut p = fs.copy_all(path("/d/src"), path("/d/dst"), &plan);
    assert!(!p.is_aborted());
    assert!(p.take_failures().is_empty());
    assert_eq!(fs.tree("/d/src"), fs.tree("/d/dst"));
    assert_eq!(p.files_done, 6);
    assert_eq!(p.bytes_done, 3 + 1000 + 5 + 6);
}

#[test]
fn copy_tree_preserves_hardlink_groups() {
    let mut fs = Fake::new();
    plant(&mut fs, "/d/src");
    fs.dir("/d/dst");
    let plan = fs.scan(&path("/d/src")).unwrap();
    fs.copy_all(path("/d/src"), path("/d/dst"), &plan);
    let i = inode(&fs, "/d/dst/shared");
    assert_eq!(inode(&fs, "/d/dst/a/shared2"), i);
    assert_eq!(inode(&fs, "/d/dst/a/b/shared3"), i);
    assert_ne!(inode(&fs, "/d/src/shared"), i);
}

#[test]
fn copy_falls_back_where_there_are_no_hard_links() {
    let mut fs = Fake::new();
    plant(&mut fs, "/d/src");
    fs.dir("/d/dst");
    fs.hard_links = false;
    let plan = fs.scan(&path("/d/src")).unwrap();
    let p = fs.copy_all(path("/d/src"), path("/d/dst"), &plan);
    assert!(!p.is_aborted());
    assert_eq!(fs.tree("/d/src"), fs.tree("/d/dst"));
    assert_eq!(p.bytes_done, plan.total_bytes);
}

/// Names are of one file in the copy just where they were and could be linked, and the
/// bytes are those of every file that was copied.
#[test]
fn names_of_one_file_are_of_one_file_in_the_copy() {
    let mut fs = Fake::new();
    fs.dir("/d/src");
    fs.dir("/d/dst");
    fs.file("/d/src/a", b"twelve bytes");
    fs.hard_link("/d/src/a", "/d/src/b");
    fs.file("/d/src/c", b"twelve bytes");
    fs.file("/d/src/e", b"four");
    fs.hard_link("/d/src/e", "/d/src/f");
    fs.hard_link("/d/src/e", "/d/src/g");
    let plan = fs.scan(&path("/d/src")).unwrap();
    let p = fs.copy_all(path("/d/src"), path("/d/dst"), &plan);
    assert_eq!((p.files_done, p.bytes_done), (6, 12 + 12 + 4));
    let all = ["a", "b", "c", "e", "f", "g"];
    for x in all {
        for y in all {
            let was = inode(&fs, &format!("/d/src/{x}")) == inode(&fs, &format!("/d/src/{y}"));
            let is = inode(&fs, &format!("/d/dst/{x}")) == inode(&fs, &format!("/d/dst/{y}"));
            assert_eq!(was, is, "{x} {y}");
            assert_ne!(inode(&fs, &format!("/d/src/{x}")), inode(&fs, &format!("/d/dst/{y}")));
        }
    }

    // Where they cannot be linked, each is a file of its own.
    fs.dir("/d/other");
    fs.hard_links = false;
    let p = fs.copy_all(path("/d/src"), path("/d/other"), &plan);
    assert_eq!((p.files_done, p.bytes_done), (6, 3 * 12 + 3 * 4));
    let mut seen: Vec<u64> = all.iter().map(|x| inode(&fs, &format!("/d/other/{x}"))).collect();
    seen.sort();
    seen.dedup();
    assert_eq!(seen.len(), 6);
}

#[test]
fn a_tree_at_a_relative_place_is_copied_and_removed() {
    let mut fs = Fake::new();
    plant(&mut fs, "here");
    fs.dir("there");
    fs.dir("hereafter");
    let plan = fs.scan(&path("here")).unwrap();
    let p = fs.copy_all(path("here"), path("there"), &plan);
    assert!(!p.is_aborted());
    assert_eq!(fs.tree("here"), fs.tree("there"));
    let p = fs.remove_all(&path("here"), &plan);
    assert_eq!(p.failure_count(), 0);
    assert!(fs.tree("here").is_empty());
    assert!(fs.has("hereafter"));
    assert_eq!(fs.read("there/a/b/shared3"), fs.read("there/shared"));
}

#[test]
fn a_second_name_that_cannot_be_had_at_all_is_a_failure() {
    let mut fs = Fake::new();
    plant(&mut fs, "/d/src");
    fs.dir("/d/dst");
    fs.hard_links = false;
    let plan = fs.scan(&path("/d/src")).unwrap();
    fs.broken.push("/d/src/a/shared2".to_string());
    fs.broken.push("/d/src/a/b/shared3".to_string());
    fs.broken.push("/d/src/shared".to_string());
    let mut p = fs.copy_all(path("/d/src"), path("/d/dst"), &plan);
    assert!(p.is_aborted());
    assert_eq!(p.take_failures().len(), 1);
}

#[test]
fn copy_tree_recreates_symlinks_without_following() {
    let mut fs = Fake::new();
    fs.dir("/d/s");
    fs.dir("/d/t");
    fs.link("/d/s/loop", "..");
    let plan = fs.scan(&path("/d/s")).unwrap();
    let p = fs.copy_all(path("/d/s"), path("/d/t"), &plan);
    assert!(!p.is_aborted());
    assert_eq!(fs.nodes["/d/t/loop"], Node::Link("..".to_string()));
    assert_eq!(p.bytes_done, 0);
}

#[test]
fn copy_tree_handles_empty_plan() {
    let mut fs = Fake::new();
    let plan = Plan::empty();
    let p = fs.copy_all(path("/d/s"), path("/d/t"), &plan);
    assert!(!p.is_aborted());
    assert_eq!(p.files_done, 0);
    assert!(fs.log.is_empty());
}

/// Nothing is handed out behind a failure, and directories come first.
#[test]
fn copying_stops_at_a_failure() {
    let mut fs = Fake::new();
    plant(&mut fs, "/d/src");
    fs.dir("/d/dst");
    fs.broken.push("/d/src/a/mid.bin".to_string());
    let plan = fs.scan(&path("/d/src")).unwrap();
    let mut p = fs.copy_all(path("/d/src"), path("/d/dst"), &plan);
    assert!(p.is_aborted());
    let failures = p.take_failures();
    assert_eq!(failures.len(), 1);
    assert_eq!(failures[0].path, path("/d/src/a/mid.bin"));
    // The largest file is tried first, so nothing else was copied.
    let copies: Vec<&String> = fs.log.iter().filter(|l| l.starts_with("copy")).collect();
    assert_eq!(copies, vec!["copy /d/src/a/mid.bin"]);
    let first = fs.log.iter().position(|l| l.starts_with("copy")).unwrap();
    assert!(fs.log[..3].iter().all(|l| l.starts_with("mkdir")), "{first}");
}

/// A file is never copied before the directories are there, whatever comes back
/// first.
#[test]
fn copying_waits_for_the_directories() {
    let mut fs = Fake::new();
    plant(&mut fs, "/d/src");
    let plan = fs.scan(&path("/d/src")).unwrap();
    let mut run = copy_tree(path("/d/src"), path("/d/dst"), &plan, Progress::new());
    let mut made = 0;
    while made < plan.dirs.len() {
        let t = run.take().expect("a directory");
        assert!(matches!(run.task(t), Task::MakeDir { .. }));
        // Nothing else is to be had until it is there.
        assert_eq!(run.take(), None);
        assert!(!run.is_finished());
        run.settle(t, None);
        made += 1;
    }
    let t = run.take().expect("a link");
    assert!(matches!(run.task(t), Task::MakeLink { .. }));
}

// ---- removing ----

#[test]
fn remove_tree_deletes_everything() {
    let mut fs = Fake::new();
    plant(&mut fs, "/d/src");
    let plan = fs.scan(&path("/d/src")).unwrap();
    let p = fs.remove_all(&path("/d/src"), &plan);
    assert_eq!(p.failure_count(), 0);
    assert!(!fs.has("/d/src"));
    assert!(fs.tree("/d/src").is_empty());
    assert_eq!(p.dirs_done, 4);
    assert_eq!(p.files_done, 8);
}

#[test]
fn remove_tree_handles_deep_nesting() {
    let mut fs = Fake::new();
    let mut at = "/d/s".to_string();
    fs.dir(&at);
    for i in 0..50 {
        at = format!("{at}/l{i}");
        fs.dir(&at);
    }
    let plan = fs.scan(&path("/d/s")).unwrap();
    let p = fs.remove_all(&path("/d/s"), &plan);
    assert_eq!(p.failure_count(), 0);
    assert!(!fs.has("/d/s"));
}

#[test]
fn remove_tree_handles_wide_tree() {
    let mut fs = Fake::new();
    fs.dir("/d/s");
    for i in 0..60 {
        fs.dir(&format!("/d/s/x{i}"));
        fs.file(&format!("/d/s/x{i}/f"), b"x");
    }
    let plan = fs.scan(&path("/d/s")).unwrap();
    let p = fs.remove_all(&path("/d/s"), &plan);
    assert_eq!(p.failure_count(), 0);
    assert!(!fs.has("/d/s"));
}

#[test]
fn remove_tree_deletes_symlink_not_its_target() {
    let mut fs = Fake::new();
    fs.dir("/d/s");
    fs.dir("/d/keep");
    fs.file("/d/keep/f", b"mine");
    fs.link("/d/s/l", "/d/keep");
    let plan = fs.scan(&path("/d/s")).unwrap();
    fs.remove_all(&path("/d/s"), &plan);
    assert!(!fs.has("/d/s"));
    assert_eq!(fs.read("/d/keep/f"), Some(&b"mine"[..]));
}

#[test]
fn remove_tree_handles_empty_dir() {
    let mut fs = Fake::new();
    fs.dir("/d/s");
    let plan = fs.scan(&path("/d/s")).unwrap();
    let p = fs.remove_all(&path("/d/s"), &plan);
    assert_eq!(p.failure_count(), 0);
    assert_eq!(p.dirs_done, 1);
    assert!(!fs.has("/d/s"));
}

/// What cannot be removed keeps what is above it, and is told.
#[test]
fn removing_goes_on_behind_a_failure() {
    let mut fs = Fake::new();
    plant(&mut fs, "/d/src");
    let plan = fs.scan(&path("/d/src")).unwrap();
    fs.broken.push("/d/src/a/b/deep.txt".to_string());
    let mut p = fs.remove_all(&path("/d/src"), &plan);
    let paths: Vec<String> = p.take_failures().iter().map(|f| key(&f.path)).collect();
    assert_eq!(paths, vec!["/d/src/a/b/deep.txt", "/d/src/a/b", "/d/src/a", "/d/src"]);
    assert!(!fs.has("/d/src/empty"));
    assert!(fs.has("/d/src/a/b/deep.txt"));
}

/// The order in which directories are listed does not matter.
#[test]
fn remove_tree_takes_directories_in_any_order() {
    let mut fs = Fake::new();
    plant(&mut fs, "/d/src");
    let mut plan = fs.scan(&path("/d/src")).unwrap();
    plan.dirs.reverse();
    assert_eq!(plan.dirs[0], path("a/b"));
    let p = fs.remove_all(&path("/d/src"), &plan);
    assert_eq!(p.failure_count(), 0);
    assert_eq!((p.dirs_done, p.files_done), (4, 8));
    assert!(!fs.has("/d/src"));
    // One that is listed twice, or without the one that it is in, cannot be taken.
    let twice = Plan { dirs: vec![path("a"), path("a")], ..Plan::empty() };
    assert!(remove_tree(&path("/d/src"), &twice).is_none());
    let stray = Plan { dirs: vec![path("a/b")], ..Plan::empty() };
    assert!(remove_tree(&path("/d/src"), &stray).is_none());
}

/// What was removed and what failed are all that there was, and the source itself.
#[test]
fn removal_counts_everything() {
    for broken in [vec![], vec!["/d/src/a/b/deep.txt"], vec!["/d/src/top.txt", "/d/src/empty"]] {
        let mut fs = Fake::new();
        plant(&mut fs, "/d/src");
        fs.file("/d/beside", b"kept");
        let plan = fs.scan(&path("/d/src")).unwrap();
        fs.broken = broken.iter().map(|b| b.to_string()).collect();
        let p = fs.remove_all(&path("/d/src"), &plan);
        assert_eq!(p.dirs_done + p.files_done + p.failure_count(), plan.total_items() + 1);
        assert_eq!(p.failure_count() == 0, !fs.has("/d/src"));
        assert_eq!(p.failure_count() == 0, broken.is_empty());
        assert!(fs.has("/d/beside"));
    }
}

// ---- moving ----

#[test]
fn same_volume_move_leaves_working_link() {
    let mut fs = Fake::new();
    plant(&mut fs, "/d/src");
    let before = fs.tree("/d/src");
    let (o, kind) = fs.mv(&move_args("/d/src", "/vol2/dst")).unwrap().unwrap();
    assert_eq!(o, Outcome { same_volume: true, bytes: 0, files: 0, dirs: 0 });
    assert_eq!(kind, Some(LinkKind::Symlink));
    assert_eq!(fs.tree("/vol2/dst"), before);
    assert_eq!(fs.nodes["/d/src"], Node::Link("/vol2/dst".to_string()));
}

#[test]
fn same_volume_move_preserves_hardlinks() {
    let mut fs = Fake::new();
    plant(&mut fs, "/d/src");
    fs.mv(&move_args("/d/src", "/vol2/dst")).unwrap();
    assert_eq!(inode(&fs, "/vol2/dst/shared"), inode(&fs, "/vol2/dst/a/shared2"));
}

#[test]
fn restore_roundtrip_is_lossless() {
    let mut fs = Fake::new();
    plant(&mut fs, "/d/src");
    let before = fs.nodes.clone();
    fs.mv(&move_args("/d/src", "/vol2/dst")).unwrap();
    let o = fs.restore(&restore_args("/d/src")).unwrap().unwrap();
    assert!(o.same_volume);
    assert_eq!(fs.nodes, before);
    assert!(fs.ledger.0.is_empty());
}

#[test]
fn follow_link_redirect_repoints_original_link() {
    let mut fs = Fake::new();
    plant(&mut fs, "/d/real");
    fs.link("/d/link", "/d/real");
    let before = fs.tree("/d/real");
    fs.mv(&move_args("/d/link", "/vol2/dst")).unwrap();
    assert!(!fs.has("/d/real"));
    assert_eq!(fs.tree("/vol2/dst"), before);
    assert_eq!(fs.nodes["/d/link"], Node::Link("/vol2/dst".to_string()));
    assert_eq!(fs.ledger.0[0].original_real_path, Some(path("/d/real")));

    // And back to where the link led, not to where it is.
    fs.restore(&restore_args("/d/link")).unwrap();
    assert_eq!(fs.tree("/d/real"), before);
    assert_eq!(fs.nodes["/d/link"], Node::Link("/d/real".to_string()));
    assert!(!fs.has("/vol2/dst"));
}

#[test]
fn moving_twice_makes_no_chain_of_links() {
    let mut fs = Fake::new();
    plant(&mut fs, "/d/src");
    fs.mv(&move_args("/d/src", "/vol2/one")).unwrap();
    fs.mv(&move_args("/d/src", "/vol2/two")).unwrap();
    assert_eq!(fs.nodes["/d/src"], Node::Link("/vol2/two".to_string()));
    assert!(!fs.has("/vol2/one"));
    assert_eq!(fs.ledger.0.len(), 1);
}

#[test]
fn no_follow_link_refuses_instead_of_redirecting() {
    let mut fs = Fake::new();
    plant(&mut fs, "/d/real");
    fs.link("/d/link", "/d/real");
    let before = fs.clone();
    let args = MoveArgs { no_follow_link: true, ..move_args("/d/link", "/vol2/dst") };
    let e = fs.mv(&args).unwrap_err();
    assert!(e.to_string().contains("symlink"));
    assert!(e.to_string().contains("/d/real"));
    assert_eq!(e.exit_code(), 1);
    assert_eq!(fs, before);
}

#[test]
fn no_link_moves_without_leaving_a_link() {
    let mut fs = Fake::new();
    plant(&mut fs, "/d/src");
    let args = MoveArgs { no_link: true, ..move_args("/d/src", "/vol2/dst") };
    let (_, kind) = fs.mv(&args).unwrap().unwrap();
    assert_eq!(kind, None);
    assert!(!fs.has("/d/src"));
    assert_eq!(fs.ledger.0[0].link_kind, "none");
}

#[test]
fn copy_failure_leaves_source_completely_untouched() {
    let mut fs = Fake::two_volumes();
    plant(&mut fs, "/d/src");
    let before = fs.nodes.clone();
    fs.broken.push("/d/src/a/b/deep.txt".to_string());
    let e = fs.mv(&move_args("/d/src", "/vol2/x/y/dst")).unwrap_err();
    assert_eq!(e.exit_code(), 2);
    assert!(e.to_string().contains("源目录未被改动"));
    // Nothing is left behind: no half copy, no directories that were made for it.
    assert_eq!(fs.nodes, before);
    assert!(fs.ledger.0.is_empty());
}

#[test]
fn rejects_target_inside_source() {
    let mut fs = Fake::new();
    plant(&mut fs, "/d/src");
    let before = fs.clone();
    let args = MoveArgs { force: true, ..move_args("/d/src", "/d/src/inner") };
    assert_eq!(fs.mv(&args).unwrap_err().exit_code(), 1);
    assert_eq!(fs, before);
}

#[test]
fn rejects_nonempty_target() {
    let mut fs = Fake::new();
    plant(&mut fs, "/d/src");
    fs.dir("/vol2/dst");
    fs.file("/vol2/dst/f", b"x");
    let before = fs.clone();
    assert_eq!(fs.mv(&move_args("/d/src", "/vol2/dst")).unwrap_err().exit_code(), 1);
    assert_eq!(fs, before);
}

#[test]
fn accepts_empty_target_dir() {
    let mut fs = Fake::new();
    plant(&mut fs, "/d/src");
    fs.dir("/vol2/dst");
    fs.mv(&move_args("/d/src", "/vol2/dst")).unwrap();
    assert_eq!(fs.nodes["/d/src"], Node::Link("/vol2/dst".to_string()));
    assert!(fs.has("/vol2/dst/top.txt"));
}

#[test]
fn rejects_missing_source() {
    let mut fs = Fake::new();
    let e = fs.mv(&move_args("/d/nothing", "/vol2/dst")).unwrap_err();
    assert!(e.to_string().contains("路径不存在"));
}

#[test]
fn rejects_file_as_source() {
    let mut fs = Fake::new();
    fs.file("/d/file", b"x");
    let e = fs.mv(&move_args("/d/file", "/vol2/dst")).unwrap_err();
    assert!(e.to_string().contains("不是一个目录"));
}

#[test]
fn dry_run_changes_nothing() {
    let mut fs = Fake::new();
    plant(&mut fs, "/d/src");
    // Not even an empty directory at the target is removed.
    fs.dir("/vol2/dst");
    let before = fs.clone();
    let args = MoveArgs { dry_run: true, ..move_args("/d/src", "/vol2/dst") };
    assert_eq!(fs.mv(&args), Ok(None));
    assert_eq!(fs, before);
}

#[test]
fn cross_volume_move_is_lossless() {
    let mut fs = Fake::two_volumes();
    plant(&mut fs, "/d/src");
    let before = fs.tree("/d/src");
    let (o, kind) = fs.mv(&move_args("/d/src", "/vol2/sub/dst")).unwrap().unwrap();
    assert_eq!(o, Outcome { same_volume: false, bytes: 1026, files: 8, dirs: 3 });
    assert_eq!(kind, Some(LinkKind::Symlink));
    assert_eq!(fs.tree("/vol2/sub/dst"), before);
    assert_eq!(fs.nodes["/d/src"], Node::Link("/vol2/sub/dst".to_string()));
    assert_eq!(inode(&fs, "/vol2/sub/dst/shared"), inode(&fs, "/vol2/sub/dst/a/shared2"));
    assert!(!fs.nodes.keys().any(|k| k.contains("cshl-partial")));
}

#[test]
fn cross_volume_restore_roundtrip() {
    let mut fs = Fake::two_volumes();
    plant(&mut fs, "/d/src");
    let before = fs.tree("/d/src");
    fs.mv(&move_args("/d/src", "/vol2/dst")).unwrap();
    let o = fs.restore(&restore_args("/d/src")).unwrap().unwrap();
    assert!(!o.same_volume);
    assert_eq!(fs.tree("/d/src"), before);
    assert!(!fs.has("/vol2/dst"));
    assert!(fs.ledger.0.is_empty());
}

#[test]
fn ledger_records_and_clears() {
    let mut fs = Fake::two_volumes();
    plant(&mut fs, "/d/src");
    fs.mv(&move_args("/d/src", "/vol2/dst")).unwrap();
    assert_eq!(fs.ledger.0.len(), 1);
    let e = &fs.ledger.0[0];
    assert_eq!(e.state, State::Done);
    assert_eq!(e.source, path("/d/src"));
    assert_eq!(e.target, path("/vol2/dst"));
    assert_eq!((e.bytes, e.files, e.dirs, e.same_volume), (1026, 8, 3, false));
    assert_eq!(e.link_kind, "symlink");
    assert_eq!(e.moved_at, "2026-09-11 00:00:00");
    fs.restore(&restore_args("/d/src")).unwrap();
    assert!(fs.ledger.0.is_empty());
    let e = fs.restore(&restore_args("/d/src")).unwrap_err();
    assert!(e.to_string().contains("台账里没有"));
}

#[test]
fn no_room_is_found_out_before_copying() {
    let mut fs = Fake::two_volumes();
    plant(&mut fs, "/d/src");
    fs.free = Some(1025);
    let before = fs.nodes.clone();
    let e = fs.mv(&move_args("/d/src", "/vol2/dst")).unwrap_err();
    assert_eq!(e, Error::InsufficientSpace { needed: 1026, available: 1025, target: path("/vol2/dst") });
    assert_eq!(e.exit_code(), 1);
    assert_eq!(fs.nodes, before);
    assert!(fs.ledger.0.is_empty());
    fs.free = Some(1026);
    assert!(fs.mv(&move_args("/d/src", "/vol2/dst")).is_ok());
}

#[test]
fn what_cannot_be_removed_is_told_and_kept_in_the_ledger() {
    let mut fs = Fake::two_volumes();
    plant(&mut fs, "/d/src");
    fs.broken.push("/d/src/empty".to_string());
    let whole = fs.tree("/d/src");
    let e = fs.mv(&move_args("/d/src", "/vol2/dst")).unwrap_err();
    assert_eq!(e.exit_code(), 3);
    assert!(matches!(e, Error::PartialFailure { failed: 2, total: 11, .. }));
    assert_eq!(fs.ledger.0[0].state, State::Inflight);
    // All but the directory that could not be read is at the target.
    assert!(fs.tree("/vol2/dst").len() >= whole.len() - 1);
    // Such a move is not taken back by itself.
    let e = fs.restore(&restore_args("/d/src")).unwrap_err();
    assert!(e.to_string().contains("没有正常结束"));
}

#[test]
fn a_link_that_cannot_be_made_is_told() {
    let mut fs = Fake::new();
    plant(&mut fs, "/d/src");
    fs.broken.push("/d/src".to_string());
    let e = fs.mv(&move_args("/d/src", "/vol2/dst")).unwrap_err();
    assert_eq!(e.exit_code(), 3);
    assert!(matches!(e, Error::Incomplete { .. }));
    assert!(fs.has("/vol2/dst/top.txt"));
    assert_eq!(fs.ledger.0[0].state, State::Inflight);
}

#[test]
fn nothing_is_touched_where_the_ledger_cannot_be_written() {
    let mut fs = Fake::new();
    plant(&mut fs, "/d/src");
    fs.broken.push("ledger".to_string());
    let before = fs.nodes.clone();
    let e = fs.mv(&move_args("/d/src", "/vol2/x/dst")).unwrap_err();
    assert_eq!(e, Error::Ledger("broken".to_string()));
    assert_eq!(fs.nodes, before);
}

#[test]
fn created_parents_are_rolled_back_on_failure() {
    let mut fs = Fake::new();
    plant(&mut fs, "/d/src");
    let before = fs.nodes.clone();
    // The last directory cannot be made: those above it go again.
    fs.broken.push("/vol2/x/y".to_string());
    let e = fs.mv(&move_args("/d/src", "/vol2/x/y/dst")).unwrap_err();
    assert_eq!(e.exit_code(), 2);
    assert_eq!(fs.nodes, before);
}

#[test]
fn created_parents_rollback_spares_nonempty_dirs() {
    let mut fs = Fake::new();
    plant(&mut fs, "/d/src");
    // Something gets into the directories once they are made.
    fs.meanwhile = Some("/vol2/x/y/target".to_string());
    let e = fs.mv(&move_args("/d/src", "/vol2/x/y/target")).unwrap_err();
    assert_eq!(e.exit_code(), 2);
    assert_eq!(fs.nodes["/vol2/x/y/target"], Node::Dir);
    assert_eq!(fs.nodes["/vol2/x/y"], Node::Dir);
    assert_eq!(fs.nodes["/vol2/x"], Node::Dir);
    assert!(fs.has("/d/src/top.txt"));
    assert!(fs.ledger.0.is_empty());
}

#[test]
fn directories_that_were_there_are_not_rolled_back() {
    let mut fs = Fake::new();
    plant(&mut fs, "/d/src");
    fs.broken.push("/vol2/x/y/dst".to_string());
    fs.dir("/vol2/x");
    let before = fs.nodes.clone();
    let e = fs.mv(&move_args("/d/src", "/vol2/x/y/dst")).unwrap_err();
    assert_eq!(e.exit_code(), 2);
    assert_eq!(fs.nodes, before);
    assert!(fs.ledger.0.is_empty());
}

/// What is made is what was missing, and nothing is missing then.
#[test]
fn what_is_made_is_what_was_missing() {
    let mut fs = Fake::new();
    plant(&mut fs, "/d/src");
    let target = path("/vol2/p/q/dst");
    let missing = missing_parents(&target, &fs.places(&target)).unwrap();
    assert_eq!(missing, vec![path("/vol2/p"), path("/vol2/p/q")]);
    fs.mv(&move_args("/d/src", "/vol2/p/q/dst")).unwrap();
    let made: Vec<&String> = fs.log.iter().filter(|l| l.starts_with("mkdir")).collect();
    assert_eq!(made, vec!["mkdir /vol2/p", "mkdir /vol2/p/q"]);
    assert_eq!(missing_parents(&target, &fs.places(&target)), Ok(vec![]));
    // Something that is no directory is in the way, and named.
    fs.file("/vol2/file", b"");
    let target = path("/vol2/file/z/dst");
    let e = missing_parents(&target, &fs.places(&target)).unwrap_err();
    assert!(matches!(e, Error::InvalidPath { path: p, .. } if p == path("/vol2/file")));
}

/// The link that a move leaves says just where the data is, and leaves no stand-in.
#[test]
fn the_link_that_is_left_says_the_target() {
    let mut fs = Fake::new();
    plant(&mut fs, "/d/real");
    fs.link("/d/src", "/d/real");
    let whole = fs.tree("/d/real");
    fs.mv(&move_args("/d/src", "/vol2/dst")).unwrap();
    assert_eq!(fs.nodes["/d/src"], Node::Link("/vol2/dst".to_string()));
    assert_eq!(fs.tree("/vol2/dst"), whole);
    assert!(!fs.has("/d/real"));
    assert!(!fs.nodes.keys().any(|k| k.contains(".cshl-relink-")));
    assert_eq!(fs.ledger.0[0].state, State::Done);
    assert_eq!(fs.ledger.0[0].target, path("/vol2/dst"));
    // And back: the link leads where it did.
    fs.restore(&restore_args("/d/src")).unwrap();
    assert_eq!(fs.nodes["/d/src"], Node::Link("/d/real".to_string()));
    assert_eq!(fs.tree("/d/real"), whole);
    assert!(!fs.has("/vol2/dst"));
    assert!(fs.ledger.0.is_empty());
}

#[test]
fn a_link_that_cannot_be_repointed_stays_as_it_was() {
    let mut fs = Fake::new();
    plant(&mut fs, "/d/real");
    fs.link("/d/src", "/d/real");
    fs.broken.push("/d/src".to_string());
    let e = fs.mv(&move_args("/d/src", "/vol2/dst")).unwrap_err();
    assert_eq!(e.exit_code(), 3);
    assert_eq!(fs.nodes["/d/src"], Node::Link("/d/real".to_string()));
    assert!(!fs.nodes.keys().any(|k| k.contains(".cshl-relink-")));
    assert!(fs.has("/vol2/dst/top.txt"));
}

/// A directory that was moved is known by every way to it.
#[test]
fn ledger_key_is_stable_across_equivalent_paths() {
    let mut fs = Fake::new();
    plant(&mut fs, "/d/tree");
    let whole = fs.tree("/d/tree");
    fs.mv(&move_args("/d/tree", "/d/moved")).unwrap();
    assert_eq!(fs.nodes["/d/tree"], Node::Link("/d/moved".to_string()));
    // Another way to the same place, through a link above it.
    fs.link("/d/alias", "/d");
    assert_eq!(fs.key_of(&path("/d/alias/tree")), path("/d/tree"));
    assert_eq!(fs.key_of(&path("/d/tree")), path("/d/tree"));
    fs.restore(&restore_args("/d/alias/tree")).unwrap();
    assert_eq!(fs.tree("/d/tree"), whole);
    assert!(!fs.has("/d/moved"));
    assert!(fs.ledger.0.is_empty());
    // A move by that way is entered under the one form too.
    fs.mv(&move_args("/d/alias/tree", "/d/moved")).unwrap();
    assert_eq!(fs.ledger.0.len(), 1);
    assert_eq!(fs.ledger.0[0].source, path("/d/tree"));
}

#[test]
fn removing_a_link_leaves_its_target() {
    let mut fs = Fake::new();
    plant(&mut fs, "/d/real");
    fs.link("/d/src", "/d/real");
    let whole = fs.tree("/d/real");
    let action = remove_dir_link(&path("/d/src"));
    assert_eq!(fs.do_link(action), RepointEvent::Tried(None));
    assert!(!fs.has("/d/src"));
    assert_eq!(fs.tree("/d/real"), whole);
}

#[test]
fn a_link_that_cannot_be_removed_stays_and_so_does_its_target() {
    let mut fs = Fake::new();
    plant(&mut fs, "/d/real");
    fs.link("/d/src", "/d/real");
    fs.broken.push("/d/src".to_string());
    let whole = fs.tree("/d");
    let action = remove_dir_link(&path("/d/src"));
    assert!(matches!(fs.do_link(action), RepointEvent::Tried(Some(_))));
    assert_eq!(fs.tree("/d"), whole);

    // A directory is never removed in the place of a link.
    let action = remove_dir_link(&path("/d/real"));
    assert_eq!(action, LinkAction::RemoveFile { at: path("/d/real") });
    assert!(matches!(fs.do_link(action), RepointEvent::Tried(Some(_))));
    assert_eq!(fs.tree("/d"), whole);
}

/// A directory that cannot be read is not lost: it stays at the source.
#[test]
fn what_is_not_at_the_target_is_still_at_the_source() {
    let mut fs = Fake::two_volumes();
    plant(&mut fs, "/d/src");
    fs.broken.push("/d/src/a".to_string());
    let before = fs.tree("/d/src");
    let e = fs.mv(&move_args("/d/src", "/vol2/dst")).unwrap_err();
    assert_eq!(e.exit_code(), 3);
    let (left, moved) = (fs.tree("/d/src"), fs.tree("/vol2/dst"));
    assert!(before.iter().all(|x| left.contains(x) || moved.contains(x)));
    assert!(fs.has("/d/src/a/mid.bin"));
    assert!(!fs.has("/vol2/dst/a/mid.bin"));
}

#[test]
fn a_failed_restore_puts_the_link_back() {
    let mut fs = Fake::two_volumes();
    plant(&mut fs, "/d/src");
    fs.mv(&move_args("/d/src", "/vol2/dst")).unwrap();
    let before = fs.nodes.clone();
    fs.broken.push("/vol2/dst/top.txt".to_string());
    let e = fs.restore(&restore_args("/d/src")).unwrap_err();
    assert_eq!(e.exit_code(), 2);
    assert_eq!(fs.nodes, before);
    assert_eq!(fs.ledger.0.len(), 1);
}

#[test]
fn a_restore_needs_a_link_and_the_data() {
    let mut fs = Fake::new();
    plant(&mut fs, "/d/src");
    fs.mv(&move_args("/d/src", "/vol2/dst")).unwrap();
    fs.nodes.remove("/d/src");
    fs.dir("/d/src");
    let e = fs.restore(&restore_args("/d/src")).unwrap_err();
    assert!(e.to_string().contains("不是一个链接"));
    fs.sweep("/vol2/dst");
    let e = fs.restore(&restore_args("/d/src")).unwrap_err();
    assert!(e.to_string().contains("已不存在"));
}

#[test]
fn a_restore_preview_changes_nothing() {
    let mut fs = Fake::new();
    plant(&mut fs, "/d/src");
    fs.mv(&move_args("/d/src", "/vol2/dst")).unwrap();
    let before = fs.clone();
    let args = RestoreArgs { dry_run: true, ..restore_args("/d/src") };
    assert_eq!(fs.restore(&args), Ok(None));
    assert_eq!(fs, before);
}

#[test]
fn dangerous_sources_are_refused() {
    let mut fs = Fake::new();
    fs.dir("/home");
    fs.dir("/home/me");
    fs.dir("/etc");
    let e = fs.mv(&move_args("/home/me", "/vol2/me")).unwrap_err();
    assert!(matches!(e, Error::Unsafe { can_force: true, .. }));
    let force = MoveArgs { force: true, ..move_args("/etc", "/vol2/etc") };
    let e = fs.mv(&force).unwrap_err();
    assert!(matches!(e, Error::Unsafe { can_force: false, .. }));
    let force = MoveArgs { force: true, ..move_args("/home/me", "/vol2/me") };
    assert!(fs.mv(&force).is_ok());
}

#[test]
fn the_numbers_of_the_system_are_those_of_libc() {
    let n: Errnos = errnos();
    assert_eq!(n.cross_device, libc::EXDEV);
    assert_eq!(n.exists, libc::EEXIST);
    assert_eq!(n.invalid, libc::EINVAL);
    assert_eq!(n.not_implemented, libc::ENOSYS);
    assert_eq!(n.not_supported, libc::ENOTSUP);
}
