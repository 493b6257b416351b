//! Finding out what there is to move.
//!
//! A [`Plan`] lists the directories below the source, the files and the links.
//! It is made by a [`Scanner`], which hands out directories to read and takes
//! their entries back, in any order and from any number of readers.

use std::collections::HashMap;

use vstd::prelude::*;

use crate::error::Error;
use crate::error::ErrorView;
use crate::error::FaultView;
use crate::error::IoFault;
use crate::order::largest_first;
use crate::order::lemma_rearranged_sum;
use crate::order::permutation;
use crate::order::rearranged;
use crate::order::reordered;
use crate::order::sum_of;
use crate::path::PathBuf;
use crate::path::PathView;
use crate::platform::DirEntryInfo;
use crate::platform::EntryKind;
use crate::platform::InfoView;

verus! {

/// A file to copy.
#[derive(Debug, PartialEq, Eq)]
pub struct FileItem {
    /// Where it is below the source.
    pub rel: PathBuf,
    pub size: u64,
    /// What names the file on its system, where it has several names.
    pub hardlink_id: Option<(u64, u64)>,
}

/// The contents of a [`FileItem`].
#[verifier::ext_equal]
pub struct FileView {
    pub rel: PathView,
    pub size: u64,
    pub hardlink_id: Option<(u64, u64)>,
}

impl View for FileItem {
    type V = FileView;

    open spec fn view(&self) -> FileView {
        FileView { rel: self.rel@, size: self.size, hardlink_id: self.hardlink_id }
    }
}

impl Clone for FileItem {
    fn clone(&self) -> (r: Self)
        ensures
            r@ == self@,
    {
        FileItem { rel: self.rel.clone(), size: self.size, hardlink_id: self.hardlink_id }
    }
}

/// A link to make again.
#[derive(Debug, PartialEq, Eq)]
pub struct SymlinkItem {
    /// Where it is below the source.
    pub rel: PathBuf,
    /// What it says, byte for byte.
    pub target: Vec<u8>,
}

/// The contents of a [`SymlinkItem`].
#[verifier::ext_equal]
pub struct SymlinkView {
    pub rel: PathView,
    pub target: Seq<u8>,
}

impl View for SymlinkItem {
    type V = SymlinkView;

    open spec fn view(&self) -> SymlinkView {
        SymlinkView { rel: self.rel@, target: self.target@ }
    }
}

/// All there is to move.
#[derive(Debug, PartialEq, Eq)]
pub struct Plan {
    /// The directories below the source, shallow ones first.
    pub dirs: Vec<PathBuf>,
    pub files: Vec<FileItem>,
    /// The links, junctions among them.
    pub symlinks: Vec<SymlinkItem>,
    /// The sizes of the files together.
    pub total_bytes: u64,
    /// What could not be read, and why.
    pub unreadable: Vec<(PathBuf, String)>,
}

/// The contents of a [`Plan`].
#[verifier::ext_equal]
pub struct PlanView {
    pub dirs: Seq<PathView>,
    pub files: Seq<FileView>,
    pub symlinks: Seq<SymlinkView>,
    pub total_bytes: u64,
    pub unreadable: Seq<(PathView, Seq<char>)>,
}

/// The contents of a list of paths.
pub open spec fn path_views(v: Seq<PathBuf>) -> Seq<PathView> {
    Seq::new(v.len(), |i: int| v[i]@)
}

/// The contents of a list of files.
pub open spec fn file_views(v: Seq<FileItem>) -> Seq<FileView> {
    Seq::new(v.len(), |i: int| v[i]@)
}

/// The contents of a list of links.
pub open spec fn symlink_views(v: Seq<SymlinkItem>) -> Seq<SymlinkView> {
    Seq::new(v.len(), |i: int| v[i]@)
}

/// The contents of a list of unreadable paths.
pub open spec fn unreadable_views(v: Seq<(PathBuf, String)>) -> Seq<(PathView, Seq<char>)> {
    Seq::new(v.len(), |i: int| (v[i].0@, v[i].1@))
}

impl View for Plan {
    type V = PlanView;

    open spec fn view(&self) -> PlanView {
        PlanView {
            dirs: path_views(self.dirs@),
            files: file_views(self.files@),
            symlinks: symlink_views(self.symlinks@),
            total_bytes: self.total_bytes,
            unreadable: unreadable_views(self.unreadable@),
        }
    }
}

impl PlanView {
    /// The plan that holds nothing.
    pub open spec fn empty() -> PlanView {
        PlanView {
            dirs: Seq::empty(),
            files: Seq::empty(),
            symlinks: Seq::empty(),
            total_bytes: 0,
            unreadable: Seq::empty(),
        }
    }

    /// How many things there are to move.
    pub open spec fn total_items(self) -> nat {
        self.dirs.len() + self.files.len() + self.symlinks.len()
    }
}

impl Plan {
    /// A plan that holds nothing.
    pub fn empty() -> (r: Plan)
        ensures
            r@ == PlanView::empty(),
    {
        let r = Plan {
            dirs: Vec::new(),
            files: Vec::new(),
            symlinks: Vec::new(),
            total_bytes: 0,
            unreadable: Vec::new(),
        };
        assert(r@ =~= PlanView::empty());
        r
    }

    /// How many things there are to move.
    pub fn total_items(&self) -> (r: usize)
        requires
            self@.total_items() <= usize::MAX,
        ensures
            r == self@.total_items(),
    {
        self.dirs.len() + self.files.len() + self.symlinks.len()
    }
}

/// A directory entry, and for a link what it says.
#[derive(Debug, PartialEq, Eq)]
pub struct Found {
    pub info: DirEntryInfo,
    /// What the entry says if it is a link, or why that could not be read.
    pub target: Result<Vec<u8>, String>,
}

/// The contents of a [`Found`].
#[verifier::ext_equal]
pub struct FoundView {
    pub info: InfoView,
    pub target: Result<Seq<u8>, Seq<char>>,
}

impl View for Found {
    type V = FoundView;

    open spec fn view(&self) -> FoundView {
        FoundView {
            info: self.info@,
            target: match self.target {
                Ok(t) => Ok(t@),
                Err(e) => Err(e@),
            },
        }
    }
}

/// The contents of a list of entries.
pub open spec fn found_views(v: Seq<Found>) -> Seq<FoundView> {
    Seq::new(v.len(), |i: int| v[i]@)
}

/// What reading a directory gave: its entries, or why it could not be read.
pub type Listing = Result<Vec<Found>, IoFault>;

/// The contents of a [`Listing`].
pub type ListingView = Result<Seq<FoundView>, FaultView>;

/// The contents of a [`Listing`].
pub open spec fn listing_view(l: Listing) -> ListingView {
    match l {
        Ok(v) => Ok(found_views(v@)),
        Err(e) => Err(e@),
    }
}

impl PlanView {
    /// The plan with an entry of the directory `rel` added. A link is taken down
    /// as such, never followed.
    pub open spec fn with(self, rel: PathView, f: FoundView) -> PlanView {
        let at = rel.child(f.info.name);
        match f.info.kind {
            EntryKind::Dir => PlanView { dirs: self.dirs.push(at), ..self },
            EntryKind::File => PlanView {
                files: self.files.push(
                    FileView { rel: at, size: f.info.size, hardlink_id: f.info.hardlink_id },
                ),
                total_bytes: (self.total_bytes + f.info.size) as u64,
                ..self
            },
            EntryKind::Symlink => match f.target {
                Ok(target) => PlanView {
                    symlinks: self.symlinks.push(SymlinkView { rel: at, target }),
                    ..self
                },
                Err(e) => PlanView { unreadable: self.unreadable.push((at, e)), ..self },
            },
        }
    }

    /// The plan with the entries of the directory `rel` added.
    pub open spec fn with_all(self, rel: PathView, fs: Seq<FoundView>) -> PlanView
        decreases fs.len(),
    {
        if fs.len() == 0 {
            self
        } else {
            self.with_all(rel, fs.drop_last()).with(rel, fs.last())
        }
    }
}

/// The sizes of the files among `fs` together.
pub open spec fn file_bytes(fs: Seq<FoundView>) -> nat
    decreases fs.len(),
{
    if fs.len() == 0 {
        0
    } else if fs.last().info.kind == EntryKind::File {
        file_bytes(fs.drop_last()) + fs.last().info.size as nat
    } else {
        file_bytes(fs.drop_last())
    }
}

/// How far a scan has got.
///
/// Directories are known by tickets: 0 is the source itself, and `k` the `k`-th
/// directory found below it.
#[verifier::ext_equal]
pub struct ScanView {
    pub root: PathView,
    /// What was found so far.
    pub plan: PlanView,
    /// Of each ticket that was handed out, whether its entries are still owed.
    pub open: Seq<bool>,
    /// Why the source itself could not be read.
    pub failed: Option<ErrorView>,
}

impl ScanView {
    /// A scan that has not begun.
    pub open spec fn start(root: PathView) -> ScanView {
        ScanView { root, plan: PlanView::empty(), open: Seq::empty(), failed: None }
    }

    /// How many tickets there are by now.
    pub open spec fn tickets(self) -> nat {
        self.plan.dirs.len() + 1
    }

    /// The source, seen from itself.
    pub open spec fn top(self) -> PathView {
        PathView { style: self.root.style, prefix: None, rooted: false, parts: Seq::empty() }
    }

    /// Where the directory of a ticket is below the source.
    pub open spec fn rel(self, ticket: int) -> PathView {
        if ticket == 0 {
            self.top()
        } else {
            self.plan.dirs[ticket - 1]
        }
    }

    /// Whether a ticket was handed out and its entries are still owed.
    pub open spec fn owed(self, ticket: int) -> bool {
        0 <= ticket < self.open.len() && self.open[ticket]
    }

    /// Whether the entries of every directory have come back.
    pub open spec fn done(self) -> bool {
        self.open.len() == self.tickets() && forall|t: int|
            0 <= t < self.open.len() ==> !#[trigger] self.open[t]
    }

    /// The scan once the next ticket is handed out.
    pub open spec fn taken(self) -> ScanView {
        if self.open.len() < self.tickets() {
            ScanView { open: self.open.push(true), ..self }
        } else {
            self
        }
    }

    /// The scan once the entries of a directory have come back. That the source
    /// cannot be read is fatal; of any other directory it is taken down.
    pub open spec fn absorbed(self, ticket: int, listing: ListingView) -> ScanView {
        if !self.owed(ticket) {
            self
        } else {
            let s = ScanView { open: self.open.update(ticket, false), ..self };
            match listing {
                Ok(fs) => ScanView { plan: self.plan.with_all(self.rel(ticket), fs), ..s },
                Err(e) => if ticket == 0 {
                    ScanView {
                        failed: match self.failed {
                            Some(x) => Some(x),
                            None => Some(
                                ErrorView::Io {
                                    path: Some(self.root.closed_off()),
                                    source: e,
                                },
                            ),
                        },
                        ..s
                    }
                } else {
                    ScanView {
                        plan: PlanView {
                            unreadable: self.plan.unreadable.push((self.rel(ticket), e.text)),
                            ..self.plan
                        },
                        ..s
                    }
                },
            }
        }
    }
}

/// How many of `s` are false.
pub open spec fn count_false(s: Seq<bool>) -> nat
    decreases s.len(),
{
    if s.len() == 0 {
        0
    } else {
        count_false(s.drop_last()) + if s.last() {
            0nat
        } else {
            1nat
        }
    }
}

proof fn lemma_count_bound(s: Seq<bool>)
    ensures
        count_false(s) <= s.len(),
        count_false(s) == s.len() <==> (forall|t: int| 0 <= t < s.len() ==> !#[trigger] s[t]),
    decreases s.len(),
{
    if s.len() > 0 {
        lemma_count_bound(s.drop_last());
        if count_false(s) == s.len() {
            assert forall|t: int| 0 <= t < s.len() implies !#[trigger] s[t] by {
                if t < s.len() - 1 {
                    assert(!s.drop_last()[t]);
                }
            }
        } else if forall|t: int| 0 <= t < s.len() ==> !#[trigger] s[t] {
            assert forall|t: int| 0 <= t < s.drop_last().len() implies !#[trigger] s.drop_last()[t] by {
                assert(!s[t]);
            }
            assert(!s[s.len() - 1]);
        }
    }
}

proof fn lemma_count_update(s: Seq<bool>, t: int)
    requires
        0 <= t < s.len(),
        s[t],
    ensures
        count_false(s.update(t, false)) == count_false(s) + 1,
    decreases s.len(),
{
    let u = s.update(t, false);
    if t == s.len() - 1 {
        assert(u.drop_last() =~= s.drop_last());
    } else {
        assert(u.drop_last() =~= s.drop_last().update(t, false));
        lemma_count_update(s.drop_last(), t);
    }
}

/// How large a file is.
pub open spec fn file_size() -> spec_fn(FileView) -> nat {
    |f: FileView| f.size as nat
}

/// The files' sizes together.
pub open spec fn sum_sizes(files: Seq<FileView>) -> nat {
    sum_of(files, file_size())
}

/// A scan in progress.
pub struct Scanner {
    root: PathBuf,
    plan: Plan,
    open: Vec<bool>,
    closed: usize,
    failed: Option<Error>,
}

impl View for Scanner {
    type V = ScanView;

    closed spec fn view(&self) -> ScanView {
        ScanView {
            root: self.root@,
            plan: self.plan@,
            open: self.open@,
            failed: match self.failed {
                Some(e) => Some(e@),
                None => None,
            },
        }
    }
}

impl Plan {
    fn add(&mut self, rel: &PathBuf, f: Found)
        requires
            f.info.kind == EntryKind::File ==> old(self).total_bytes + f.info.size <= u64::MAX,
        ensures
            final(self)@ == old(self)@.with(rel@, f@),
    {
        let ghost before = self@;
        let Found { info, target } = f;
        let DirEntryInfo { name, kind, size, hardlink_id } = info;
        let mut at = rel.clone();
        at.push(name);
        match kind {
            EntryKind::Dir => {
                self.dirs.push(at);
                assert(self@.dirs =~= before.dirs.push(at@));
            },
            EntryKind::File => {
                let item = FileItem { rel: at, size, hardlink_id };
                self.files.push(item);
                self.total_bytes = self.total_bytes + size;
                assert(self@.files =~= before.files.push(item@));
            },
            EntryKind::Symlink => match target {
                Ok(target) => {
                    let item = SymlinkItem { rel: at, target };
                    self.symlinks.push(item);
                    assert(self@.symlinks =~= before.symlinks.push(item@));
                },
                Err(e) => {
                    self.unreadable.push((at, e));
                    assert(self@.unreadable =~= before.unreadable.push((at@, e@)));
                },
            },
        }
        assert(self@ =~= before.with(rel@, f@));
    }

    fn add_all(&mut self, rel: &PathBuf, fs: Vec<Found>)
        requires
            old(self).total_bytes + file_bytes(found_views(fs@)) <= u64::MAX,
        ensures
            final(self)@ == old(self)@.with_all(rel@, found_views(fs@)),
    {
        let ghost before = self@;
        let mut rest = fs;
        rest = reversed(rest);
        let ghost all = found_views(fs@);
        let ghost mut i: int = 0;
        assert(all.take(0) =~= Seq::<FoundView>::empty());
        while rest.len() > 0
            invariant
                0 <= i <= all.len(),
                rest.len() == all.len() - i,
                forall|j: int|
                    0 <= j < rest.len() ==> (#[trigger] rest@[j])@ == all[all.len() - 1 - j],
                self@ == before.with_all(rel@, all.take(i)),
                self.total_bytes == before.total_bytes + file_bytes(all.take(i)),
                before.total_bytes + file_bytes(all) <= u64::MAX,
            decreases rest.len(),
        {
            proof {
                lemma_file_bytes_grow(all, i + 1);
                assert(all.take(i + 1).drop_last() =~= all.take(i));
                assert(rest@[rest.len() - 1]@ == all[i]);
            }
            match rest.pop() {
                Some(f) => {
                    self.add(rel, f);
                },
                None => {},
            }
            proof {
                i = i + 1;
            }
        }
        assert(all.take(i) =~= all);
    }
}

proof fn lemma_file_bytes_grow(fs: Seq<FoundView>, i: int)
    requires
        0 <= i <= fs.len(),
    ensures
        file_bytes(fs.take(i)) <= file_bytes(fs),
    decreases fs.len() - i,
{
    if i < fs.len() {
        lemma_file_bytes_grow(fs, i + 1);
        assert(fs.take(i + 1).drop_last() =~= fs.take(i));
    } else {
        assert(fs.take(i) =~= fs);
    }
}

fn reversed(v: Vec<Found>) -> (r: Vec<Found>)
    ensures
        r.len() == v.len(),
        forall|j: int| 0 <= j < r.len() ==> #[trigger] r@[j] == v@[v.len() - 1 - j],
{
    let ghost all = v@;
    let mut rest = v;
    let mut r: Vec<Found> = Vec::new();
    while rest.len() > 0
        invariant
            r.len() + rest.len() == all.len(),
            rest@ == all.take(rest.len() as int),
            forall|j: int| 0 <= j < r.len() ==> #[trigger] r@[j] == all[all.len() - 1 - j],
        decreases rest.len(),
    {
        match rest.pop() {
            Some(x) => {
                r.push(x);
            },
            None => {},
        }
        assert(rest@ =~= all.take(rest.len() as int));
    }
    r
}

/// Begins to scan `root`.
///
/// Links are taken down, never followed: what a link leads to may be outside, or
/// above the link itself.
pub fn scan(root: PathBuf) -> (r: Scanner)
    ensures
        r.wf(),
        r@ == ScanView::start(root@),
{
    let r = Scanner { root, plan: Plan::empty(), open: Vec::new(), closed: 0, failed: None };
    assert(r@ =~= ScanView::start(root@));
    r
}

impl Scanner {
    /// That the scan has kept its books.
    pub closed spec fn wf(&self) -> bool {
        &&& self.closed == count_false(self.open@)
        &&& self.open.len() <= self@.tickets()
        &&& self.plan.total_bytes == sum_sizes(self@.plan.files)
    }

    /// What the books say.
    pub proof fn lemma_wf(&self)
        requires
            self.wf(),
        ensures
            self@.open.len() <= self@.tickets(),
            self@.plan.total_bytes == sum_sizes(self@.plan.files),
    {
    }

    /// Hands out the next directory to read, where there is one by now.
    pub fn take(&mut self) -> (r: Option<usize>)
        requires
            old(self).wf(),
        ensures
            final(self).wf(),
            final(self)@ == old(self)@.taken(),
            match r {
                Some(t) => t == old(self)@.open.len() && t < old(self)@.tickets(),
                None => old(self)@.open.len() == old(self)@.tickets(),
            },
    {
        let t: usize = self.open.len();
        if t > self.plan.dirs.len() {
            return None;
        }
        self.open.push(true);
        assert(self.open@.drop_last() =~= old(self).open@);
        assert(self@ =~= old(self)@.taken());
        Some(t)
    }

    /// Where the directory of a ticket is below the source.
    pub fn rel(&self, ticket: usize) -> (r: PathBuf)
        requires
            self.wf(),
            ticket < self@.tickets(),
        ensures
            r@ == self@.rel(ticket as int),
    {
        if ticket == 0 {
            PathBuf::new(self.root.style)
        } else {
            self.plan.dirs[ticket - 1].clone()
        }
    }

    /// Where the directory of a ticket is.
    pub fn path(&self, ticket: usize) -> (r: PathBuf)
        requires
            self.wf(),
            ticket < self@.tickets(),
        ensures
            r@ == self@.root.join(self@.rel(ticket as int)),
    {
        self.root.join(&self.rel(ticket))
    }

    /// Whether the files of a listing can be counted without overflow.
    pub fn fits(&self, listing: &Listing) -> (r: bool)
        ensures
            r == (listing_view(*listing) matches Ok(fs) ==> self@.plan.total_bytes + file_bytes(fs)
                <= u64::MAX),
    {
        match listing {
            Ok(fs) => {
                let mut sum: u64 = self.plan.total_bytes;
                let mut i: usize = 0;
                let ghost all = found_views(fs@);
                assert(all.take(0) =~= Seq::<FoundView>::empty());
                while i < fs.len()
                    invariant
                        0 <= i <= fs.len(),
                        all == found_views(fs@),
                        listing_view(*listing) == ListingView::Ok(all),
                        sum == self@.plan.total_bytes + file_bytes(all.take(i as int)),
                    decreases fs.len() - i,
                {
                    proof {
                        assert(all.take(i + 1).drop_last() =~= all.take(i as int));
                        lemma_file_bytes_grow(all, i + 1);
                    }
                    if fs[i].info.kind == EntryKind::File {
                        match sum.checked_add(fs[i].info.size) {
                            Some(x) => {
                                sum = x;
                            },
                            None => {
                                return false;
                            },
                        }
                    }
                    i = i + 1;
                }
                assert(all.take(i as int) =~= all);
                true
            },
            Err(_) => true,
        }
    }

    /// Takes back the entries of a directory. A ticket that is not owed is
    /// ignored.
    pub fn absorb(&mut self, ticket: usize, listing: Listing)
        requires
            old(self).wf(),
            listing_view(listing) matches Ok(fs) ==> old(self)@.plan.total_bytes + file_bytes(fs)
                <= u64::MAX,
        ensures
            final(self).wf(),
            final(self)@ == old(self)@.absorbed(ticket as int, listing_view(listing)),
    {
        if ticket >= self.open.len() || !self.open[ticket] {
            return;
        }
        let rel = self.rel(ticket);
        proof {
            lemma_count_update(self.open@, ticket as int);
            lemma_count_bound(self.open@.update(ticket as int, false));
        }
        self.open.set(ticket, false);
        self.closed = self.closed + 1;
        match listing {
            Ok(fs) => {
                proof {
                    lemma_with_all(self.plan@, rel@, found_views(fs@));
                }
                self.plan.add_all(&rel, fs);
            },
            Err(e) => {
                if ticket == 0 {
                    if self.failed.is_none() {
                        let at = self.root.closed_off();
                        self.failed = Some(Error::io(at, e));
                    }
                } else {
                    let ghost before = self.plan@.unreadable;
                    let text = e.text;
                    self.plan.unreadable.push((rel, text));
                    assert(self.plan@.unreadable =~= before.push((rel@, text@)));
                }
            },
        }
        assert(self@ =~= old(self)@.absorbed(ticket as int, listing_view(listing)));
    }

    /// Whether the entries of every directory have come back.
    pub fn is_done(&self) -> (r: bool)
        requires
            self.wf(),
        ensures
            r == self@.done(),
    {
        proof {
            lemma_count_bound(self.open@);
        }
        self.closed > self.plan.dirs.len()
    }
}

/// Adding entries adds their sizes, and never takes a directory away.
proof fn lemma_with_all(p: PlanView, rel: PathView, fs: Seq<FoundView>)
    requires
        p.total_bytes == sum_sizes(p.files),
        p.total_bytes + file_bytes(fs) <= u64::MAX,
    ensures
        p.with_all(rel, fs).total_bytes == p.total_bytes + file_bytes(fs),
        p.with_all(rel, fs).total_bytes == sum_sizes(p.with_all(rel, fs).files),
        p.with_all(rel, fs).dirs.len() >= p.dirs.len(),
        p.dirs.is_prefix_of(p.with_all(rel, fs).dirs),
    decreases fs.len(),
{
    if fs.len() > 0 {
        lemma_with_all(p, rel, fs.drop_last());
        let q = p.with_all(rel, fs.drop_last());
        let r = p.with_all(rel, fs);
        assert(r == q.with(rel, fs.last()));
        if fs.last().info.kind == EntryKind::File {
            assert(r.files.drop_last() =~= q.files);
        }
        assert(p.dirs =~= r.dirs.subrange(0, p.dirs.len() as int)) by {
            assert(p.dirs =~= q.dirs.subrange(0, p.dirs.len() as int));
            assert forall|i: int| 0 <= i < p.dirs.len() implies p.dirs[i] == r.dirs[i] by {
                assert(q.dirs.subrange(0, p.dirs.len() as int)[i] == q.dirs[i]);
            }
        }
    }
}

/// The paths of `dirs` that have `depth` components, in their order.
pub open spec fn layer(dirs: Seq<PathView>, depth: nat) -> Seq<PathView>
    decreases dirs.len(),
{
    if dirs.len() == 0 {
        Seq::empty()
    } else if dirs.last().parts.len() == depth {
        layer(dirs.drop_last(), depth).push(dirs.last())
    } else {
        layer(dirs.drop_last(), depth)
    }
}

/// The paths of `dirs` that have fewer than `n` components, shallow ones first.
pub open spec fn layers(dirs: Seq<PathView>, n: nat) -> Seq<PathView>
    decreases n,
{
    if n == 0 {
        Seq::empty()
    } else {
        layers(dirs, (n - 1) as nat) + layer(dirs, (n - 1) as nat)
    }
}

/// The most components that one of `dirs` has.
pub open spec fn deepest(dirs: Seq<PathView>) -> nat
    decreases dirs.len(),
{
    if dirs.len() == 0 {
        0
    } else if dirs.last().parts.len() > deepest(dirs.drop_last()) {
        dirs.last().parts.len()
    } else {
        deepest(dirs.drop_last())
    }
}

/// The paths of `dirs`, shallow ones first, and otherwise in their order.
pub open spec fn by_depth(dirs: Seq<PathView>) -> Seq<PathView> {
    layers(dirs, deepest(dirs) + 1)
}

/// Whether no file is larger than one before it.
pub open spec fn largest_come_first(files: Seq<FileView>) -> bool {
    forall|i: int, j: int|
        0 <= i <= j < files.len() ==> (#[trigger] files[i]).size >= (#[trigger] files[j]).size
}

/// Whether `p` is `q` put in order: directories by depth, files by size.
pub open spec fn ordered(p: PlanView, q: PlanView) -> bool {
    &&& p.dirs == by_depth(q.dirs)
    &&& rearranged(p.files, q.files)
    &&& largest_come_first(p.files)
    &&& p.symlinks == q.symlinks
    &&& p.total_bytes == q.total_bytes
    &&& p.unreadable == q.unreadable
}

fn find_deepest(dirs: &Vec<PathBuf>) -> (r: usize)
    ensures
        r == deepest(path_views(dirs@)),
{
    let mut r: usize = 0;
    let mut i: usize = 0;
    let ghost all = path_views(dirs@);
    assert(all.take(0) =~= Seq::<PathView>::empty());
    while i < dirs.len()
        invariant
            0 <= i <= dirs.len(),
            all == path_views(dirs@),
            r == deepest(all.take(i as int)),
        decreases dirs.len() - i,
    {
        assert(all.take(i + 1).drop_last() =~= all.take(i as int));
        let n: usize = dirs[i].parts.len();
        assert(all[i as int].parts.len() == n);
        if n > r {
            r = n;
        }
        i = i + 1;
    }
    assert(all.take(i as int) =~= all);
    r
}

fn push_layer(dirs: &Vec<PathBuf>, depth: usize, out: &mut Vec<PathBuf>)
    ensures
        path_views(final(out)@) == path_views(old(out)@) + layer(path_views(dirs@), depth as nat),
{
    let mut i: usize = 0;
    let ghost all = path_views(dirs@);
    let ghost before = path_views(out@);
    assert(all.take(0) =~= Seq::<PathView>::empty());
    assert(before + Seq::<PathView>::empty() =~= before);
    while i < dirs.len()
        invariant
            0 <= i <= dirs.len(),
            all == path_views(dirs@),
            path_views(out@) == before + layer(all.take(i as int), depth as nat),
        decreases dirs.len() - i,
    {
        assert(all.take(i + 1).drop_last() =~= all.take(i as int));
        assert(all.take(i + 1).last() == all[i as int]);
        if dirs[i].parts.len() == depth {
            let ghost old_out = out@;
            let d = dirs[i].clone();
            out.push(d);
            assert(path_views(out@) =~= path_views(old_out).push(all[i as int]));
            assert(path_views(out@) =~= before + layer(all.take(i + 1), depth as nat));
        }
        i = i + 1;
    }
    assert(all.take(i as int) =~= all);
}

fn sort_dirs(dirs: &Vec<PathBuf>) -> (r: Vec<PathBuf>)
    ensures
        path_views(r@) == by_depth(path_views(dirs@)),
{
    let most = find_deepest(dirs);
    let mut out: Vec<PathBuf> = Vec::new();
    let mut d: usize = 0;
    assert(path_views(out@) =~= Seq::<PathView>::empty());
    loop
        invariant_except_break
            0 <= d <= most,
            path_views(out@) == layers(path_views(dirs@), d as nat),
        invariant
            most == deepest(path_views(dirs@)),
        ensures
            path_views(out@) == layers(path_views(dirs@), most as nat + 1),
        decreases most - d,
    {
        push_layer(dirs, d, &mut out);
        if d == most {
            break;
        }
        d = d + 1;
    }
    out
}

fn sort_files(files: &Vec<FileItem>) -> (r: Vec<FileItem>)
    ensures
        rearranged(file_views(r@), file_views(files@)),
        largest_come_first(file_views(r@)),
{
    let mut keys: Vec<u64> = Vec::new();
    let mut i: usize = 0;
    while i < files.len()
        invariant
            0 <= i <= files.len(),
            keys.len() == i,
            forall|k: int| 0 <= k < i ==> #[trigger] keys@[k] == files@[k].size,
        decreases files.len() - i,
    {
        keys.push(files[i].size);
        i = i + 1;
    }
    let idx = largest_first(&keys);
    let ghost p = Seq::new(idx@.len(), |i: int| idx@[i] as int);
    let mut r: Vec<FileItem> = Vec::new();
    let mut k: usize = 0;
    while k < idx.len()
        invariant
            0 <= k <= idx.len(),
            r.len() == k,
            p == Seq::new(idx@.len(), |i: int| idx@[i] as int),
            permutation(p, files@.len()),
            forall|j: int| 0 <= j < k ==> (#[trigger] r@[j])@ == files@[p[j]]@,
        decreases idx.len() - k,
    {
        assert(0 <= p[k as int] < files@.len());
        r.push(files[idx[k]].clone());
        k = k + 1;
    }
    let ghost new = file_views(r@);
    let ghost old_ = file_views(files@);
    assert forall|j: int| 0 <= j < new.len() implies #[trigger] new[j] == old_[p[j]] by {
        assert(r@[j]@ == files@[p[j]]@);
    }
    assert(reordered(new, old_, p));
    assert forall|i: int, j: int| 0 <= i <= j < new.len() implies (#[trigger] new[i]).size >= (
    #[trigger] new[j]).size by {
        assert(keys@[idx@[i] as int] >= keys@[idx@[j] as int]);
        assert(0 <= p[i] < files@.len());
        assert(0 <= p[j] < files@.len());
        assert(new[i] == old_[p[i]]);
        assert(new[j] == old_[p[j]]);
    }
    r
}

impl Scanner {
    /// Ends the scan: the plan in order, or why the source could not be read.
    pub fn finish(self) -> (r: Result<Plan, Error>)
        requires
            self.wf(),
        ensures
            match r {
                Ok(p) => self@.failed is None && ordered(p@, self@.plan) && p@.total_bytes
                    == sum_sizes(p@.files),
                Err(e) => self@.failed == Some(e@),
            },
    {
        let Scanner { root, plan, open, closed, failed } = self;
        match failed {
            Some(e) => Err(e),
            None => {
                let Plan { dirs, files, symlinks, total_bytes, unreadable } = plan;
                let dirs = sort_dirs(&dirs);
                let sorted = sort_files(&files);
                proof {
                    lemma_rearranged_sum(file_views(sorted@), file_views(files@), file_size());
                }
                Ok(Plan { dirs, files: sorted, symlinks, total_bytes, unreadable })
            },
        }
    }
}

/// The contents of a list of lists of indices.
pub open spec fn index_views(v: Seq<Vec<usize>>) -> Seq<Seq<int>> {
    Seq::new(v.len(), |i: int| indices(v[i]@))
}

/// A list of indices as integers.
pub open spec fn indices(v: Seq<usize>) -> Seq<int> {
    Seq::new(v.len(), |j: int| v[j] as int)
}

/// Whether `g` lists, in ascending order, all the files that are one and the
/// same, and there are several of them.
pub open spec fn is_group(files: Seq<FileView>, g: Seq<int>) -> bool {
    &&& g.len() >= 2
    &&& forall|i: int| 0 <= i < g.len() ==> 0 <= #[trigger] g[i] < files.len()
    &&& forall|i: int, j: int| 0 <= i < j < g.len() ==> #[trigger] g[i] < #[trigger] g[j]
    &&& files[g[0]].hardlink_id is Some
    &&& forall|k: int|
        0 <= k < files.len() ==> (#[trigger] g.contains(k) <==> files[k].hardlink_id
            == files[g[0]].hardlink_id)
}

/// Whether `gs` are the groups of files that are one and the same, in the order
/// of their first members.
pub open spec fn are_groups(files: Seq<FileView>, gs: Seq<Seq<int>>) -> bool {
    &&& forall|n: int| 0 <= n < gs.len() ==> is_group(files, #[trigger] gs[n])
    &&& forall|m: int, n: int|
        0 <= m < n < gs.len() ==> (#[trigger] gs[m])[0] < (#[trigger] gs[n])[0]
    &&& forall|i: int, j: int|
        0 <= i < files.len() && 0 <= j < files.len() && i != j && (
        #[trigger] files[i]).hardlink_id is Some && (#[trigger] files[j]).hardlink_id
            == files[i].hardlink_id ==> in_some_group(gs, i)
}

/// Whether one of the groups has the file `i`.
pub open spec fn in_some_group(gs: Seq<Seq<int>>, i: int) -> bool {
    exists|n: int| 0 <= n < gs.len() && (#[trigger] gs[n]).contains(i)
}

spec fn key_of(id: (u64, u64)) -> int {
    id.0 * 0x1_0000_0000_0000_0000 + id.1
}

spec fn slot_ok(files: Seq<FileView>, n: int, g: Seq<int>) -> bool {
    &&& g.len() >= 1
    &&& files[g[0]].hardlink_id is Some
    &&& forall|i: int|
        0 <= i < g.len() ==> 0 <= #[trigger] g[i] < n && files[g[i]].hardlink_id
            == files[g[0]].hardlink_id
    &&& forall|i: int, j: int| 0 <= i < j < g.len() ==> #[trigger] g[i] < #[trigger] g[j]
}

/// What the table of names looks like once the first `n` files are entered.
spec fn table_ok(files: Seq<FileView>, n: int, slots: Seq<Seq<int>>, map: Map<u128, usize>) -> bool {
    &&& forall|s: int| 0 <= s < slots.len() ==> slot_ok(files, n, #[trigger] slots[s])
    &&& forall|s: int, t: int|
        0 <= s < t < slots.len() ==> (#[trigger] slots[s])[0] < (#[trigger] slots[t])[0]
    &&& forall|s: int| 0 <= s < slots.len() ==> #[trigger] slot_known(files, s, slots, map)
    &&& forall|k: u128| #[trigger]
        map.dom().contains(k) ==> 0 <= map[k] < slots.len() && key_of(
            files[slots[map[k] as int][0]].hardlink_id->0,
        ) == k
    &&& forall|i: int|
        0 <= i < n && (#[trigger] files[i]).hardlink_id is Some ==> entered(files, i, slots, map)
}

/// Whether the table leads to the slot `s`.
spec fn slot_known(
    files: Seq<FileView>,
    s: int,
    slots: Seq<Seq<int>>,
    map: Map<u128, usize>,
) -> bool {
    let k = key_of(files[slots[s][0]].hardlink_id->0) as u128;
    map.dom().contains(k) && map[k] == s
}

spec fn entered(files: Seq<FileView>, i: int, slots: Seq<Seq<int>>, map: Map<u128, usize>) -> bool {
    let k = key_of(files[i].hardlink_id->0) as u128;
    map.dom().contains(k) && slots[map[k] as int].contains(i)
}

proof fn lemma_key_of(a: (u64, u64), b: (u64, u64))
    ensures
        0 <= key_of(a) <= u128::MAX,
        key_of(a) == key_of(b) ==> a == b,
{
}

proof fn lemma_slot_push(
    files: Seq<FileView>,
    n: int,
    slots: Seq<Seq<int>>,
    map: Map<u128, usize>,
    s: int,
)
    requires
        table_ok(files, n, slots, map),
        0 <= n < files.len(),
        files[n].hardlink_id is Some,
        map.dom().contains(key_of(files[n].hardlink_id->0) as u128),
        map[key_of(files[n].hardlink_id->0) as u128] == s,
    ensures
        table_ok(files, n + 1, slots.update(s, slots[s].push(n)), map),
{
    let k = key_of(files[n].hardlink_id->0) as u128;
    let after = slots.update(s, slots[s].push(n));
    assert(slot_ok(files, n, slots[s]));
    lemma_key_of(files[n].hardlink_id->0, files[slots[s][0]].hardlink_id->0);
    assert(slot_ok(files, n + 1, after[s]));
    assert forall|t: int| 0 <= t < after.len() implies slot_ok(files, n + 1, #[trigger] after[t]) by {
        assert(slot_ok(files, n, slots[t]));
    }
    assert(after[s][0] == slots[s][0]);
    assert forall|t: int| 0 <= t < after.len() implies #[trigger] slot_known(files, t, after, map) by {
        assert(slot_known(files, t, slots, map));
    }
    assert forall|i: int| 0 <= i < n + 1 && (#[trigger] files[i]).hardlink_id is Some implies entered(
        files,
        i,
        after,
        map,
    ) by {
        if i == n {
            assert(after[s][slots[s].len() as int] == n);
        } else {
            assert(entered(files, i, slots, map));
            let ki = key_of(files[i].hardlink_id->0) as u128;
            if map[ki] == s {
                let x = choose|x: int| 0 <= x < slots[s].len() && slots[s][x] == i;
                assert(after[s][x] == i);
            }
        }
    }
}

proof fn lemma_slot_new(
    files: Seq<FileView>,
    n: int,
    slots: Seq<Seq<int>>,
    map: Map<u128, usize>,
    at: usize,
)
    requires
        table_ok(files, n, slots, map),
        0 <= n < files.len(),
        files[n].hardlink_id is Some,
        !map.dom().contains(key_of(files[n].hardlink_id->0) as u128),
        at == slots.len(),
    ensures
        table_ok(
            files,
            n + 1,
            slots.push(seq![n]),
            map.insert(key_of(files[n].hardlink_id->0) as u128, at),
        ),
{
    let k = key_of(files[n].hardlink_id->0) as u128;
    let after = slots.push(seq![n]);
    let map2 = map.insert(k, at);
    assert forall|t: int| 0 <= t < after.len() implies slot_ok(files, n + 1, #[trigger] after[t]) by {
        if t < slots.len() {
            assert(slot_ok(files, n, slots[t]));
        }
    }
    assert forall|s: int, t: int| 0 <= s < t < after.len() implies (#[trigger] after[s])[0] < (
    #[trigger] after[t])[0] by {
        assert(slot_ok(files, n, slots[s]));
        assert(slots[s][0] < n);
    }
    lemma_key_of(files[n].hardlink_id->0, files[n].hardlink_id->0);
    assert forall|t: int| 0 <= t < after.len() implies #[trigger] slot_known(files, t, after, map2) by {
        if t < slots.len() {
            assert(slot_known(files, t, slots, map));
        }
    }
    assert forall|i: int| 0 <= i < n + 1 && (#[trigger] files[i]).hardlink_id is Some implies entered(
        files,
        i,
        after,
        map2,
    ) by {
        if i == n {
            assert(after[slots.len() as int][0] == n);
        } else {
            assert(entered(files, i, slots, map));
        }
    }
}

proof fn lemma_slot_skip(files: Seq<FileView>, n: int, slots: Seq<Seq<int>>, map: Map<u128, usize>)
    requires
        table_ok(files, n, slots, map),
        0 <= n < files.len(),
        files[n].hardlink_id is None,
    ensures
        table_ok(files, n + 1, slots, map),
{
    assert forall|t: int| 0 <= t < slots.len() implies slot_ok(files, n + 1, #[trigger] slots[t]) by {
        assert(slot_ok(files, n, slots[t]));
    }
}

/// Files by what they are, each kind in the order of the files.
fn slots_of(files: &Vec<FileItem>) -> (r: Vec<Vec<usize>>)
    ensures
        exists|map: Map<u128, usize>|
            table_ok(file_views(files@), files@.len() as int, index_views(r@), map),
{
    let ghost all = file_views(files@);
    let mut slots: Vec<Vec<usize>> = Vec::new();
    let mut map: HashMap<u128, usize> = HashMap::new();
    let mut i: usize = 0;
    while i < files.len()
        invariant
            0 <= i <= files.len(),
            all == file_views(files@),
            table_ok(all, i as int, index_views(slots@), map@),
        decreases files.len() - i,
    {
        broadcast use vstd::std_specs::hash::group_hash_axioms;

        let ghost before = index_views(slots@);
        let ghost old_map = map@;
        assert(all[i as int].hardlink_id == files@[i as int].hardlink_id);
        match files[i].hardlink_id {
            Some(id) => {
                let key: u128 = id.0 as u128 * 0x1_0000_0000_0000_0000 + id.1 as u128;
                let found: Option<usize> = match map.get(&key) {
                    Some(s) => Some(*s),
                    None => None,
                };
                match found {
                    Some(s) => {
                        slots[s].push(i);
                        proof {
                            let after = index_views(slots@);
                            assert(after[s as int] =~= before[s as int].push(i as int));
                            assert(after =~= before.update(
                                s as int,
                                before[s as int].push(i as int),
                            ));
                            lemma_slot_push(all, i as int, before, old_map, s as int);
                        }
                    },
                    None => {
                        let mut g: Vec<usize> = Vec::new();
                        g.push(i);
                        let at: usize = slots.len();
                        map.insert(key, at);
                        slots.push(g);
                        proof {
                            let after = index_views(slots@);
                            assert(after.last() =~= seq![i as int]);
                            assert(after =~= before.push(seq![i as int]));
                            lemma_slot_new(all, i as int, before, old_map, at);
                        }
                    },
                }
            },
            None => {
                proof {
                    lemma_slot_skip(all, i as int, before, old_map);
                }
            },
        }
        i = i + 1;
    }
    slots
}

fn copy_indices(v: &Vec<usize>) -> (r: Vec<usize>)
    ensures
        r@ == v@,
{
    let mut r: Vec<usize> = Vec::new();
    let mut i: usize = 0;
    while i < v.len()
        invariant
            0 <= i <= v.len(),
            r@ == v@.take(i as int),
        decreases v.len() - i,
    {
        r.push(v[i]);
        i = i + 1;
        assert(v@.take(i as int) =~= v@.take(i - 1).push(v@[i - 1]));
    }
    assert(v@.take(i as int) =~= v@);
    r
}

/// The groups of files that are one and the same, as indices into `files`.
///
/// A file whose other names are all outside is in no group.
pub fn hardlink_groups(files: &Vec<FileItem>) -> (r: Vec<Vec<usize>>)
    ensures
        are_groups(file_views(files@), index_views(r@)),
{
    let ghost all = file_views(files@);
    let slots = slots_of(files);
    let ghost from = index_views(slots@);
    let ghost map = choose|map: Map<u128, usize>| table_ok(all, all.len() as int, from, map);
    let mut r: Vec<Vec<usize>> = Vec::new();
    let ghost mut at: Seq<int> = Seq::empty();
    let mut s: usize = 0;
    while s < slots.len()
        invariant
            0 <= s <= slots.len(),
            from == index_views(slots@),
            at.len() == r.len(),
            forall|n: int|
                0 <= n < r.len() ==> 0 <= #[trigger] at[n] < s && index_views(r@)[n] == from[at[n]],
            forall|m: int, n: int|
                0 <= m < n < r.len() ==> #[trigger] at[m] < #[trigger] at[n],
            forall|n: int| 0 <= n < r.len() ==> (#[trigger] from[at[n]]).len() >= 2,
            forall|t: int|
                0 <= t < s && (#[trigger] from[t]).len() >= 2 ==> at.contains(t),
        decreases slots.len() - s,
    {
        let ghost old_r = index_views(r@);
        let ghost old_at = at;
        if slots[s].len() > 1 {
            r.push(copy_indices(&slots[s]));
            proof {
                at = at.push(s as int);
                assert(index_views(r@) =~= old_r.push(from[s as int]));
                assert forall|t: int| 0 <= t < s + 1 && (#[trigger] from[t]).len()
                    >= 2 implies at.contains(t) by {
                    if t == s {
                        assert(at[old_at.len() as int] == t);
                    } else {
                        assert(old_at.contains(t));
                        let x = choose|x: int| 0 <= x < old_at.len() && old_at[x] == t;
                        assert(at[x] == t);
                    }
                }
            }
        }
        s = s + 1;
    }
    proof {
        let gs = index_views(r@);
        assert forall|n: int| 0 <= n < gs.len() implies is_group(all, #[trigger] gs[n]) by {
            let t = at[n];
            let g = gs[n];
            assert(slot_ok(all, all.len() as int, from[t]));
            assert forall|k: int| 0 <= k < all.len() implies (#[trigger] g.contains(k)
                <==> all[k].hardlink_id == all[g[0]].hardlink_id) by {
                if all[k].hardlink_id == all[g[0]].hardlink_id {
                    lemma_same_slot(all, from, map, k, g[0]);
                    lemma_slot_unique(all, from, map, t, g[0]);
                }
            }
        }
        assert forall|m: int, n: int| 0 <= m < n < gs.len() implies (#[trigger] gs[m])[0] < (
        #[trigger] gs[n])[0] by {
            assert(at[m] < at[n]);
            assert(from[at[m]][0] < from[at[n]][0]);
        }
        assert forall|i: int, j: int|
            0 <= i < all.len() && 0 <= j < all.len() && i != j && (
            #[trigger] all[i]).hardlink_id is Some && (#[trigger] all[j]).hardlink_id
                == all[i].hardlink_id implies in_some_group(gs, i) by {
            lemma_same_slot(all, from, map, i, j);
            let k = key_of(all[i].hardlink_id->0) as u128;
            let t = map[k] as int;
            let g = from[t];
            let x = choose|x: int| 0 <= x < g.len() && g[x] == i;
            let y = choose|y: int| 0 <= y < g.len() && g[y] == j;
            assert(g.len() >= 2);
            assert(at.contains(t));
            let n = choose|n: int| 0 <= n < at.len() && at[n] == t;
            assert(gs[n].contains(i));
        }
    }
    r
}

proof fn lemma_same_slot(
    files: Seq<FileView>,
    slots: Seq<Seq<int>>,
    map: Map<u128, usize>,
    i: int,
    j: int,
)
    requires
        table_ok(files, files.len() as int, slots, map),
        0 <= i < files.len(),
        0 <= j < files.len(),
        files[i].hardlink_id is Some,
        files[i].hardlink_id == files[j].hardlink_id,
    ensures
        ({
            let k = key_of(files[i].hardlink_id->0) as u128;
            &&& map.dom().contains(k)
            &&& 0 <= map[k] < slots.len()
            &&& slots[map[k] as int].contains(i)
            &&& slots[map[k] as int].contains(j)
        }),
{
    assert(entered(files, i, slots, map));
    assert(entered(files, j, slots, map));
}

proof fn lemma_slot_unique(
    files: Seq<FileView>,
    slots: Seq<Seq<int>>,
    map: Map<u128, usize>,
    t: int,
    i: int,
)
    requires
        table_ok(files, files.len() as int, slots, map),
        0 <= t < slots.len(),
        slots[t][0] == i,
    ensures
        map[key_of(files[i].hardlink_id->0) as u128] == t,
{
    assert(slot_known(files, t, slots, map));
}

/// Every entry of a directory is taken down as what it is, at its place: a directory, a
/// file with its size and what names it, a link with what it says, or, where that could not
/// be read, why. What was taken down before stays, and nothing else is added.
#[verifier::spinoff_prover]
#[verifier::rlimit(40)]
pub proof fn law_every_entry_is_listed(p: PlanView, rel: PathView, fs: Seq<FoundView>, i: int)
    requires
        0 <= i < fs.len(),
    ensures
        ({
            let q = p.with_all(rel, fs);
            let f = fs[i];
            let at = PathView { parts: rel.parts.push(f.info.name), ..rel };
            &&& f.info.kind == EntryKind::Dir ==> q.dirs.contains(at)
            &&& f.info.kind == EntryKind::File ==> q.files.contains(
                FileView { rel: at, size: f.info.size, hardlink_id: f.info.hardlink_id },
            )
            &&& f.info.kind == EntryKind::Symlink ==> match f.target {
                Ok(target) => q.symlinks.contains(SymlinkView { rel: at, target }),
                Err(e) => q.unreadable.contains((at, e)),
            }
            &&& p.dirs.is_prefix_of(q.dirs)
            &&& p.files.is_prefix_of(q.files)
            &&& p.symlinks.is_prefix_of(q.symlinks)
            &&& p.unreadable.is_prefix_of(q.unreadable)
            &&& q.dirs.len() + q.files.len() + q.symlinks.len() + q.unreadable.len()
                == p.dirs.len() + p.files.len() + p.symlinks.len() + p.unreadable.len() + fs.len()
        }),
    decreases fs.len(),
{
    let less = fs.drop_last();
    let q = p.with_all(rel, less);
    let r = p.with_all(rel, fs);
    let f = fs.last();
    let at = rel.child(f.info.name);
    assert(r == q.with(rel, f));
    if less.len() > 0 {
        law_every_entry_is_listed(
            p,
            rel,
            less,
            if i < less.len() {
                i
            } else {
                0
            },
        );
    } else {
        assert(q == p);
        assert(p.dirs =~= p.dirs.subrange(0, p.dirs.len() as int));
        assert(p.files =~= p.files.subrange(0, p.files.len() as int));
        assert(p.symlinks =~= p.symlinks.subrange(0, p.symlinks.len() as int));
        assert(p.unreadable =~= p.unreadable.subrange(0, p.unreadable.len() as int));
    }
    lemma_longer(p.dirs, q.dirs, at);
    lemma_longer(
        p.files,
        q.files,
        FileView { rel: at, size: f.info.size, hardlink_id: f.info.hardlink_id },
    );
    if let Ok(target) = f.target {
        lemma_longer(p.symlinks, q.symlinks, SymlinkView { rel: at, target });
    }
    if let Err(e) = f.target {
        lemma_longer(p.unreadable, q.unreadable, (at, e));
    }
    if i < less.len() {
        assert(less[i] == fs[i]);
        let here = PathView { parts: rel.parts.push(fs[i].info.name), ..rel };
        lemma_still_there(q.dirs, at, here);
        lemma_still_there(
            q.files,
            FileView { rel: at, size: f.info.size, hardlink_id: f.info.hardlink_id },
            FileView { rel: here, size: fs[i].info.size, hardlink_id: fs[i].info.hardlink_id },
        );
        if let (Ok(a), Ok(b)) = (f.target, fs[i].target) {
            lemma_still_there(
                q.symlinks,
                SymlinkView { rel: at, target: a },
                SymlinkView { rel: here, target: b },
            );
        }
        if let (Err(a), Err(b)) = (f.target, fs[i].target) {
            lemma_still_there(q.unreadable, (at, a), (here, b));
        }
    } else {
        assert(fs[i] == f);
    }
}

proof fn lemma_longer<A>(a: Seq<A>, b: Seq<A>, x: A)
    requires
        a.is_prefix_of(b),
    ensures
        a.is_prefix_of(b.push(x)),
        b.push(x).contains(x),
{
    assert(b.push(x).subrange(0, a.len() as int) =~= b.subrange(0, a.len() as int));
    assert(b.push(x)[b.len() as int] == x);
}

proof fn lemma_still_there<A>(b: Seq<A>, x: A, y: A)
    ensures
        b.contains(y) ==> b.push(x).contains(y),
{
    if b.contains(y) {
        let i = choose|i: int| 0 <= i < b.len() && b[i] == y;
        assert(b.push(x)[i] == y);
    }
}

/// A directory that cannot be read is taken down as that, with why, and everything else
/// stays as it is. Where it is the source itself, the scan fails, with what the system said
/// first. What was not asked for changes nothing.
pub proof fn law_unreadable_directories(s: ScanView, ticket: int, e: FaultView)
    ensures
        ({
            let next = s.absorbed(ticket, Err(e));
            &&& !s.owed(ticket) ==> next == s
            &&& next.root == s.root
            &&& s.owed(ticket) ==> next.open == s.open.update(ticket, false)
            &&& s.owed(ticket) && ticket != 0 ==> next.failed == s.failed && next.plan.unreadable
                == s.plan.unreadable.push((s.plan.dirs[ticket - 1], e.text)) && next.plan.dirs
                == s.plan.dirs && next.plan.files == s.plan.files && next.plan.symlinks
                == s.plan.symlinks && next.plan.total_bytes == s.plan.total_bytes
            &&& s.owed(ticket) && ticket == 0 ==> next.plan == s.plan && (s.failed is Some
                ==> next.failed == s.failed) && (s.failed is None ==> (next.failed matches Some(
                ErrorView::Io { path, source },
            ) && source == e && (path matches Some(p) && p.parts.take(s.root.parts.len() as int)
                == s.root.parts)))
        }),
{
    let p = s.root.closed_off();
    assert(p.parts.take(s.root.parts.len() as int) =~= s.root.parts);
}

} // verus!
