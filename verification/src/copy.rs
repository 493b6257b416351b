//! Copying a tree.
//!
//! The directories are made first, shallow ones before deep ones. After that no
//! file waits for another: the links are made, the files are copied side by
//! side, large ones first, and last the further names of files that have several
//! are linked to the first one.
//!
//! The first failure ends it: the whole move is called off then, so there is no
//! use in going on.

use vstd::prelude::*;

use crate::error::failed_views;
use crate::error::outcome;
use crate::error::FailedItem;
use crate::error::FailedView;
use crate::error::FaultKind;
use crate::error::IoFault;
use crate::path::copy_bytes;
use crate::path::show_bytes;
use crate::path::shown;
use crate::path::PathBuf;
use crate::path::PathView;
use crate::path::Style;
use crate::plan::are_groups;
use crate::plan::file_views;
use crate::plan::hardlink_groups;
use crate::plan::in_some_group;
use crate::plan::index_views;
use crate::plan::indices;
use crate::plan::is_group;
use crate::plan::FileView;
use crate::plan::Plan;
use crate::plan::PlanView;
use crate::text::cat;
use crate::text::dec;
use crate::text::holds;
use crate::text::lemma_encode_concat;
use crate::text::lemma_encode_long;
use crate::text::lemma_holds_at;
use crate::text::show;

verus! {

/// How far copying has got, and what it failed on.
#[derive(Debug, PartialEq, Eq)]
pub struct Progress {
    pub bytes_done: u64,
    pub files_done: usize,
    /// What failed, in the order in which it did.
    pub failures: Vec<FailedItem>,
    /// Whether something failed.
    pub aborted: bool,
}

/// The contents of a [`Progress`].
#[verifier::ext_equal]
pub struct ProgressView {
    pub bytes_done: u64,
    pub files_done: usize,
    pub failures: Seq<FailedView>,
    pub aborted: bool,
}

impl View for Progress {
    type V = ProgressView;

    open spec fn view(&self) -> ProgressView {
        ProgressView {
            bytes_done: self.bytes_done,
            files_done: self.files_done,
            failures: failed_views(self.failures@),
            aborted: self.aborted,
        }
    }
}

impl ProgressView {
    /// Nothing done, nothing failed.
    pub open spec fn empty() -> ProgressView {
        ProgressView { bytes_done: 0, files_done: 0, failures: Seq::empty(), aborted: false }
    }

    /// The progress once something failed.
    pub open spec fn failed(self, item: FailedView) -> ProgressView {
        ProgressView { failures: self.failures.push(item), aborted: true, ..self }
    }

    /// The progress with one more file there, of which `bytes` were copied.
    pub open spec fn counted(self, bytes: u64) -> ProgressView {
        ProgressView {
            bytes_done: self.bytes_done.wrapping_add(bytes),
            files_done: self.files_done.wrapping_add(1),
            ..self
        }
    }
}

impl Default for Progress {
    fn default() -> (r: Self)
        ensures
            r@ == ProgressView::empty(),
    {
        Progress::new()
    }
}

impl Progress {
    pub fn new() -> (r: Self)
        ensures
            r@ == ProgressView::empty(),
    {
        let r = Progress { bytes_done: 0, files_done: 0, failures: Vec::new(), aborted: false };
        assert(r@ =~= ProgressView::empty());
        r
    }

    fn record_failure(&mut self, item: FailedItem)
        ensures
            final(self)@ == old(self)@.failed(item@),
    {
        self.aborted = true;
        self.failures.push(item);
        assert(self@.failures =~= old(self)@.failures.push(item@));
    }

    fn count(&mut self, bytes: u64)
        ensures
            final(self)@ == old(self)@.counted(bytes),
    {
        self.bytes_done = self.bytes_done.wrapping_add(bytes);
        self.files_done = self.files_done.wrapping_add(1);
    }

    /// Whether something failed.
    pub fn is_aborted(&self) -> (r: bool)
        ensures
            r == self@.aborted,
    {
        self.aborted
    }

    /// Hands over the failures and forgets them.
    pub fn take_failures(&mut self) -> (r: Vec<FailedItem>)
        ensures
            failed_views(r@) == old(self)@.failures,
            final(self)@ == (ProgressView { failures: Seq::empty(), ..old(self)@ }),
    {
        let mut r: Vec<FailedItem> = Vec::new();
        std::mem::swap(&mut r, &mut self.failures);
        assert(self@.failures =~= Seq::<FailedView>::empty());
        r
    }
}

/// The first of the files, from `k` on, that is the same file as `i`.
pub open spec fn first_same(files: Seq<FileView>, i: int, k: int) -> int
    decreases i - k,
{
    if k >= i {
        i
    } else if files[k].hardlink_id == files[i].hardlink_id {
        k
    } else {
        first_same(files, i, k + 1)
    }
}

/// The file that `i` is copied as: itself, or the first name of it where it has
/// several.
pub open spec fn leader(files: Seq<FileView>, i: int) -> int {
    if files[i].hardlink_id is None {
        i
    } else {
        first_same(files, i, 0)
    }
}

/// Those of the first `n` files that are copied (`own`), or that are linked.
pub open spec fn sorted_out(files: Seq<FileView>, own: bool, n: int) -> Seq<int>
    decreases n,
{
    if n <= 0 {
        Seq::empty()
    } else if (leader(files, n - 1) == n - 1) == own {
        sorted_out(files, own, n - 1).push(n - 1)
    } else {
        sorted_out(files, own, n - 1)
    }
}

/// The files that are copied.
pub open spec fn copied(files: Seq<FileView>) -> Seq<int> {
    sorted_out(files, true, files.len() as int)
}

/// The files that are linked to one that was copied.
pub open spec fn linked(files: Seq<FileView>) -> Seq<int> {
    sorted_out(files, false, files.len() as int)
}

/// One thing to do.
#[derive(Debug, PartialEq, Eq)]
pub enum Task {
    MakeDir { path: PathBuf },
    /// Makes a link at `path` that says `target`.
    MakeLink { target: Vec<u8>, path: PathBuf },
    CopyFile { from: PathBuf, to: PathBuf, size: u64 },
    /// Makes `link` a further name of `existing`.
    HardLink { existing: PathBuf, link: PathBuf },
}

/// The contents of a [`Task`].
#[allow(inconsistent_fields)]
pub enum TaskView {
    MakeDir { path: PathView },
    MakeLink { target: Seq<u8>, path: PathView },
    CopyFile { from: PathView, to: PathView, size: u64 },
    HardLink { existing: PathView, link: PathView },
}

impl View for Task {
    type V = TaskView;

    open spec fn view(&self) -> TaskView {
        match *self {
            Task::MakeDir { path } => TaskView::MakeDir { path: path@ },
            Task::MakeLink { target, path } => TaskView::MakeLink { target: target@, path: path@ },
            Task::CopyFile { from, to, size } => TaskView::CopyFile { from: from@, to: to@, size },
            Task::HardLink { existing, link } => TaskView::HardLink {
                existing: existing@,
                link: link@,
            },
        }
    }
}

/// How far copying has got.
///
/// What there is to do is known by tickets: first the directories, then the
/// links, then the files to copy, then those to link.
#[verifier::ext_equal]
pub struct CopyView {
    pub src: PathView,
    pub dst: PathView,
    pub plan: PlanView,
    /// The tickets below this one were handed out.
    pub next: nat,
    /// Of each ticket whether it is being worked on.
    pub open: Seq<bool>,
    /// Why the next ticket could not be linked, where it is to be copied instead.
    pub retry: Option<Seq<char>>,
    pub progress: ProgressView,
}

impl CopyView {
    /// The state in which copying begins.
    pub open spec fn start(src: PathView, dst: PathView, plan: PlanView, p: ProgressView) -> CopyView {
        let n = plan.dirs.len() + plan.symlinks.len() + copied(plan.files).len() + linked(
            plan.files,
        ).len();
        CopyView {
            src,
            dst,
            plan,
            next: 0,
            open: Seq::new(n, |i: int| false),
            retry: None,
            progress: p,
        }
    }

    /// The first ticket of a link.
    pub open spec fn links_at(self) -> int {
        self.plan.dirs.len() as int
    }

    /// The first ticket of a file to copy.
    pub open spec fn files_at(self) -> int {
        self.links_at() + self.plan.symlinks.len()
    }

    /// The first ticket of a file to link.
    pub open spec fn names_at(self) -> int {
        self.files_at() + copied(self.plan.files).len()
    }

    /// The ticket behind the last one.
    pub open spec fn end(self) -> int {
        self.names_at() + linked(self.plan.files).len()
    }

    /// Whether nothing is being worked on.
    pub open spec fn idle(self) -> bool {
        forall|t: int| 0 <= t < self.open.len() ==> !#[trigger] self.open[t]
    }

    /// Whether the next ticket can be handed out. Files are copied side by side;
    /// everything else waits for what came before.
    pub open spec fn can_take(self) -> bool {
        &&& !self.progress.aborted
        &&& self.next < self.end()
        &&& self.idle() || self.files_at() < self.next < self.names_at()
    }

    /// Whether there is nothing left to do.
    pub open spec fn finished(self) -> bool {
        self.idle() && (self.progress.aborted || self.next == self.end())
    }

    /// What a ticket is for.
    pub open spec fn task(self, t: int) -> TaskView {
        if t < self.links_at() {
            TaskView::MakeDir { path: self.dst.join(self.plan.dirs[t]) }
        } else if t < self.files_at() {
            let l = self.plan.symlinks[t - self.links_at()];
            TaskView::MakeLink { target: l.target, path: self.dst.join(l.rel) }
        } else {
            let i = self.file(t);
            let f = self.plan.files[i];
            if t < self.names_at() || self.retry is Some {
                TaskView::CopyFile {
                    from: self.src.join(f.rel),
                    to: self.dst.join(f.rel),
                    size: f.size,
                }
            } else {
                TaskView::HardLink {
                    existing: self.dst.join(
                        self.plan.files[leader(self.plan.files, i)].rel,
                    ),
                    link: self.dst.join(f.rel),
                }
            }
        }
    }

    /// The file that a ticket is for.
    pub open spec fn file(self, t: int) -> int {
        if t < self.names_at() {
            copied(self.plan.files)[t - self.files_at()]
        } else {
            linked(self.plan.files)[t - self.names_at()]
        }
    }

    /// The state once the next ticket is handed out.
    pub open spec fn taken(self) -> CopyView {
        if self.can_take() {
            CopyView { next: self.next + 1, open: self.open.update(self.next as int, true), ..self }
        } else {
            self
        }
    }

    /// The state once a ticket was tried. One that is not being worked on is
    /// ignored. A directory that is there already is as good as made, and a file
    /// that cannot be linked is tried again, to be copied.
    pub open spec fn settled(self, t: int, fault: Option<(FaultKind, Seq<char>)>) -> CopyView {
        if !(0 <= t < self.open.len()) || !self.open[t] {
            self
        } else {
            let s = CopyView { open: self.open.update(t, false), ..self };
            if t < self.links_at() {
                match fault {
                    Some((kind, text)) => if kind == FaultKind::AlreadyExists {
                        s
                    } else {
                        s.failing(self.dst.join(self.plan.dirs[t]), text, true)
                    },
                    None => s,
                }
            } else if t < self.files_at() {
                match fault {
                    Some((_, text)) => s.failing(
                        self.dst.join(self.plan.symlinks[t - self.links_at()].rel),
                        "重建符号链接失败: "@ + text,
                        false,
                    ),
                    None => s,
                }
            } else {
                let f = self.plan.files[self.file(t)];
                let from = self.src.join(f.rel);
                if t < self.names_at() {
                    match fault {
                        Some((_, text)) => s.failing(from, text, false),
                        None => CopyView { progress: self.progress.counted(f.size), ..s },
                    }
                } else {
                    match (self.retry, fault) {
                        (None, Some((_, text))) => CopyView {
                            next: t as nat,
                            retry: Some(text),
                            ..s
                        },
                        (None, None) => CopyView { progress: self.progress.counted(0), ..s },
                        (Some(why), Some((_, text))) => CopyView { retry: None, ..s }.failing(
                            from,
                            "建硬链接失败("@ + why + ")，退化复制也失败("@ + text + ")"@,
                            false,
                        ),
                        (Some(_), None) => CopyView {
                            retry: None,
                            progress: self.progress.counted(f.size),
                            ..s
                        },
                    }
                }
            }
        }
    }

    /// The state with one more failure.
    pub open spec fn failing(self, path: PathView, error: Seq<char>, is_dir: bool) -> CopyView {
        CopyView { progress: self.progress.failed(FailedView { path, error, is_dir }), ..self }
    }

    /// That the books fit: what is being worked on was handed out, and only files
    /// to copy are worked on side by side.
    pub open spec fn sound(self) -> bool {
        &&& self.open.len() == self.end()
        &&& self.next <= self.end()
        &&& forall|t: int| 0 <= t < self.open.len() && #[trigger] self.open[t] ==> t < self.next
        &&& forall|t: int|
            0 <= t < self.open.len() && #[trigger] self.open[t] ==> (t == self.next - 1 || (
            self.files_at() <= t < self.names_at() && self.next <= self.names_at()))
        &&& self.retry is Some ==> {
            ||| self.idle() && self.names_at() <= self.next < self.end()
            ||| self.names_at() < self.next && self.open[self.next - 1]
        }
    }
}

proof fn lemma_sorted_out(files: Seq<FileView>, own: bool, n: int)
    requires
        0 <= n <= files.len(),
    ensures
        forall|k: int|
            0 <= k < sorted_out(files, own, n).len() ==> 0 <= #[trigger] sorted_out(files, own, n)[k] < n
                && (leader(files, sorted_out(files, own, n)[k]) == sorted_out(files, own, n)[k])
                == own,
        forall|i: int|
            0 <= i < n && (leader(files, i) == i) == own ==> #[trigger] sorted_out(
                files,
                own,
                n,
            ).contains(i),
        sorted_out(files, own, n).no_duplicates(),
        sorted_out(files, true, n).len() + sorted_out(files, false, n).len() == n,
    decreases n,
{
    if n > 0 {
        lemma_sorted_out(files, own, n - 1);
        lemma_sorted_out(files, !own, n - 1);
        let a = sorted_out(files, own, n - 1);
        let r = sorted_out(files, own, n);
        assert forall|i: int| 0 <= i < n && (leader(files, i) == i) == own implies #[trigger] r.contains(
            i,
        ) by {
            if i < n - 1 {
                assert(a.contains(i));
                let k = choose|k: int| 0 <= k < a.len() && a[k] == i;
                assert(r[k] == i);
            } else {
                assert(r[a.len() as int] == i);
            }
        }
    }
}

/// Every file is either copied or linked, and not both.
pub proof fn law_every_file_has_a_ticket(files: Seq<FileView>)
    ensures
        forall|i: int|
            0 <= i < files.len() ==> (#[trigger] copied(files).contains(i) <==> !linked(
                files,
            ).contains(i)),
        copied(files).no_duplicates(),
        linked(files).no_duplicates(),
        copied(files).len() + linked(files).len() == files.len(),
{
    let n = files.len() as int;
    lemma_sorted_out(files, true, n);
    lemma_sorted_out(files, false, n);
    assert forall|i: int| 0 <= i < files.len() implies (#[trigger] copied(files).contains(i)
        <==> !linked(files).contains(i)) by {
        assert(leader(files, i) == i || leader(files, i) != i);
        if copied(files).contains(i) {
            let k = choose|k: int| 0 <= k < copied(files).len() && copied(files)[k] == i;
            assert(leader(files, i) == i);
        }
        if linked(files).contains(i) {
            let k = choose|k: int| 0 <= k < linked(files).len() && linked(files)[k] == i;
            assert(leader(files, i) != i);
        }
        assert((leader(files, i) == i) == true ==> sorted_out(files, true, n).contains(i));
        assert((leader(files, i) == i) == false ==> sorted_out(files, false, n).contains(i));
    }
}

/// What is copied or linked are files, and a file is copied just if it is its own first
/// name.
pub proof fn law_every_ticket_has_a_file(files: Seq<FileView>)
    ensures
        forall|k: int|
            0 <= k < copied(files).len() ==> 0 <= #[trigger] copied(files)[k] < files.len()
                && leader(files, copied(files)[k]) == copied(files)[k],
        forall|k: int|
            0 <= k < linked(files).len() ==> 0 <= #[trigger] linked(files)[k] < files.len()
                && leader(files, linked(files)[k]) != linked(files)[k],
{
    lemma_sorted_out(files, true, files.len() as int);
    lemma_sorted_out(files, false, files.len() as int);
}

proof fn lemma_first_same(files: Seq<FileView>, i: int, k: int)
    requires
        0 <= k <= i < files.len(),
    ensures
        k <= first_same(files, i, k) <= i,
        files[first_same(files, i, k)].hardlink_id == files[i].hardlink_id,
        forall|j: int|
            k <= j < first_same(files, i, k) ==> (#[trigger] files[j]).hardlink_id
                != files[i].hardlink_id,
    decreases i - k,
{
    if k < i && files[k].hardlink_id != files[i].hardlink_id {
        lemma_first_same(files, i, k + 1);
    }
}

proof fn lemma_first_same_is(files: Seq<FileView>, i: int, k: int, j: int)
    requires
        0 <= k <= j <= i < files.len(),
        files[j].hardlink_id == files[i].hardlink_id,
        forall|x: int| k <= x < j ==> (#[trigger] files[x]).hardlink_id != files[i].hardlink_id,
    ensures
        first_same(files, i, k) == j,
    decreases i - k,
{
    if k < j {
        lemma_first_same_is(files, i, k + 1, j);
    }
}

/// Two files have one first name just where they are one: the same, or told to be.
pub proof fn law_leaders_tell(files: Seq<FileView>, i: int, j: int)
    requires
        0 <= i < files.len(),
        0 <= j < files.len(),
    ensures
        leader(files, i) == leader(files, j) <==> i == j || (files[i].hardlink_id is Some
            && files[i].hardlink_id == files[j].hardlink_id),
{
    if files[i].hardlink_id is Some {
        lemma_first_same(files, i, 0);
    }
    if files[j].hardlink_id is Some {
        lemma_first_same(files, j, 0);
    }
    if files[i].hardlink_id is Some && files[i].hardlink_id == files[j].hardlink_id {
        let a = leader(files, i);
        let b = leader(files, j);
        if a < b {
            assert(files[a].hardlink_id != files[j].hardlink_id);
        } else if b < a {
            assert(files[b].hardlink_id != files[i].hardlink_id);
        }
    }
}

/// What a file is linked to is the same file, and is copied itself.
pub proof fn law_leader_is_copied(files: Seq<FileView>, i: int)
    requires
        0 <= i < files.len(),
    ensures
        0 <= leader(files, i) <= i,
        files[leader(files, i)].hardlink_id == files[i].hardlink_id,
        copied(files).contains(leader(files, i)),
{
    let j = leader(files, i);
    if files[i].hardlink_id is Some {
        lemma_first_same(files, i, 0);
        lemma_first_same(files, j, 0);
        let k = first_same(files, j, 0);
        if k < j {
            assert(files[k].hardlink_id != files[i].hardlink_id);
        }
    }
    assert(leader(files, j) == j);
    lemma_sorted_out(files, true, files.len() as int);
    assert((leader(files, j) == j) == true);
}

/// How many are being worked on.
spec fn count_busy(open: Seq<bool>) -> nat
    decreases open.len(),
{
    if open.len() == 0 {
        0
    } else {
        count_busy(open.drop_last()) + if open.last() {
            1nat
        } else {
            0nat
        }
    }
}

proof fn lemma_count_busy(open: Seq<bool>)
    ensures
        count_busy(open) <= open.len(),
        count_busy(open) == 0 <==> (forall|t: int| 0 <= t < open.len() ==> !#[trigger] open[t]),
    decreases open.len(),
{
    if open.len() > 0 {
        let rest = open.drop_last();
        lemma_count_busy(rest);
        if count_busy(open) == 0 {
            assert forall|t: int| 0 <= t < open.len() implies !#[trigger] open[t] by {
                if t < rest.len() {
                    assert(!rest[t]);
                }
            }
        } else if forall|t: int| 0 <= t < open.len() ==> !#[trigger] open[t] {
            assert(!open[open.len() - 1]);
            assert forall|t: int| 0 <= t < rest.len() implies !#[trigger] rest[t] by {
                assert(!open[t]);
            }
        }
    }
}

proof fn lemma_count_busy_update(open: Seq<bool>, t: int)
    requires
        0 <= t < open.len(),
    ensures
        open[t] ==> count_busy(open.update(t, false)) + 1 == count_busy(open),
        !open[t] ==> count_busy(open.update(t, true)) == count_busy(open) + 1,
    decreases open.len(),
{
    let last = open.len() - 1;
    if t == last {
        assert(open.update(t, false).drop_last() =~= open.drop_last());
        assert(open.update(t, true).drop_last() =~= open.drop_last());
    } else {
        assert(open.update(t, false).drop_last() =~= open.drop_last().update(t, false));
        assert(open.update(t, true).drop_last() =~= open.drop_last().update(t, true));
        lemma_count_busy_update(open.drop_last(), t);
    }
}

/// Copying begins, and goes on, with the books in order.
pub proof fn law_copy_sound(s: CopyView, t: int, fault: Option<(FaultKind, Seq<char>)>)
    requires
        s.sound(),
    ensures
        s.taken().sound(),
        s.settled(t, fault).sound(),
{
    let a = s.taken();
    if s.can_take() {
        if s.idle() {
            assert forall|x: int| 0 <= x < a.open.len() && #[trigger] a.open[x] implies x == s.next by {
                if x != s.next {
                    assert(!s.open[x]);
                }
            }
        } else {
            assert forall|x: int| 0 <= x < a.open.len() && #[trigger] a.open[x] implies (x == a.next
                - 1 || (s.files_at() <= x < s.names_at() && a.next <= s.names_at())) by {
                if x != s.next {
                    assert(s.open[x]);
                }
            }
            assert(s.retry is None);
        }
    }
    let b = s.settled(t, fault);
    if 0 <= t < s.open.len() && s.open[t] {
        assert forall|x: int| 0 <= x < b.open.len() && #[trigger] b.open[x] implies s.open[x] && x
            != t by {}
        if t >= s.names_at() {
            assert(t == s.next - 1);
            assert forall|x: int| 0 <= x < b.open.len() implies !#[trigger] b.open[x] by {
                if x != t && s.open[x] {
                    assert(s.next <= s.names_at());
                }
            }
        }
    }
}

fn leaders_of(files: &Vec<crate::plan::FileItem>) -> (r: Vec<usize>)
    ensures
        r.len() == files.len(),
        forall|i: int|
            0 <= i < r.len() ==> #[trigger] r@[i] == leader(file_views(files@), i),
{
    let ghost all = file_views(files@);
    let groups = hardlink_groups(files);
    let ghost gs = index_views(groups@);
    let mut lead: Vec<usize> = Vec::new();
    let mut i: usize = 0;
    while i < files.len()
        invariant
            0 <= i <= files.len(),
            lead.len() == i,
            forall|k: int| 0 <= k < i ==> #[trigger] lead@[k] == k,
        decreases files.len() - i,
    {
        lead.push(i);
        i = i + 1;
    }
    let mut g: usize = 0;
    while g < groups.len()
        invariant
            0 <= g <= groups.len(),
            all == file_views(files@),
            gs == index_views(groups@),
            are_groups(all, gs),
            lead.len() == files.len(),
            forall|k: int|
                0 <= k < lead.len() ==> #[trigger] lead@[k] == if grouped(gs, g as int, k) {
                    leader(all, k)
                } else {
                    k
                },
        decreases groups.len() - g,
    {
        let ghost l0 = lead@;
        assert(is_group(all, gs[g as int]));
        let group = &groups[g];
        assert(gs[g as int] == indices(group@));
        let mut n: usize = 1;
        while n < group.len()
            invariant
                1 <= n <= group.len(),
                all == file_views(files@),
                g < groups.len(),
                gs == index_views(groups@),
                gs[g as int] == indices(group@),
                is_group(all, gs[g as int]),
                l0.len() == files.len(),
                lead.len() == files.len(),
                forall|k: int|
                    0 <= k < lead.len() ==> #[trigger] lead@[k] == if gs[g as int].take(
                        n as int,
                    ).skip(1).contains(k) {
                        gs[g as int][0]
                    } else {
                        l0[k] as int
                    },
            decreases group.len() - n,
        {
            let ghost gg = gs[g as int];
            let ghost l1 = lead@;
            assert(gg[n as int] == group@[n as int] as int);
            assert(gg[0] == group@[0] as int);
            lead.set(group[n], group[0]);
            proof {
                let a = gg.take(n as int).skip(1);
                let b = gg.take(n + 1).skip(1);
                assert(b =~= a.push(gg[n as int]));
                assert forall|k: int| 0 <= k < lead.len() implies #[trigger] lead@[k] == if b.contains(
                    k,
                ) {
                    gg[0]
                } else {
                    l0[k] as int
                } by {
                    if a.contains(k) {
                        let x = choose|x: int| 0 <= x < a.len() && a[x] == k;
                        assert(b[x] == k);
                    }
                    if k == gg[n as int] {
                        assert(b[a.len() as int] == k);
                    }
                    if b.contains(k) && k != gg[n as int] {
                        let x = choose|x: int| 0 <= x < b.len() && b[x] == k;
                        assert(a[x] == k);
                    }
                    assert(l1[k] == if a.contains(k) {
                        gg[0]
                    } else {
                        l0[k] as int
                    });
                }
            }
            n = n + 1;
        }
        proof {
            let gg = gs[g as int];
            assert(gg.take(n as int) =~= gg);
            assert forall|k: int| 0 <= k < lead.len() implies #[trigger] lead@[k] == if grouped(
                gs,
                g + 1,
                k,
            ) {
                leader(all, k)
            } else {
                k
            } by {
                assert(l0[k] == if grouped(gs, g as int, k) {
                    leader(all, k)
                } else {
                    k
                });
                lemma_grouped(gs, g as int, k);
                if gg.contains(k) {
                    lemma_group_leader(all, gg, k);
                    let x = choose|x: int| 0 <= x < gg.len() && gg[x] == k;
                    if x > 0 {
                        assert(gg.skip(1)[x - 1] == k);
                    } else {
                        assert(!gg.skip(1).contains(k)) by {
                            if gg.skip(1).contains(k) {
                                let y = choose|y: int| 0 <= y < gg.skip(1).len() && gg.skip(1)[y] == k;
                                assert(gg[y + 1] == k);
                                assert(gg[0] < gg[y + 1]);
                            }
                        }
                    }
                } else {
                    assert(!gg.skip(1).contains(k)) by {
                        if gg.skip(1).contains(k) {
                            let y = choose|y: int| 0 <= y < gg.skip(1).len() && gg.skip(1)[y] == k;
                            assert(gg[y + 1] == k);
                        }
                    }
                }
            }
        }
        g = g + 1;
    }
    proof {
        assert forall|k: int| 0 <= k < lead.len() implies #[trigger] lead@[k] == leader(all, k) by {
            if !grouped(gs, gs.len() as int, k) {
                if all[k].hardlink_id is Some {
                    lemma_first_same(all, k, 0);
                    let j = first_same(all, k, 0);
                    if j != k {
                        assert(all[j].hardlink_id == all[k].hardlink_id);
                        assert(in_some_group(gs, k));
                        let n = choose|n: int| 0 <= n < gs.len() && (#[trigger] gs[n]).contains(k);
                        assert(gs[n].contains(k));
                    }
                }
            }
        }
    }
    lead
}

/// Whether one of the first `n` groups has the file `k`.
spec fn grouped(gs: Seq<Seq<int>>, n: int, k: int) -> bool {
    exists|m: int| 0 <= m < n && (#[trigger] gs[m]).contains(k)
}

proof fn lemma_grouped(gs: Seq<Seq<int>>, n: int, k: int)
    requires
        0 <= n < gs.len(),
    ensures
        grouped(gs, n + 1, k) == (grouped(gs, n, k) || gs[n].contains(k)),
{
    if grouped(gs, n, k) {
        let m = choose|m: int| 0 <= m < n && (#[trigger] gs[m]).contains(k);
        assert(gs[m].contains(k));
    }
    if gs[n].contains(k) {
        assert(grouped(gs, n + 1, k));
    }
    if grouped(gs, n + 1, k) {
        let m = choose|m: int| 0 <= m < n + 1 && (#[trigger] gs[m]).contains(k);
        assert(gs[m].contains(k));
    }
}

pub proof fn lemma_group_leader(files: Seq<FileView>, g: Seq<int>, k: int)
    requires
        is_group(files, g),
        g.contains(k),
    ensures
        leader(files, k) == g[0],
{
    let x = choose|x: int| 0 <= x < g.len() && g[x] == k;
    assert(0 <= g[x] < files.len());
    assert(0 <= g[0] < files.len());
    assert(files[k].hardlink_id == files[g[0]].hardlink_id);
    if x > 0 {
        assert(g[0] < g[x]);
    }
    assert forall|y: int| 0 <= y < g[0] implies (#[trigger] files[y]).hardlink_id
        != files[k].hardlink_id by {
        if files[y].hardlink_id == files[k].hardlink_id {
            assert(g.contains(y));
            let z = choose|z: int| 0 <= z < g.len() && g[z] == y;
            if z > 0 {
                assert(g[0] < g[z]);
            }
        }
    }
    lemma_first_same_is(files, k, 0, g[0]);
}

/// The copying of a tree in progress.
pub struct CopyRun<'a> {
    src: PathBuf,
    dst: PathBuf,
    plan: &'a Plan,
    lead: Vec<usize>,
    copied: Vec<usize>,
    linked: Vec<usize>,
    next: usize,
    open: Vec<bool>,
    busy: usize,
    retry: Option<String>,
    progress: Progress,
}

impl<'a> View for CopyRun<'a> {
    type V = CopyView;

    closed spec fn view(&self) -> CopyView {
        CopyView {
            src: self.src@,
            dst: self.dst@,
            plan: self.plan@,
            next: self.next as nat,
            open: self.open@,
            retry: match self.retry {
                Some(s) => Some(s@),
                None => None,
            },
            progress: self.progress@,
        }
    }
}

/// Begins to copy what a plan lists below `src` to below `dst`, which has to be
/// there already.
pub fn copy_tree<'a>(src: PathBuf, dst: PathBuf, plan: &'a Plan, progress: Progress) -> (r: CopyRun<
    'a,
>)
    requires
        plan@.total_items() <= usize::MAX,
    ensures
        r.wf(),
        r@ == CopyView::start(src@, dst@, plan@, progress@),
{
    let ghost all = plan@.files;
    let lead = leaders_of(&plan.files);
    let mut copied: Vec<usize> = Vec::new();
    let mut linked: Vec<usize> = Vec::new();
    let mut i: usize = 0;
    assert(indices(copied@) =~= sorted_out(all, true, 0));
    assert(indices(linked@) =~= sorted_out(all, false, 0));
    while i < lead.len()
        invariant
            0 <= i <= lead.len(),
            lead.len() == all.len(),
            forall|k: int| 0 <= k < lead.len() ==> #[trigger] lead@[k] == leader(all, k),
            indices(copied@) == sorted_out(all, true, i as int),
            indices(linked@) == sorted_out(all, false, i as int),
        decreases lead.len() - i,
    {
        let ghost c0 = indices(copied@);
        let ghost l0 = indices(linked@);
        if lead[i] == i {
            copied.push(i);
            assert(indices(copied@) =~= c0.push(i as int));
        } else {
            linked.push(i);
            assert(indices(linked@) =~= l0.push(i as int));
        }
        i = i + 1;
    }
    proof {
        law_every_file_has_a_ticket(all);
    }
    let n: usize = plan.dirs.len() + plan.symlinks.len() + copied.len() + linked.len();
    let mut open: Vec<bool> = Vec::new();
    while open.len() < n
        invariant
            open.len() <= n,
            forall|t: int| 0 <= t < open.len() ==> !#[trigger] open@[t],
        decreases n - open.len(),
    {
        open.push(false);
    }
    proof {
        lemma_count_busy(open@);
    }
    let r = CopyRun {
        src,
        dst,
        plan,
        lead,
        copied,
        linked,
        next: 0,
        open,
        busy: 0,
        retry: None,
        progress,
    };
    assert(r@ =~= CopyView::start(src@, dst@, plan@, progress@));
    r
}

impl<'a> CopyRun<'a> {
    /// That the books are kept.
    pub closed spec fn wf(&self) -> bool {
        &&& self@.sound()
        &&& self.busy == count_busy(self.open@)
        &&& self.lead.len() == self.plan.files.len()
        &&& forall|i: int|
            0 <= i < self.lead.len() ==> #[trigger] self.lead@[i] == leader(self.plan@.files, i)
        &&& indices(self.copied@) == copied(self.plan@.files)
        &&& indices(self.linked@) == linked(self.plan@.files)
        &&& self.plan@.total_items() <= usize::MAX
    }

    /// What the books say.
    pub proof fn lemma_wf(&self)
        requires
            self.wf(),
        ensures
            self@.sound(),
    {
    }

    fn links_at(&self) -> (r: usize)
        ensures
            r == self@.links_at(),
    {
        self.plan.dirs.len()
    }

    fn files_at(&self) -> (r: usize)
        requires
            self.wf(),
        ensures
            r == self@.files_at(),
    {
        self.plan.dirs.len() + self.plan.symlinks.len()
    }

    fn names_at(&self) -> (r: usize)
        requires
            self.wf(),
        ensures
            r == self@.names_at(),
    {
        proof {
            law_every_file_has_a_ticket(self.plan@.files);
            assert(indices(self.copied@).len() == self.copied.len());
        }
        self.files_at() + self.copied.len()
    }

    fn file(&self, t: usize) -> (r: usize)
        requires
            self.wf(),
            self@.files_at() <= t < self@.end(),
        ensures
            r == self@.file(t as int),
            r < self.plan.files.len(),
    {
        proof {
            lemma_sorted_out(self.plan@.files, true, self.plan@.files.len() as int);
            lemma_sorted_out(self.plan@.files, false, self.plan@.files.len() as int);
        }
        let names: usize = self.names_at();
        if t < names {
            let k: usize = t - self.files_at();
            assert(indices(self.copied@)[k as int] == self.copied@[k as int]);
            self.copied[k]
        } else {
            let k: usize = t - names;
            assert(indices(self.linked@)[k as int] == self.linked@[k as int]);
            self.linked[k]
        }
    }

    /// Hands out the next ticket, where it can be worked on by now.
    pub fn take(&mut self) -> (r: Option<usize>)
        requires
            old(self).wf(),
        ensures
            final(self).wf(),
            final(self)@ == old(self)@.taken(),
            match r {
                Some(t) => old(self)@.can_take() && t == old(self)@.next,
                None => !old(self)@.can_take(),
            },
    {
        proof {
            lemma_count_busy(self.open@);
        }
        if self.progress.is_aborted() || self.next >= self.open.len() {
            return None;
        }
        let t: usize = self.next;
        let side_by_side = self.files_at() < t && t < self.names_at();
        if self.busy > 0 && !side_by_side {
            return None;
        }
        proof {
            law_copy_sound(self@, 0, None);
            lemma_count_busy_update(self.open@, t as int);
            assert(!self.open@[t as int]);
            lemma_count_busy(self.open@.update(t as int, true));
        }
        self.next = t + 1;
        self.open.set(t, true);
        self.busy = self.busy + 1;
        assert(self@ =~= old(self)@.taken());
        Some(t)
    }

    /// What a ticket is for.
    pub fn task(&self, t: usize) -> (r: Task)
        requires
            self.wf(),
            t < self@.end(),
        ensures
            r@ == self@.task(t as int),
    {
        if t < self.links_at() {
            return Task::MakeDir { path: self.dst.join(&self.plan.dirs[t]) };
        }
        if t < self.files_at() {
            let l = &self.plan.symlinks[t - self.links_at()];
            return Task::MakeLink {
                target: copy_bytes(&l.target),
                path: self.dst.join(&l.rel),
            };
        }
        let i: usize = self.file(t);
        let f = &self.plan.files[i];
        if t < self.names_at() || self.retry.is_some() {
            Task::CopyFile { from: self.src.join(&f.rel), to: self.dst.join(&f.rel), size: f.size }
        } else {
            proof {
                law_leader_is_copied(self.plan@.files, i as int);
            }
            let first: usize = self.lead[i];
            Task::HardLink {
                existing: self.dst.join(&self.plan.files[first].rel),
                link: self.dst.join(&f.rel),
            }
        }
    }

    /// Takes back what came of a ticket.
    pub fn settle(&mut self, t: usize, fault: Option<IoFault>)
        requires
            old(self).wf(),
        ensures
            final(self).wf(),
            final(self)@ == old(self)@.settled(t as int, outcome(fault)),
    {
        if t >= self.open.len() || !self.open[t] {
            return;
        }
        proof {
            law_copy_sound(self@, t as int, outcome(fault));
            lemma_count_busy_update(self.open@, t as int);
        }
        let links: usize = self.links_at();
        let files: usize = self.files_at();
        let names: usize = self.names_at();
        if t < links {
            self.open.set(t, false);
            self.busy = self.busy - 1;
            if let Some(f) = fault {
                if f.kind != FaultKind::AlreadyExists {
                    let path = self.dst.join(&self.plan.dirs[t]);
                    self.progress.record_failure(FailedItem { path, error: f.text, is_dir: true });
                }
            }
        } else if t < files {
            self.open.set(t, false);
            self.busy = self.busy - 1;
            if let Some(f) = fault {
                let path = self.dst.join(&self.plan.symlinks[t - links].rel);
                let error = cat("重建符号链接失败: ", f.text.as_str());
                self.progress.record_failure(FailedItem { path, error, is_dir: false });
            }
        } else {
            let i: usize = self.file(t);
            let size: u64 = self.plan.files[i].size;
            let path = self.src.join(&self.plan.files[i].rel);
            self.open.set(t, false);
            self.busy = self.busy - 1;
            if t < names {
                match fault {
                    Some(f) => {
                        self.progress.record_failure(
                            FailedItem { path, error: f.text, is_dir: false },
                        );
                    },
                    None => {
                        self.progress.count(size);
                    },
                }
            } else {
                let retry = self.retry.take();
                match (retry, fault) {
                    (None, Some(f)) => {
                        self.next = t;
                        self.retry = Some(f.text);
                    },
                    (None, None) => {
                        self.progress.count(0);
                    },
                    (Some(why), Some(f)) => {
                        let mut error = cat("建硬链接失败(", why.as_str());
                        error.append(")，退化复制也失败(");
                        error.append(f.text.as_str());
                        error.append(")");
                        self.progress.record_failure(FailedItem { path, error, is_dir: false });
                    },
                    (Some(_), None) => {
                        self.progress.count(size);
                    },
                }
            }
        }
        assert(self@ =~= old(self)@.settled(t as int, outcome(fault)));
    }

    /// Whether there is nothing left to do.
    pub fn is_finished(&self) -> (r: bool)
        requires
            self.wf(),
        ensures
            r == self@.finished(),
    {
        proof {
            lemma_count_busy(self.open@);
        }
        self.busy == 0 && (self.progress.is_aborted() || self.next == self.open.len())
    }

    /// How many bytes were copied so far.
    pub fn bytes_done(&self) -> (r: u64)
        ensures
            r == self@.progress.bytes_done,
    {
        self.progress.bytes_done
    }

    /// How far copying has got, and what it failed on.
    pub fn into_progress(self) -> (r: Progress)
        ensures
            r@ == self@.progress,
    {
        self.progress
    }
}

/// No file is copied before all directories and links are there, and no further
/// name is made before all files are.
pub proof fn law_copy_waits(s: CopyView, t: int)
    requires
        s.sound(),
        s.can_take(),
        0 <= t,
        (s.next >= s.files_at() && t < s.files_at()) || (s.next >= s.names_at() && t < s.names_at()),
    ensures
        t < s.next,
        !s.open[t],
{
    assert(0 <= t < s.open.len());
    if !s.idle() {
        if s.open[t] {
            assert(t == s.next - 1 || s.files_at() <= t < s.names_at());
        }
    }
}

/// Whether trying a ticket left there what it is for.
pub open spec fn worked(s: CopyView, t: int, fault: Option<(FaultKind, Seq<char>)>) -> bool {
    match fault {
        Some((kind, _)) => t < s.links_at() && kind == FaultKind::AlreadyExists,
        None => true,
    }
}

/// What is there once a ticket was tried, when `made` was there before.
pub open spec fn made_after(
    s: CopyView,
    made: Set<int>,
    t: int,
    fault: Option<(FaultKind, Seq<char>)>,
) -> Set<int> {
    if 0 <= t < s.open.len() && s.open[t] && worked(s, t, fault) {
        made.insert(t)
    } else {
        made
    }
}

/// Whether, unless something failed, all that was handed out and came back is
/// there.
pub open spec fn all_made(s: CopyView, made: Set<int>) -> bool {
    !s.progress.aborted ==> forall|t: int|
        0 <= t < s.next && !s.open[t] ==> #[trigger] made.contains(t)
}

/// All that came back is there, whatever happens.
pub proof fn law_copy_makes(
    s: CopyView,
    made: Set<int>,
    t: int,
    fault: Option<(FaultKind, Seq<char>)>,
)
    requires
        s.sound(),
        all_made(s, made),
    ensures
        all_made(s.taken(), made),
        all_made(s.settled(t, fault), made_after(s, made, t, fault)),
{
    let a = s.taken();
    if !a.progress.aborted {
        assert forall|x: int| 0 <= x < a.next && !a.open[x] implies #[trigger] made.contains(x) by {
            if s.can_take() {
                assert(x != s.next);
                assert(!s.open[x]);
            }
        }
    }
    let b = s.settled(t, fault);
    let m = made_after(s, made, t, fault);
    if 0 <= t < s.open.len() && s.open[t] && !b.progress.aborted {
        assert(!s.progress.aborted);
        assert forall|x: int| 0 <= x < b.next && !b.open[x] implies #[trigger] m.contains(x) by {
            if x != t {
                assert(!s.open[x]);
                assert(made.contains(x));
            } else if !worked(s, t, fault) {
                assert(t >= s.names_at());
                assert(b.next == t);
            }
        }
    }
}

/// When copying ends without a failure, everything is there.
pub proof fn law_copy_complete(s: CopyView, made: Set<int>)
    requires
        s.sound(),
        all_made(s, made),
        s.finished(),
        !s.progress.aborted,
    ensures
        forall|t: int| 0 <= t < s.end() ==> #[trigger] made.contains(t),
{
    assert forall|t: int| 0 <= t < s.end() implies #[trigger] made.contains(t) by {
        assert(!s.open[t]);
    }
}

/// Copying is called off just if there is a failure to report.
pub proof fn law_aborted_has_failures(
    s: CopyView,
    t: int,
    fault: Option<(FaultKind, Seq<char>)>,
)
    requires
        s.progress.aborted <==> s.progress.failures.len() > 0,
    ensures
        s.taken().progress == s.progress,
        s.settled(t, fault).progress.aborted <==> s.settled(t, fault).progress.failures.len() > 0,
{
}

/// Whether, unless something failed, the files that came back were counted.
pub closed spec fn counts_fit(s: CopyView) -> bool {
    !s.progress.aborted ==> if s.next <= s.files_at() {
        s.progress.files_done == 0
    } else {
        s.progress.files_done + count_busy(s.open) == s.next - s.files_at()
    }
}

/// The files are counted one by one.
pub proof fn law_copy_counts(s: CopyView, t: int, fault: Option<(FaultKind, Seq<char>)>)
    requires
        s.sound(),
        s.end() <= usize::MAX,
        counts_fit(s),
    ensures
        counts_fit(s.taken()),
        counts_fit(s.settled(t, fault)),
        s.finished() && !s.progress.aborted ==> s.progress.files_done == s.plan.files.len(),
{
    lemma_count_busy(s.open);
    law_every_file_has_a_ticket(s.plan.files);
    if s.can_take() {
        assert(!s.open[s.next as int]);
        lemma_count_busy_update(s.open, s.next as int);
    }
    if 0 <= t < s.open.len() && s.open[t] {
        lemma_count_busy_update(s.open, t);
    }
}

/// At the beginning the books are in order, nothing is there and nothing is
/// counted.
pub proof fn law_copy_begins(src: PathView, dst: PathView, plan: PlanView)
    ensures
        all_made(CopyView::start(src, dst, plan, ProgressView::empty()), Set::empty()),
        CopyView::start(src, dst, plan, ProgressView::empty()).sound(),
        counts_fit(CopyView::start(src, dst, plan, ProgressView::empty())),
{
}

/// The bytes of what names the place that a tree is copied to at first.
pub open spec fn partial_name(style: Style, name: Option<Seq<u8>>, pid: u32) -> Seq<u8> {
    let text = match name {
        Some(n) => shown(style, n),
        None => "target"@,
    };
    vstd::utf8::encode_utf8("."@ + text + ".cshl-partial-"@ + dec(pid as int))
}

/// The place that a tree is copied to at first.
pub open spec fn partial(target: PathView, pid: u32) -> PathView {
    let dir = match target.parent() {
        Some(p) => p,
        None => PathView {
            style: target.style,
            prefix: None,
            rooted: false,
            parts: seq![crate::path::dot()],
        },
    };
    dir.child(partial_name(target.style, target.file_name(), pid))
}

/// The place that a tree is copied to at first: beside the target, so that
/// moving it there is one rename, and named by the process.
pub fn partial_path(target: &PathBuf, pid: u32) -> (r: PathBuf)
    ensures
        r@ == partial(target@, pid),
        r@ != target@,
{
    let mut dir = match target.parent() {
        Some(p) => p,
        None => {
            let mut d = PathBuf::new(target.style);
            let mut one: Vec<u8> = Vec::new();
            one.push(46);
            d.push(one);
            assert(d@.parts =~= seq![crate::path::dot()]);
            d
        },
    };
    let mut name = match target.file_name() {
        Some(n) => {
            let text = show_bytes(target.style, &n);
            proof {
                lemma_partial_is_not_target(n@, pid, text@);
            }
            cat(".", text.as_str())
        },
        None => {
            proof {
                lemma_partial_is_not_target(Seq::empty(), pid, "target"@);
            }
            cat(".", "target")
        },
    };
    name.append(".cshl-partial-");
    name.append(show(pid as u64).as_str());
    dir.push(copy_bytes(name.as_str().as_bytes()));
    assert(dir@.parts.last() == partial_name(target@.style, target@.file_name(), pid));
    dir
}

/// The name of the place is text, and longer than what it is made of, so that it is
/// never the name that it is made of.
proof fn lemma_partial_is_not_target(name: Seq<u8>, pid: u32, text: Seq<char>)
    requires
        name.len() > 0 && vstd::utf8::valid_utf8(name) ==> text == vstd::utf8::decode_utf8(name),
    ensures
        vstd::utf8::encode_utf8("."@ + text + ".cshl-partial-"@ + dec(pid as int)) != name,
        vstd::utf8::encode_utf8("."@ + text + ".cshl-partial-"@ + dec(pid as int)).len() > 2,
{
    let tail = ".cshl-partial-"@ + dec(pid as int);
    let whole = "."@ + text + ".cshl-partial-"@ + dec(pid as int);
    assert(whole =~= "."@ + (text + tail));
    vstd::utf8::encode_utf8_valid_utf8(whole);
    lemma_encode_concat("."@, text + tail);
    lemma_encode_concat(text, tail);
    lemma_encode_concat(".cshl-partial-"@, dec(pid as int));
    lemma_encode_long(".cshl-partial-"@);
    reveal_strlit(".cshl-partial-");
    reveal_strlit(".");
    assert("."@.drop_first() =~= Seq::<char>::empty());
    assert(vstd::utf8::encode_utf8("."@).len() >= 1);
    if name.len() > 0 && vstd::utf8::valid_utf8(name) {
        vstd::utf8::decode_utf8_encode_utf8(name);
    }
}

/// The place that a tree is copied to at first is beside the target.
pub proof fn law_partial_is_sibling(target: PathView, pid: u32)
    requires
        target.parent() is Some,
    ensures
        partial(target, pid).parent() == target.parent(),
{
    let p = partial(target, pid);
    assert(p.parts.drop_last() =~= target.parent()->0.parts);
}

proof fn lemma_told_last(a: Seq<char>, text: Seq<char>)
    ensures
        holds(a + text, text),
        holds(text, text),
{
    lemma_holds_at(text, text, 0);
    lemma_holds_at(a + text, text, a.len() as int);
}

proof fn lemma_both_told(
    a: Seq<char>,
    why: Seq<char>,
    b: Seq<char>,
    text: Seq<char>,
    c: Seq<char>,
)
    ensures
        holds(a + why + b + text + c, why),
        holds(a + why + b + text + c, text),
{
    lemma_holds_at(a + why + b + text + c, why, a.len() as int);
    lemma_holds_at(a + why + b + text + c, text, (a.len() + why.len() + b.len()) as int);
}

/// Copying is called off just where something failed that cannot be done without: a
/// directory that is there already is as good as made, and a further name that cannot be
/// made is copied instead. What failed is told, with its place and why, and nothing else
/// is. What went well is never counted as a failure.
#[verifier::spinoff_prover]
#[verifier::rlimit(40)]
pub proof fn law_copy_stops_for_failures_only(
    s: CopyView,
    t: int,
    fault: Option<(FaultKind, Seq<char>)>,
)
    requires
        s.sound(),
        0 <= t < s.end(),
        s.open[t],
        !s.progress.aborted,
    ensures
        ({
            let next = s.settled(t, fault);
            let forgiven = fault is None || (t < s.links_at() && (fault->0).0
                == FaultKind::AlreadyExists) || (t >= s.names_at() && s.retry is None);
            &&& next.progress.aborted <==> !forgiven
            &&& forgiven ==> next.progress.failures == s.progress.failures
            &&& !forgiven ==> next.progress.failures.len() == s.progress.failures.len() + 1
                && next.progress.failures.drop_last() == s.progress.failures && ({
                let f = next.progress.failures.last();
                &&& holds(f.error, (fault->0).1)
                &&& s.retry matches Some(why) ==> t >= s.names_at() ==> holds(f.error, why)
                &&& f.is_dir <==> t < s.links_at()
                &&& t < s.links_at() ==> f.path == s.dst.join(s.plan.dirs[t])
                &&& s.links_at() <= t < s.files_at() ==> f.path == s.dst.join(
                    s.plan.symlinks[t - s.links_at()].rel,
                )
                &&& t >= s.files_at() ==> f.path == s.src.join(s.plan.files[s.file(t)].rel)
            })
            &&& t >= s.names_at() && s.retry is None && fault is Some ==> next.next == t
                && next.retry == Some((fault->0).1)
            &&& !(t >= s.names_at() && s.retry is None && fault is Some) ==> next.next == s.next
                && (t >= s.names_at() ==> next.retry is None)
            &&& next.open == s.open.update(t, false)
        }),
{
    let next = s.settled(t, fault);
    if let Some((kind, text)) = fault {
        lemma_told_last("重建符号链接失败: "@, text);
        if let Some(why) = s.retry {
            lemma_both_told(
                "建硬链接失败("@,
                why,
                ")，退化复制也失败("@,
                text,
                ")"@,
            );
        }
        if next.progress.aborted {
            assert(next.progress.failures.drop_last() =~= s.progress.failures);
        }
    }
}

/// What is counted of a file that is there: one file, and its bytes just where they were
/// copied. Directories and links are not counted.
pub proof fn law_copy_counts_what_is_there(s: CopyView, t: int)
    requires
        s.sound(),
        0 <= t < s.end(),
        s.open[t],
    ensures
        ({
            let next = s.settled(t, None).progress;
            let size = s.plan.files[s.file(t)].size;
            let was = s.progress;
            &&& t < s.files_at() ==> next == was
            &&& t >= s.files_at() && was.files_done < usize::MAX ==> next.files_done
                == was.files_done + 1
            &&& (s.files_at() <= t < s.names_at() || (t >= s.names_at() && s.retry is Some))
                && was.bytes_done + size <= u64::MAX ==> next.bytes_done == was.bytes_done + size
            &&& t >= s.names_at() && s.retry is None ==> next.bytes_done == was.bytes_done
        }),
{
}

/// Copying goes on until it is finished: as long as nothing failed and something is left,
/// something is being worked on or can be handed out. Once something failed, nothing more
/// is handed out. What is handed out is the next ticket, and only that.
pub proof fn law_copy_is_never_stuck(s: CopyView)
    requires
        s.sound(),
    ensures
        s.finished() || s.can_take() || exists|t: int| 0 <= t < s.end() && #[trigger] s.open[t],
        s.progress.aborted ==> s.taken() == s,
        s.can_take() ==> s.taken().next == s.next + 1 && s.taken().open[s.next as int] && (forall|
            t: int,
        |
            0 <= t < s.end() && t != s.next ==> #[trigger] s.taken().open[t] == s.open[t]),
        s.taken().progress == s.progress && s.taken().retry == s.retry,
{
    if !s.idle() {
        let t = choose|t: int| 0 <= t < s.open.len() && #[trigger] s.open[t];
        assert(0 <= t < s.end() && s.open[t]);
    }
}

/// What a ticket is for: what it makes is at the destination, where the plan has it, and a
/// file is copied from where it is at the source, with the size that it was found to have.
pub proof fn law_tickets_are_for(s: CopyView, t: int)
    requires
        0 <= t < s.end(),
    ensures
        t < s.links_at() ==> s.task(t) == (TaskView::MakeDir { path: s.dst.join(s.plan.dirs[t]) }),
        s.links_at() <= t < s.files_at() ==> (s.task(t) matches TaskView::MakeLink { target, path }
            && target == s.plan.symlinks[t - s.links_at()].target && path == s.dst.join(
            s.plan.symlinks[t - s.links_at()].rel,
        )),
        t >= s.files_at() ==> match s.task(t) {
            TaskView::CopyFile { from, to, size } => {
                let f = s.plan.files[s.file(t)];
                from == s.src.join(f.rel) && to == s.dst.join(f.rel) && size == f.size && (t
                    < s.names_at() || s.retry is Some)
            },
            TaskView::HardLink { existing, link } => t >= s.names_at() && s.retry is None && link
                == s.dst.join(s.plan.files[s.file(t)].rel) && existing == s.dst.join(
                s.plan.files[leader(s.plan.files, s.file(t))].rel,
            ),
            _ => false,
        },
{
}

/// Two processes never copy to one place at first.
pub proof fn law_partial_is_of_one_process(target: PathView, a: u32, b: u32)
    requires
        a != b,
    ensures
        partial(target, a) != partial(target, b),
{
    let text = match target.file_name() {
        Some(n) => shown(target.style, n),
        None => "target"@,
    };
    let head = "."@ + text + ".cshl-partial-"@;
    crate::text::law_dec_differs(head, a as int, b as int, Seq::empty());
    assert(head + dec(a as int) + Seq::<char>::empty() =~= head + dec(a as int));
    assert(head + dec(b as int) + Seq::<char>::empty() =~= head + dec(b as int));
    assert(partial(target, a).parts.last() == partial_name(target.style, target.file_name(), a));
    assert(partial(target, b).parts.last() == partial_name(target.style, target.file_name(), b));
}

} // verus!
