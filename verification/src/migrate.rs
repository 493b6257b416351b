//! Moving a directory and leaving a link.
//!
//! A move on one volume is one rename. Whether it is one is found out by trying:
//! only where the rename fails because of that is the data transferred.
//!
//! The ledger says that a move is in flight before anything is touched, and that
//! it is done when the link is there. Where a move fails with its source as it
//! was, the ledger forgets it, and the directories that were made for the target
//! are removed again.

use vstd::prelude::*;

use crate::cli::LinkType;
use crate::cli::MoveArgs;
use crate::error::Error;
use crate::error::ErrorView;
use crate::error::FaultView;
use crate::error::IoFault;
use crate::job::missing;
use crate::job::missing_parents;
use crate::job::Job;
use crate::job::JobView;
use crate::job::PlaceState;
use crate::ledger::opt_error;
use crate::ledger::opt_path;
use crate::ledger::Completion;
use crate::ledger::CompletionView;
use crate::ledger::Entry;
use crate::ledger::EntryView;
use crate::ledger::State;
use crate::link::kind_view;
use crate::link::LinkView;
use crate::path::PathBuf;
use crate::path::PathView;
use crate::path::is_above;
use crate::plan::path_views;
use crate::platform::crosses;
use crate::platform::is_cross_device;
use crate::platform::opt_fault;
use crate::platform::unix::Errnos;
use crate::platform::LinkKind;
use crate::platform::System;
use crate::safety::canonical;
use crate::safety::canonical_or_self;
use crate::safety::check_source;
use crate::safety::enforce;
use crate::safety::enforced;
use crate::safety::verdict;
use crate::text::cat;
use crate::text::dec;
use crate::text::holds;
use crate::text::show_size;
use crate::transfer::data_safe;
use crate::transfer::landed;
use crate::transfer::moved_by;
use crate::transfer::renamed;
use crate::transfer::transfer;
use crate::transfer::transfer_after;
use crate::transfer::transfer_rank;
use crate::transfer::Outcome;
use crate::transfer::Transfer;
use crate::transfer::TransferAction;
use crate::transfer::TransferActionView;
use crate::transfer::TransferEvent;
use crate::transfer::TransferEventView;
use crate::transfer::TransferState;
use crate::transfer::TransferView;
use crate::transfer::Whereabouts;
use crate::world::bare;
use crate::world::is_split;
use crate::world::Contents;

verus! {

/// How many threads copy by default: copying waits for disks more than it
/// computes, so more than there are cores, up to 32.
pub open spec fn copy_threads(cores: int) -> int {
    if cores * 4 < 32 {
        cores * 4
    } else {
        32
    }
}

/// How many threads copy by default.
pub fn default_copy_threads(cores: usize) -> (r: usize)
    ensures
        r == copy_threads(cores as int),
{
    if cores < 8 {
        cores * 4
    } else {
        32
    }
}

/// How many threads remove by default: as many as there are cores, but never more than
/// may copy.
pub open spec fn remove_threads(cores: int) -> int {
    if cores < 32 {
        cores
    } else {
        32
    }
}

/// How many threads remove by default.
pub fn default_remove_threads(cores: usize) -> (r: usize)
    ensures
        r == remove_threads(cores as int),
{
    if cores < 32 {
        cores
    } else {
        32
    }
}

/// How many cores there are, or four where that is not known.
pub fn logical_cores(found: Option<usize>) -> (r: usize)
    ensures
        r == match found {
            Some(n) => n,
            None => 4,
        },
{
    match found {
        Some(n) => n,
        None => 4,
    }
}

/// How many threads a move uses.
#[derive(Debug, Clone, Copy, PartialEq, Eq, Structural)]
pub struct Threads {
    pub copy: usize,
    pub remove: usize,
    /// Whether the user said so.
    pub explicit: bool,
}

impl Threads {
    /// How many threads a move uses: as many as were asked for, or by the cores.
    pub fn resolve(asked: Option<usize>, cores: usize) -> (r: Threads)
        ensures
            r == match asked {
                Some(n) => Threads { copy: n, remove: n, explicit: true },
                None => Threads {
                    copy: copy_threads(cores as int) as usize,
                    remove: remove_threads(cores as int) as usize,
                    explicit: false,
                },
            },
    {
        match asked {
            Some(n) => Threads { copy: n, remove: n, explicit: true },
            None => Threads {
                copy: default_copy_threads(cores),
                remove: default_remove_threads(cores),
                explicit: false,
            },
        }
    }

    /// How that is shown.
    pub open spec fn shown(self) -> Seq<char> {
        "复制 "@ + dec(self.copy as int) + "，删除 "@ + dec(self.remove as int) + "（"@ + (
        if self.explicit {
            "-t 指定"@
        } else {
            "按本机逻辑核数自动选择"@
        }) + "）"@
    }

    /// How that is shown.
    pub fn describe(&self) -> (r: String)
        ensures
            r@ == self.shown(),
    {
        let mut s = cat("复制 ", show_size(self.copy).as_str());
        s.append("，删除 ");
        s.append(show_size(self.remove).as_str());
        s.append("（");
        s.append(
            if self.explicit {
                "-t 指定"
            } else {
                "按本机逻辑核数自动选择"
            },
        );
        s.append("）");
        s
    }
}

/// With one core or more there is always a thread to copy and one to remove, no more
/// than 32 copy, and never fewer copy than remove, since copying waits for disks more.
pub proof fn law_threads(cores: usize)
    requires
        cores >= 1,
    ensures
        1 <= copy_threads(cores as int) <= 32,
        1 <= remove_threads(cores as int) <= copy_threads(cores as int),
{
}

/// How far a move has got. Each state says what is to be done next.
#[derive(Debug, PartialEq, Eq)]
pub enum MoveState {
    /// Remove the empty directory at the target.
    Clear,
    /// Make the first of these directories.
    Parents,
    /// Enter the move into the ledger.
    Begin,
    /// Try to rename.
    Rename,
    /// Transfer the data.
    Transfer(Transfer),
    /// Leave a link.
    Link(Outcome),
    /// Mark the move as done in the ledger.
    Complete(Outcome, Option<LinkKind>),
    /// Take the move out of the ledger.
    Forget(Error),
    /// Remove the last of the directories that were made.
    Unmake(Error),
    Over(Result<(Outcome, Option<LinkKind>), Error>),
}

/// The contents of a [`MoveState`].
pub enum MoveView {
    Clear,
    Parents,
    Begin,
    Rename,
    Transfer(TransferView),
    Link(Outcome),
    Complete(Outcome, Option<LinkKind>),
    Forget(ErrorView),
    Unmake(ErrorView),
    Over(Result<(Outcome, Option<LinkKind>), ErrorView>),
}

impl View for MoveState {
    type V = MoveView;

    open spec fn view(&self) -> MoveView {
        match *self {
            MoveState::Clear => MoveView::Clear,
            MoveState::Parents => MoveView::Parents,
            MoveState::Begin => MoveView::Begin,
            MoveState::Rename => MoveView::Rename,
            MoveState::Transfer(t) => MoveView::Transfer(t.state@),
            MoveState::Link(o) => MoveView::Link(o),
            MoveState::Complete(o, k) => MoveView::Complete(o, k),
            MoveState::Forget(e) => MoveView::Forget(e@),
            MoveState::Unmake(e) => MoveView::Unmake(e@),
            MoveState::Over(r) => MoveView::Over(
                match r {
                    Ok(x) => Ok(x),
                    Err(e) => Err(e@),
                },
            ),
        }
    }
}

/// What came of a step of a move.
#[derive(Debug, PartialEq, Eq)]
pub enum MoveEvent {
    Tried(Option<IoFault>),
    /// The ledger was changed, or could not be.
    Entered(Option<Error>),
    Transferred(TransferEvent),
    /// A link was made, or could not be.
    Linked(Result<LinkKind, IoFault>),
}

/// The contents of a [`MoveEvent`].
pub enum MoveEventView {
    Tried(Option<FaultView>),
    Entered(Option<ErrorView>),
    Transferred(TransferEventView),
    Linked(Result<LinkKind, FaultView>),
}

impl View for MoveEvent {
    type V = MoveEventView;

    open spec fn view(&self) -> MoveEventView {
        match *self {
            MoveEvent::Tried(f) => MoveEventView::Tried(opt_fault(f)),
            MoveEvent::Entered(e) => MoveEventView::Entered(opt_error(e)),
            MoveEvent::Transferred(t) => MoveEventView::Transferred(t@),
            MoveEvent::Linked(r) => MoveEventView::Linked(kind_view(r)),
        }
    }
}

/// What does not change in the course of a move.
#[derive(Debug, PartialEq, Eq)]
pub struct MoveOrder {
    pub job: Job,
    pub no_link: bool,
    pub link_type: LinkType,
    pub moved_at: String,
    pub pid: u32,
    pub system: System,
    pub numbers: Errnos,
}

/// A move.
#[derive(Debug, PartialEq, Eq)]
pub struct Migration {
    pub order: MoveOrder,
    /// The directories to make for the target, from shallow to deep.
    pub parents: Vec<PathBuf>,
    /// How many of them are there because they were made.
    pub made: usize,
    pub state: MoveState,
}

/// How far a move has got.
pub struct MigrationView {
    pub parents: Seq<PathView>,
    pub made: nat,
    pub state: MoveView,
}

impl View for Migration {
    type V = MigrationView;

    open spec fn view(&self) -> MigrationView {
        MigrationView {
            parents: path_views(self.parents@),
            made: self.made as nat,
            state: self.state@,
        }
    }
}

/// The error that a step behind the landing of the data failed.
pub open spec fn incomplete(path: PathView, reason: Seq<char>) -> ErrorView {
    ErrorView::Incomplete { path, reason }
}

/// The state in which the move is entered, or the next directory made first.
pub open spec fn making(parents: Seq<PathView>, made: nat) -> MoveView {
    if made < parents.len() {
        MoveView::Parents
    } else {
        MoveView::Begin
    }
}

/// The state in which a move ends with an error, once what was made is removed.
pub open spec fn unmaking(made: nat, e: ErrorView) -> MoveView {
    if made > 0 {
        MoveView::Unmake(e)
    } else {
        MoveView::Over(Err(e))
    }
}

/// The state once the data is at the target.
pub open spec fn linking(no_link: bool, o: Outcome) -> MoveView {
    if no_link {
        MoveView::Complete(o, None)
    } else {
        MoveView::Link(o)
    }
}

/// The state of a move once its transfer is in the state `t`.
pub open spec fn transferring(no_link: bool, t: TransferView) -> MoveView {
    match t {
        TransferView::Over(Ok(o)) => linking(no_link, o),
        TransferView::Over(Err(e)) => if landed(e) {
            MoveView::Over(Err(e))
        } else {
            MoveView::Forget(e)
        },
        _ => MoveView::Transfer(t),
    }
}

/// What is the same all through a move, as far as its course depends on it.
pub struct MoveOrderView {
    pub source: PathView,
    pub real_source: PathView,
    pub target: PathView,
    pub tmp: PathView,
    /// What the ledger is to say while the move is in flight.
    pub entry: EntryView,
    pub no_link: bool,
    pub system: System,
    pub numbers: Errnos,
}

impl MoveOrder {
    /// What is the same all through a move, as far as its course depends on it.
    pub open spec fn course(self) -> MoveOrderView {
        MoveOrderView {
            source: self.job.source@,
            real_source: self.job.real_source@,
            target: self.job.target@,
            tmp: crate::copy::partial(self.job.target@, self.pid),
            entry: first_entry(self.job@, self.moved_at@),
            no_link: self.no_link,
            system: self.system,
            numbers: self.numbers,
        }
    }
}

/// How far a move has got once `event` came. One that does not fit is ignored.
pub open spec fn move_after(o: MoveOrderView, m: MigrationView, event: MoveEventView) -> MigrationView {
    match (m.state, event) {
        (MoveView::Clear, MoveEventView::Tried(f)) => match f {
            None => MigrationView { state: making(m.parents, m.made), ..m },
            Some(e) => MigrationView {
                state: MoveView::Over(Err(ErrorView::Io { path: Some(o.target), source: e })),
                ..m
            },
        },
        (MoveView::Parents, MoveEventView::Tried(f)) => match f {
            None => MigrationView {
                made: m.made + 1,
                state: making(m.parents, m.made + 1),
                ..m
            },
            Some(e) => MigrationView {
                state: unmaking(
                    m.made,
                    ErrorView::Io { path: Some(m.parents[m.made as int]), source: e },
                ),
                ..m
            },
        },
        (MoveView::Begin, MoveEventView::Entered(x)) => match x {
            None => MigrationView { state: MoveView::Rename, ..m },
            Some(e) => MigrationView { state: unmaking(m.made, e), ..m },
        },
        (MoveView::Rename, MoveEventView::Tried(f)) => match f {
            None => MigrationView { state: linking(o.no_link, renamed()), ..m },
            Some(e) => if crosses(o.system, o.numbers, e.code) {
                MigrationView { state: MoveView::Transfer(TransferView::Scan), ..m }
            } else {
                MigrationView {
                    state: MoveView::Forget(
                        ErrorView::Io { path: Some(o.real_source), source: e },
                    ),
                    ..m
                }
            },
        },
        (MoveView::Transfer(t), MoveEventView::Transferred(x)) => MigrationView {
            state: transferring(o.no_link, transfer_after(o.target, o.tmp, t, x)),
            ..m
        },
        (MoveView::Link(outcome), MoveEventView::Linked(r)) => match r {
            Ok(kind) => MigrationView { state: MoveView::Complete(outcome, Some(kind)), ..m },
            Err(e) => MigrationView {
                state: MoveView::Over(Err(incomplete(o.source, "建链接失败: "@ + e.text))),
                ..m
            },
        },
        (MoveView::Complete(outcome, kind), MoveEventView::Entered(x)) => match x {
            None => MigrationView { state: MoveView::Over(Ok((outcome, kind))), ..m },
            Some(e) => MigrationView {
                state: MoveView::Over(Err(incomplete(o.source, e.message()))),
                ..m
            },
        },
        (MoveView::Forget(e), MoveEventView::Entered(_)) => MigrationView {
            state: unmaking(m.made, e),
            ..m
        },
        (MoveView::Unmake(e), MoveEventView::Tried(f)) => if f is None && m.made > 1 {
            MigrationView { made: (m.made - 1) as nat, ..m }
        } else {
            MigrationView {
                made: if f is None && m.made > 0 {
                    (m.made - 1) as nat
                } else {
                    m.made
                },
                state: MoveView::Over(Err(e)),
                ..m
            }
        },
        _ => m,
    }
}

/// One thing to do in a move.
#[derive(Debug, PartialEq, Eq)]
pub enum MoveAction {
    RemoveDir { at: PathBuf },
    MakeDir { at: PathBuf },
    /// Enter a move into the ledger.
    Begin { entry: Entry },
    /// Take a move out of the ledger.
    Forget { source: PathBuf },
    /// Mark a move as done in the ledger.
    Complete { source: PathBuf, done: Completion },
    /// Rename, but never over what is there.
    Rename { from: PathBuf, to: PathBuf },
    Transfer(TransferAction),
    /// Make a link, or repoint the one that is there.
    Link { repoint: bool, link: PathBuf, target: PathBuf, preferred: LinkType },
}

/// The contents of a [`MoveAction`].
pub enum MoveActionView {
    RemoveDir { at: PathView },
    MakeDir { at: PathView },
    Begin { entry: EntryView },
    Forget { source: PathView },
    Complete { source: PathView, done: CompletionView },
    Rename { from: PathView, to: PathView },
    Transfer(TransferActionView),
    Link { repoint: bool, link: PathView, target: PathView, preferred: LinkType },
}

impl View for MoveAction {
    type V = MoveActionView;

    open spec fn view(&self) -> MoveActionView {
        match *self {
            MoveAction::RemoveDir { at } => MoveActionView::RemoveDir { at: at@ },
            MoveAction::MakeDir { at } => MoveActionView::MakeDir { at: at@ },
            MoveAction::Begin { entry } => MoveActionView::Begin { entry: entry@ },
            MoveAction::Forget { source } => MoveActionView::Forget { source: source@ },
            MoveAction::Complete { source, done } => MoveActionView::Complete {
                source: source@,
                done: done@,
            },
            MoveAction::Rename { from, to } => MoveActionView::Rename { from: from@, to: to@ },
            MoveAction::Transfer(a) => MoveActionView::Transfer(a@),
            MoveAction::Link { repoint, link, target, preferred } => MoveActionView::Link {
                repoint,
                link: link@,
                target: target@,
                preferred,
            },
        }
    }
}

/// The entry that a move begins with.
pub open spec fn first_entry(job: JobView, moved_at: Seq<char>) -> EntryView {
    EntryView {
        source: job.source,
        target: job.target,
        original_real_path: if job.source_was_link is Some {
            Some(job.real_source)
        } else {
            None
        },
        link_kind: ""@,
        state: State::Inflight,
        moved_at,
        bytes: 0,
        files: 0,
        dirs: 0,
        same_volume: false,
    }
}

/// What a move comes to, for its entry.
pub open spec fn completion(o: Outcome, kind: Option<LinkKind>) -> CompletionView {
    CompletionView {
        bytes: o.bytes,
        files: o.files,
        dirs: o.dirs,
        same_volume: o.same_volume,
        link_kind: match kind {
            Some(k) => k.name(),
            None => "none"@,
        },
    }
}

impl Migration {
    /// That the books fit.
    pub open spec fn wf(self) -> bool {
        &&& self.made <= self.parents.len()
        &&& self.state is Parents ==> self.made < self.parents.len()
        &&& self.state is Unmake ==> self.made > 0
        &&& self.state matches MoveState::Transfer(t) ==> t.from@ == self.order.job.real_source@
            && t.to@ == self.order.job.target@ && t.tmp@ == self.order.course().tmp && !(
        t.state is Over)
    }

    /// What is to be done next.
    pub open spec fn wants(self) -> Option<MoveActionView> {
        let job = self.order.job@;
        match self.state {
            MoveState::Clear => Some(MoveActionView::RemoveDir { at: job.target }),
            MoveState::Parents => Some(
                MoveActionView::MakeDir { at: self@.parents[self.made as int] },
            ),
            MoveState::Begin => Some(
                MoveActionView::Begin { entry: first_entry(job, self.order.moved_at@) },
            ),
            MoveState::Rename => Some(
                MoveActionView::Rename { from: job.real_source, to: job.target },
            ),
            MoveState::Transfer(t) => match t.wants() {
                Some(a) => Some(MoveActionView::Transfer(a)),
                None => None,
            },
            MoveState::Link(_) => Some(
                MoveActionView::Link {
                    repoint: job.source_was_link is Some,
                    link: job.source,
                    target: job.target,
                    preferred: self.order.link_type,
                },
            ),
            MoveState::Complete(o, kind) => Some(
                MoveActionView::Complete { source: job.source, done: completion(o, kind) },
            ),
            MoveState::Forget(_) => Some(MoveActionView::Forget { source: job.source }),
            MoveState::Unmake(_) => Some(
                MoveActionView::RemoveDir { at: self@.parents[self.made - 1] },
            ),
            MoveState::Over(_) => None,
        }
    }

    /// What is to be done next.
    pub fn action(&self) -> (r: Option<MoveAction>)
        requires
            self.wf(),
        ensures
            match r {
                Some(a) => self.wants() == Some(a@),
                None => self.wants() is None,
            },
    {
        let job = &self.order.job;
        match &self.state {
            MoveState::Clear => Some(MoveAction::RemoveDir { at: job.target.clone() }),
            MoveState::Parents => Some(MoveAction::MakeDir { at: self.parents[self.made].clone() }),
            MoveState::Begin => {
                let original_real_path = match job.source_was_link {
                    Some(_) => Some(job.real_source.clone()),
                    None => None,
                };
                Some(
                    MoveAction::Begin {
                        entry: Entry {
                            source: job.source.clone(),
                            target: job.target.clone(),
                            original_real_path,
                            link_kind: "".to_owned(),
                            state: State::Inflight,
                            moved_at: self.order.moved_at.clone(),
                            bytes: 0,
                            files: 0,
                            dirs: 0,
                            same_volume: false,
                        },
                    },
                )
            },
            MoveState::Rename => Some(
                MoveAction::Rename { from: job.real_source.clone(), to: job.target.clone() },
            ),
            MoveState::Transfer(t) => match t.action() {
                Some(a) => Some(MoveAction::Transfer(a)),
                None => None,
            },
            MoveState::Link(_) => Some(
                MoveAction::Link {
                    repoint: job.source_was_link.is_some(),
                    link: job.source.clone(),
                    target: job.target.clone(),
                    preferred: self.order.link_type,
                },
            ),
            MoveState::Complete(o, kind) => {
                let link_kind = match kind {
                    Some(k) => k.to_string(),
                    None => "none".to_owned(),
                };
                Some(
                    MoveAction::Complete {
                        source: job.source.clone(),
                        done: Completion {
                            bytes: o.bytes,
                            files: o.files,
                            dirs: o.dirs,
                            same_volume: o.same_volume,
                            link_kind,
                        },
                    },
                )
            },
            MoveState::Forget(_) => Some(MoveAction::Forget { source: job.source.clone() }),
            MoveState::Unmake(_) => Some(
                MoveAction::RemoveDir { at: self.parents[self.made - 1].clone() },
            ),
            MoveState::Over(_) => None,
        }
    }

    /// Goes on once what was to be done was tried.
    pub fn step(self, event: MoveEvent) -> (r: Migration)
        requires
            self.wf(),
        ensures
            r.wf(),
            r.order == self.order,
            r.parents == self.parents,
            r@ == move_after(self.order.course(), self@, event@),
    {
        let ghost before = self;
        let Migration { order, parents, made, state } = self;
        let mut made: usize = made;
        let state = match (state, event) {
            (MoveState::Clear, MoveEvent::Tried(f)) => match f {
                None => {
                    if made < parents.len() {
                        MoveState::Parents
                    } else {
                        MoveState::Begin
                    }
                },
                Some(e) => MoveState::Over(Err(Error::io(order.job.target.clone(), e))),
            },
            (MoveState::Parents, MoveEvent::Tried(f)) => match f {
                None => {
                    made = made + 1;
                    if made < parents.len() {
                        MoveState::Parents
                    } else {
                        MoveState::Begin
                    }
                },
                Some(e) => {
                    let e = Error::io(parents[made].clone(), e);
                    if made > 0 {
                        MoveState::Unmake(e)
                    } else {
                        MoveState::Over(Err(e))
                    }
                },
            },
            (MoveState::Begin, MoveEvent::Entered(x)) => match x {
                None => MoveState::Rename,
                Some(e) => {
                    if made > 0 {
                        MoveState::Unmake(e)
                    } else {
                        MoveState::Over(Err(e))
                    }
                },
            },
            (MoveState::Rename, MoveEvent::Tried(f)) => match f {
                None => {
                    let o = Outcome { same_volume: true, bytes: 0, files: 0, dirs: 0 };
                    if order.no_link {
                        MoveState::Complete(o, None)
                    } else {
                        MoveState::Link(o)
                    }
                },
                Some(e) => {
                    if is_cross_device(order.system, &order.numbers, &e) {
                        MoveState::Transfer(
                            transfer(
                                order.job.real_source.clone(),
                                order.job.target.clone(),
                                order.pid,
                            ),
                        )
                    } else {
                        MoveState::Forget(Error::io(order.job.real_source.clone(), e))
                    }
                },
            },
            (MoveState::Transfer(t), MoveEvent::Transferred(x)) => {
                let t = t.step(x);
                match t.state {
                    TransferState::Over(Ok(o)) => {
                        if order.no_link {
                            MoveState::Complete(o, None)
                        } else {
                            MoveState::Link(o)
                        }
                    },
                    TransferState::Over(Err(e)) => {
                        if e.exit_code() == 3 {
                            MoveState::Over(Err(e))
                        } else {
                            MoveState::Forget(e)
                        }
                    },
                    _ => MoveState::Transfer(t),
                }
            },
            (MoveState::Link(o), MoveEvent::Linked(r)) => match r {
                Ok(kind) => MoveState::Complete(o, Some(kind)),
                Err(e) => MoveState::Over(
                    Err(
                        Error::Incomplete {
                            path: order.job.source.clone(),
                            reason: cat("建链接失败: ", e.text.as_str()),
                        },
                    ),
                ),
            },
            (MoveState::Complete(o, kind), MoveEvent::Entered(x)) => match x {
                None => MoveState::Over(Ok((o, kind))),
                Some(e) => MoveState::Over(
                    Err(
                        Error::Incomplete {
                            path: order.job.source.clone(),
                            reason: e.to_string(),
                        },
                    ),
                ),
            },
            (MoveState::Forget(e), MoveEvent::Entered(_)) => {
                if made > 0 {
                    MoveState::Unmake(e)
                } else {
                    MoveState::Over(Err(e))
                }
            },
            (MoveState::Unmake(e), MoveEvent::Tried(f)) => {
                if f.is_none() && made > 1 {
                    made = made - 1;
                    MoveState::Unmake(e)
                } else {
                    if f.is_none() && made > 0 {
                        made = made - 1;
                    }
                    MoveState::Over(Err(e))
                }
            },
            (state, _) => state,
        };
        let r = Migration { order, parents, made, state };
        assert(r@ == move_after(before.order.course(), before@, event@));
        r
    }
}

/// What a move begins with: a preview, where only that is asked for, or the move.
#[derive(Debug, PartialEq, Eq)]
pub enum Start {
    Preview(Job),
    Go(Migration),
}

/// The state in which a move begins.
pub open spec fn first_state(clear: bool, parents: Seq<PathView>) -> MoveView {
    if clear {
        MoveView::Clear
    } else {
        making(parents, 0)
    }
}

/// The contents of a [`Start`], as far as they do not depend on the order alone.
pub enum StartView {
    Preview,
    Go { parents: Seq<PathView>, state: MoveView },
}

/// What a move from `source`, which is really `at`, begins with, or why it is refused.
pub open spec fn started(
    force: bool,
    dry_run: bool,
    source: PathView,
    at: PathView,
    target: PathView,
    clear: bool,
    home: Option<PathView>,
    cwd: Option<PathView>,
    places: Seq<PlaceState>,
) -> Result<(Option<Seq<char>>, StartView), ErrorView> {
    match enforced(source, verdict(at, home, cwd), force) {
        Err(e) => Err(e),
        Ok(warning) => if dry_run {
            Ok((warning, StartView::Preview))
        } else {
            match missing(target, places) {
                Err(e) => Err(e),
                Ok(parents) => Ok(
                    (warning, StartView::Go { parents, state: first_state(clear, parents) }),
                ),
            }
        },
    }
}

/// The contents of what a move begins with.
pub open spec fn start_view(r: Result<(Option<String>, Start), Error>) -> Result<
    (Option<Seq<char>>, StartView),
    ErrorView,
> {
    match r {
        Ok((w, start)) => Ok(
            (
                match w {
                    Some(w) => Some(w@),
                    None => None,
                },
                match start {
                    Start::Preview(_) => StartView::Preview,
                    Start::Go(m) => StartView::Go { parents: m@.parents, state: m@.state },
                },
            ),
        ),
        Err(e) => Err(e@),
    }
}

/// Begins a move, where the source is not refused, and gives the warning to show
/// where it was forced. `clear` says that an empty directory is at the target, `found` what
/// the system found the real source to be, `home` and `cwd` what the home directory and the
/// working directory really are, and `places` what is at the parent of the target and at
/// each place above it.
///
/// Where only a preview is asked for, nothing that would be done is begun.
pub fn run_move(
    args: &MoveArgs,
    job: Job,
    clear: bool,
    found: &Option<PathBuf>,
    home: &Option<PathBuf>,
    cwd: &Option<PathBuf>,
    places: &Vec<PlaceState>,
    moved_at: String,
    pid: u32,
    system: System,
    numbers: Errnos,
) -> (r: Result<(Option<String>, Start), Error>)
    requires
        job.target@.parent() matches Some(p) ==> places.len() == p.parts.len() + 1,
    ensures
        match enforced(
            job.real_source@,
            verdict(
                canonical(job.real_source@, opt_path(*found)),
                opt_path(*home),
                opt_path(*cwd),
            ),
            args.force,
        ) {
            Err(e) => r matches Err(x) && x@ == e,
            Ok(warning) => if args.dry_run {
                r matches Ok((w, Start::Preview(j))) && j == job && crate::safety::enforced_view(
                    Ok(w),
                ) == Ok::<Option<Seq<char>>, ErrorView>(warning)
            } else {
                match missing(job.target@, places@) {
                    Err(e) => r matches Err(x) && x@ == e,
                    Ok(p) => {
                        &&& r matches Ok((w, Start::Go(m)))
                        &&& crate::safety::enforced_view(Ok(w)) == Ok::<
                            Option<Seq<char>>,
                            ErrorView,
                        >(warning)
                        &&& m.wf()
                        &&& m.order == (MoveOrder {
                            job,
                            no_link: args.no_link,
                            link_type: args.link_type,
                            moved_at,
                            pid,
                            system,
                            numbers,
                        })
                        &&& path_views(m.parents@) == p
                        &&& m.made == 0
                        &&& m.state@ == first_state(clear, p)
                    },
                }
            },
        },
        start_view(r) == started(
            args.force,
            args.dry_run,
            job.real_source@,
            canonical(job.real_source@, opt_path(*found)),
            job.target@,
            clear,
            opt_path(*home),
            opt_path(*cwd),
            places@,
        ),
        r matches Ok((_, Start::Preview(j))) ==> j == job,
        r matches Ok((_, Start::Go(m))) ==> m.order.job == job && m.made == 0,
{
    let resolved = canonical_or_self(&job.real_source, found);
    let warning = match enforce(
        &job.real_source,
        check_source(&resolved, home, cwd),
        args.force,
    ) {
        Ok(w) => w,
        Err(e) => {
            return Err(e);
        },
    };
    if args.dry_run {
        return Ok((warning, Start::Preview(job)));
    }
    let parents = match missing_parents(&job.target, places) {
        Ok(p) => p,
        Err(e) => {
            return Err(e);
        },
    };
    let state = if clear {
        MoveState::Clear
    } else if parents.len() > 0 {
        MoveState::Parents
    } else {
        MoveState::Begin
    };
    let order = MoveOrder {
        job,
        no_link: args.no_link,
        link_type: args.link_type,
        moved_at,
        pid,
        system,
        numbers,
    };
    Ok((warning, Start::Go(Migration { order, parents, made: 0, state })))
}

/// Whether `after` is where the data may be once what a move asks for was tried.
pub open spec fn data_after(
    w: Whereabouts,
    s: MoveView,
    event: MoveEventView,
    after: Whereabouts,
) -> bool {
    match (s, event) {
        (MoveView::Clear, MoveEventView::Tried(None)) => after == (Whereabouts {
            target: Contents::empty(),
            ..w
        }),
        (MoveView::Rename, MoveEventView::Tried(None)) => after == (Whereabouts {
            source: Contents::empty(),
            target: w.source,
            ..w
        }),
        (MoveView::Transfer(t), MoveEventView::Transferred(x)) => moved_by(w, t, x, after),
        _ => after == w,
    }
}

/// What holds of the data `whole` in a state of a move.
pub open spec fn move_safe(whole: Contents, w: Whereabouts, s: MoveView) -> bool {
    match s {
        MoveView::Transfer(t) => data_safe(whole, w, t),
        MoveView::Link(_) => w.target == whole && w.source == Contents::empty(),
        MoveView::Complete(_, _) => w.target == whole && w.source == Contents::empty(),
        MoveView::Forget(e) => w.source == whole && bare(w.target) && !landed(e),
        MoveView::Unmake(e) => w.source == whole && bare(w.target) && !landed(e),
        MoveView::Over(Ok(_)) => w.target == whole && w.source == Contents::empty(),
        MoveView::Over(Err(e)) => if landed(e) {
            is_split(whole, w.source, w.target)
        } else {
            w.source == whole && bare(w.target)
        },
        _ => w.source == whole && bare(w.target),
    }
}

/// Whether an error that came from the ledger or from scanning is none that says
/// that the data is at the target.
pub open spec fn plain(event: MoveEventView) -> bool {
    match event {
        MoveEventView::Entered(Some(e)) => !landed(e),
        MoveEventView::Transferred(TransferEventView::Scanned(Err(e))) => !landed(e),
        _ => true,
    }
}

/// A move begins with the data at the source, and nothing in the ledger said.
pub proof fn law_move_begins(
    o: MoveOrderView,
    w: Whereabouts,
    e: Option<EntryView>,
    link: Option<LinkView>,
    clear: bool,
    parents: Seq<PathView>,
)
    requires
        bare(w.target),
    ensures
        move_safe(w.source, w, first_state(clear, parents)),
        entry_fits(o, e, first_state(clear, parents)),
        link_fits(o, link, link, first_state(clear, parents)),
{
}

/// All the data is at the source or at the target at every moment of a move, as it was.
/// The process answers with 1 or 2 only where the source is as it was, with 3 only
/// where the data was moved and what is not at the target is still at the source, and
/// with 0 only where all of it is at the target and nothing at the source.
pub proof fn law_move_is_safe(
    o: MoveOrderView,
    whole: Contents,
    w: Whereabouts,
    m: MigrationView,
    event: MoveEventView,
    after: Whereabouts,
)
    requires
        move_safe(whole, w, m.state),
        data_after(w, m.state, event, after),
        plain(event),
    ensures
        w.source == whole || is_split(whole, w.source, w.target),
        move_safe(whole, after, move_after(o, m, event).state),
{
    if let (MoveView::Transfer(t), MoveEventView::Transferred(x)) = (m.state, event) {
        crate::transfer::law_transfer_is_safe(whole, w, o.target, o.tmp, t, x, after);
    }
}

/// What the ledger says of the source in the course of a move.
pub open spec fn entry_after(
    o: MoveOrderView,
    e: Option<EntryView>,
    s: MoveView,
    event: MoveEventView,
) -> Option<EntryView> {
    match (s, event) {
        (MoveView::Begin, MoveEventView::Entered(None)) => Some(o.entry),
        (MoveView::Complete(outcome, kind), MoveEventView::Entered(None)) => match e {
            Some(x) => Some(x.completed(completion(outcome, kind))),
            None => None,
        },
        (MoveView::Forget(_), MoveEventView::Entered(None)) => None,
        _ => e,
    }
}

/// Whether the ledger says what it has to: while the source may be touched, that a
/// move is in flight; when the move went well, that it is done, what it came to and what
/// kind of link was left; when it stopped half way, that it is in flight.
pub open spec fn entry_fits(o: MoveOrderView, e: Option<EntryView>, s: MoveView) -> bool {
    match s {
        MoveView::Rename => e == Some(o.entry),
        MoveView::Transfer(_) => e == Some(o.entry),
        MoveView::Link(_) => e == Some(o.entry),
        MoveView::Complete(_, _) => e == Some(o.entry),
        MoveView::Over(Ok((outcome, kind))) => e == Some(
            o.entry.completed(completion(outcome, kind)),
        ),
        MoveView::Over(Err(x)) => landed(x) ==> e == Some(o.entry),
        _ => true,
    }
}

/// Nothing is touched before the ledger says so, and a move that stopped half way
/// is never forgotten.
pub proof fn law_ledger_comes_first(
    o: MoveOrderView,
    e: Option<EntryView>,
    whole: Contents,
    w: Whereabouts,
    m: MigrationView,
    event: MoveEventView,
)
    requires
        entry_fits(o, e, m.state),
        move_safe(whole, w, m.state),
        plain(event),
    ensures
        entry_fits(o, entry_after(o, e, m.state, event), move_after(o, m, event).state),
{
}

/// Whether `after` is what link may be at the source once what a move asks for was
/// tried. Where a link could not be placed, nothing is said of what is there.
pub open spec fn link_after(
    o: MoveOrderView,
    link: Option<LinkView>,
    s: MoveView,
    event: MoveEventView,
    after: Option<LinkView>,
) -> bool {
    match (s, event) {
        (MoveView::Link(_), MoveEventView::Linked(r)) => r matches Ok(kind) ==> after == Some(
            LinkView { kind, target: o.target },
        ),
        _ => after == link,
    }
}

/// What link there is once a link of this kind was left, where `first` was there.
pub open spec fn left_link(
    o: MoveOrderView,
    first: Option<LinkView>,
    kind: Option<LinkKind>,
) -> Option<LinkView> {
    match kind {
        Some(kind) => Some(LinkView { kind, target: o.target }),
        None => first,
    }
}

/// Whether the link at the source, where `first` was, is what it has to be, and what is
/// said of it fits what was asked for.
pub open spec fn link_fits(
    o: MoveOrderView,
    first: Option<LinkView>,
    link: Option<LinkView>,
    s: MoveView,
) -> bool {
    match s {
        MoveView::Link(_) => !o.no_link && link == first,
        MoveView::Complete(_, kind) => (kind is None <==> o.no_link) && link == left_link(
            o,
            first,
            kind,
        ),
        MoveView::Over(Ok((_, kind))) => (kind is None <==> o.no_link) && link == left_link(
            o,
            first,
            kind,
        ),
        MoveView::Over(Err(e)) => !landed(e) ==> link == first,
        _ => link == first,
    }
}

/// A move that went well left a link that says just where the data is, unless none was
/// asked for: then what link was there is there still. One that failed with the data at
/// the source left the link as it was.
pub proof fn law_link_is_left(
    o: MoveOrderView,
    first: Option<LinkView>,
    link: Option<LinkView>,
    m: MigrationView,
    event: MoveEventView,
    after: Option<LinkView>,
)
    requires
        link_fits(o, first, link, m.state),
        link_after(o, link, m.state, event, after),
    ensures
        link_fits(o, first, after, move_after(o, m, event).state),
{
}

/// How many steps a move takes at most from here.
pub open spec fn move_rank(m: MigrationView) -> int {
    let n = m.parents.len() as int;
    match m.state {
        MoveView::Clear => 2 * n + 16,
        MoveView::Parents => 2 * n + 15 - m.made,
        MoveView::Begin => n + 14,
        MoveView::Rename => n + 13,
        MoveView::Transfer(t) => n + 3 + transfer_rank(t),
        MoveView::Link(_) => 2,
        MoveView::Complete(_, _) => 1,
        MoveView::Forget(_) => n + 2,
        MoveView::Unmake(_) => 1 + m.made as int,
        MoveView::Over(_) => 0,
    }
}

/// Whether an event is one that a state waits for.
pub open spec fn move_fits(s: MoveView, event: MoveEventView) -> bool {
    match s {
        MoveView::Begin => event is Entered,
        MoveView::Transfer(t) => event matches MoveEventView::Transferred(x) && crate::transfer::fits(
            t,
            x,
        ),
        MoveView::Link(_) => event is Linked,
        MoveView::Complete(_, _) => event is Entered,
        MoveView::Forget(_) => event is Entered,
        MoveView::Over(_) => false,
        _ => event is Tried,
    }
}

/// A move ends.
pub proof fn law_move_ends(o: MoveOrderView, m: MigrationView, event: MoveEventView)
    requires
        move_fits(m.state, event),
        m.made <= m.parents.len(),
        m.state is Parents ==> m.made < m.parents.len(),
    ensures
        0 <= move_rank(move_after(o, m, event)) < move_rank(m),
{
    if let (MoveView::Transfer(t), MoveEventView::Transferred(x)) = (m.state, event) {
        crate::transfer::law_transfer_ends(o.target, o.tmp, t, x);
    }
}

/// How many of the directories for the target are there.
pub open spec fn dirs_after(n: int, s: MoveView, event: MoveEventView) -> int {
    match (s, event) {
        (MoveView::Parents, MoveEventView::Tried(None)) => n + 1,
        (MoveView::Unmake(_), MoveEventView::Tried(None)) => n - 1,
        _ => n,
    }
}

/// The directories that were made are counted, so that where a move fails just
/// those are removed again, from deep to shallow, as far as they can be.
pub proof fn law_made_is_counted(
    o: MoveOrderView,
    m: MigrationView,
    event: MoveEventView,
    n: int,
    removable: bool,
)
    requires
        m.made == n,
        m.state is Unmake ==> m.made > 0,
        removable && m.state is Unmake ==> event == MoveEventView::Tried(None),
    ensures
        move_after(o, m, event).made == dirs_after(n, m.state, event),
        removable && m.state is Unmake && move_after(o, m, event).state is Over ==> move_after(
            o,
            m,
            event,
        ).made == 0,
{
}

/// What is known of the world in the course of a move: where the data is, what link is
/// at the source, and what the ledger says of it.
pub struct Course {
    pub data: Whereabouts,
    pub link: Option<LinkView>,
    pub entry: Option<EntryView>,
    pub at: MigrationView,
}

/// What came of a step of a move: what was answered, where the data then is, and what
/// link is at the source.
pub struct Turn {
    pub event: MoveEventView,
    pub data: Whereabouts,
    pub link: Option<LinkView>,
}

/// The world once what was asked for was tried.
pub open spec fn turned(o: MoveOrderView, c: Course, t: Turn) -> Course {
    Course {
        data: t.data,
        link: t.link,
        entry: entry_after(o, c.entry, c.at.state, t.event),
        at: move_after(o, c.at, t.event),
    }
}

/// Whether this may come of the step that a move is at.
pub open spec fn may_turn(o: MoveOrderView, c: Course, t: Turn) -> bool {
    &&& plain(t.event)
    &&& data_after(c.data, c.at.state, t.event, t.data)
    &&& link_after(o, c.link, c.at.state, t.event, t.link)
}

/// The world once all of `turns` have come, one after the other.
pub open spec fn course(o: MoveOrderView, c: Course, turns: Seq<Turn>) -> Course
    decreases turns.len(),
{
    if turns.len() == 0 {
        c
    } else {
        turned(o, course(o, c, turns.drop_last()), turns.last())
    }
}

/// Whether all of `turns` may come, one after the other.
pub open spec fn may_happen(o: MoveOrderView, c: Course, turns: Seq<Turn>) -> bool
    decreases turns.len(),
{
    turns.len() > 0 ==> may_happen(o, c, turns.drop_last()) && may_turn(
        o,
        course(o, c, turns.drop_last()),
        turns.last(),
    )
}

/// Whatever comes of the steps of a move, and wherever it stops: all the data is at the
/// source or at the target, as it was. Where the move went well, all of it is at the
/// target and nothing at the source; there is a link of the kind that is told that says
/// just the target, or, where none was asked for, what link was there before; and the
/// ledger says that it is done. Where it stopped half way, what is not at the target is
/// still at the source, and the ledger says that it is in flight. Where it failed
/// earlier, the source and its link are as they were.
pub proof fn law_every_move(o: MoveOrderView, c: Course, clear: bool, turns: Seq<Turn>)
    requires
        bare(c.data.target),
        c.at.made == 0,
        c.at.state == first_state(clear, c.at.parents),
        may_happen(o, c, turns),
    ensures
        ({
            let end = course(o, c, turns);
            let whole = c.data.source;
            &&& end.data.source == whole || is_split(whole, end.data.source, end.data.target)
            &&& move_safe(whole, end.data, end.at.state)
            &&& entry_fits(o, end.entry, end.at.state)
            &&& link_fits(o, c.link, end.link, end.at.state)
            &&& end.at.state matches MoveView::Over(r) ==> match r {
                Ok((outcome, kind)) => {
                    &&& end.data.target == whole
                    &&& end.data.source == Contents::empty()
                    &&& kind is None <==> o.no_link
                    &&& end.link == left_link(o, c.link, kind)
                    &&& end.entry == Some(o.entry.completed(completion(outcome, kind)))
                },
                Err(e) => if landed(e) {
                    is_split(whole, end.data.source, end.data.target) && end.entry == Some(o.entry)
                } else {
                    end.data.source == whole && bare(end.data.target) && end.link == c.link
                },
            }
        }),
    decreases turns.len(),
{
    if turns.len() > 0 {
        let less = turns.drop_last();
        law_every_move(o, c, clear, less);
        let before = course(o, c, less);
        let t = turns.last();
        law_move_is_safe(o, c.data.source, before.data, before.at, t.event, t.data);
        law_ledger_comes_first(o, before.entry, c.data.source, before.data, before.at, t.event);
        law_link_is_left(o, c.link, before.link, before.at, t.event, t.link);
    }
}

/// What directories there are above the target once what a move asks for was tried.
pub open spec fn ground_after(
    ground: Set<PathView>,
    m: MigrationView,
    event: MoveEventView,
) -> Set<PathView> {
    match (m.state, event) {
        (MoveView::Parents, MoveEventView::Tried(None)) => ground.insert(m.parents[m.made as int]),
        (MoveView::Unmake(_), MoveEventView::Tried(None)) => ground.remove(m.parents[m.made - 1]),
        _ => ground,
    }
}

/// What directories there are above the target once all of `turns` have come.
pub open spec fn grounds(
    o: MoveOrderView,
    c: Course,
    ground: Set<PathView>,
    turns: Seq<Turn>,
) -> Set<PathView>
    decreases turns.len(),
{
    if turns.len() == 0 {
        ground
    } else {
        ground_after(
            grounds(o, c, ground, turns.drop_last()),
            course(o, c, turns.drop_last()).at,
            turns.last().event,
        )
    }
}

/// Whether every directory that was to be removed again could be.
pub open spec fn all_unmade(o: MoveOrderView, c: Course, turns: Seq<Turn>) -> bool
    decreases turns.len(),
{
    turns.len() > 0 ==> {
        &&& all_unmade(o, c, turns.drop_last())
        &&& course(o, c, turns.drop_last()).at.state is Unmake ==> turns.last().event
            == MoveEventView::Tried(None)
    }
}

/// How many of the directories are made in a state of a move. `clean` says that all that
/// was to be removed again could be.
spec fn made_fits(m: MigrationView, clean: bool) -> bool {
    let n = m.parents.len();
    &&& m.made <= n
    &&& match m.state {
        MoveView::Clear => m.made == 0,
        MoveView::Parents => m.made < n,
        MoveView::Unmake(_) => m.made > 0,
        MoveView::Over(Err(e)) => if landed(e) {
            m.made == n
        } else {
            clean ==> m.made == 0
        },
        _ => m.made == n,
    }
}

/// What is made for the target is just what was missing, and nothing else: all of it is
/// there from the time that the move is entered, and stays where the data was moved. Where
/// a move fails with the data at the source, what was made is removed again, and there is
/// what was there before, if only what was made could be removed.
pub proof fn law_made_is_what_was_missing(
    o: MoveOrderView,
    c: Course,
    clear: bool,
    ground: Set<PathView>,
    turns: Seq<Turn>,
)
    requires
        bare(c.data.target),
        c.at.made == 0,
        c.at.state == first_state(clear, c.at.parents),
        c.at.parents.no_duplicates(),
        forall|i: int|
            0 <= i < c.at.parents.len() ==> !ground.contains(#[trigger] c.at.parents[i]),
        may_happen(o, c, turns),
    ensures
        ({
            let end = course(o, c, turns).at;
            let now = grounds(o, c, ground, turns);
            &&& end.parents == c.at.parents
            &&& forall|p: PathView| #[trigger]
                now.contains(p) <==> ground.contains(p) || (exists|i: int|
                    0 <= i < end.made && #[trigger] c.at.parents[i] == p)
            &&& end.state is Rename || end.state is Transfer || end.state is Link || end.state
                is Complete ==> end.made == c.at.parents.len()
            &&& end.state matches MoveView::Over(r) ==> match r {
                Ok(_) => end.made == c.at.parents.len(),
                Err(e) => if landed(e) {
                    end.made == c.at.parents.len()
                } else {
                    all_unmade(o, c, turns) ==> now == ground
                },
            }
        }),
{
    lemma_made_fits(o, c, clear, ground, turns);
    let now = grounds(o, c, ground, turns);
    if course(o, c, turns).at.made == 0 {
        assert(now =~= ground);
    }
}

proof fn lemma_made_fits(
    o: MoveOrderView,
    c: Course,
    clear: bool,
    ground: Set<PathView>,
    turns: Seq<Turn>,
)
    requires
        bare(c.data.target),
        c.at.made == 0,
        c.at.state == first_state(clear, c.at.parents),
        c.at.parents.no_duplicates(),
        forall|i: int|
            0 <= i < c.at.parents.len() ==> !ground.contains(#[trigger] c.at.parents[i]),
        may_happen(o, c, turns),
    ensures
        course(o, c, turns).at.parents == c.at.parents,
        made_fits(course(o, c, turns).at, all_unmade(o, c, turns)),
        forall|p: PathView| #[trigger]
            grounds(o, c, ground, turns).contains(p) <==> ground.contains(p) || (exists|i: int|
                0 <= i < course(o, c, turns).at.made && #[trigger] c.at.parents[i] == p),
    decreases turns.len(),
{
    if turns.len() > 0 {
        let less = turns.drop_last();
        lemma_made_fits(o, c, clear, ground, less);
        law_every_move(o, c, clear, less);
        let before = course(o, c, less);
        let m = before.at;
        let t = turns.last();
        let end = course(o, c, turns).at;
        let was = grounds(o, c, ground, less);
        let now = grounds(o, c, ground, turns);
        let ps = c.at.parents;
        assert(end == move_after(o, m, t.event));
        assert forall|p: PathView| #[trigger] now.contains(p) <==> ground.contains(p) || (exists|
            i: int,
        |
            0 <= i < end.made && #[trigger] ps[i] == p) by {
            assert(was.contains(p) <==> ground.contains(p) || (exists|i: int|
                0 <= i < m.made && #[trigger] ps[i] == p));
            if m.state is Parents && t.event == MoveEventView::Tried(None) {
                if p == ps[m.made as int] {
                    assert(0 <= m.made < end.made);
                }
                if exists|i: int| 0 <= i < m.made && #[trigger] ps[i] == p {
                    let i = choose|i: int| 0 <= i < m.made && #[trigger] ps[i] == p;
                    assert(i < end.made);
                }
                if exists|i: int| 0 <= i < end.made && #[trigger] ps[i] == p {
                    let i = choose|i: int| 0 <= i < end.made && #[trigger] ps[i] == p;
                    assert(i < m.made || i == m.made);
                }
            } else if m.state is Unmake && t.event == MoveEventView::Tried(None) {
                let last = ps[m.made - 1];
                assert(end.made == m.made - 1);
                if exists|i: int| 0 <= i < m.made && #[trigger] ps[i] == p {
                    let i = choose|i: int| 0 <= i < m.made && #[trigger] ps[i] == p;
                    if p != last {
                        assert(i < end.made);
                    }
                }
                if exists|i: int| 0 <= i < end.made && #[trigger] ps[i] == p {
                    let i = choose|i: int| 0 <= i < end.made && #[trigger] ps[i] == p;
                    assert(ps[i] != ps[m.made - 1]);
                    assert(i < m.made);
                }
                assert(!ground.contains(last));
            } else {
                assert(end.made == m.made);
            }
        }
    }
}

/// Whether a move has come to no failure.
pub open spec fn is_well(s: MoveView) -> bool {
    match s {
        MoveView::Transfer(t) => crate::transfer::is_well(t) || t is Undo,
        MoveView::Forget(_) => false,
        MoveView::Unmake(_) => false,
        MoveView::Over(Err(_)) => false,
        _ => true,
    }
}

/// Whether what a state asked for went well. That a directory cannot be renamed to
/// another volume is no failure: it is copied then.
pub open spec fn went_well(o: MoveOrderView, s: MoveView, event: MoveEventView) -> bool {
    match (s, event) {
        (MoveView::Rename, MoveEventView::Tried(Some(e))) => crosses(o.system, o.numbers, e.code),
        (MoveView::Transfer(t), MoveEventView::Transferred(x)) => crate::transfer::went_well(t, x)
            || (crate::transfer::is_well(t) && (t is Copy || t is Land)),
        (_, MoveEventView::Tried(f)) => f is None,
        (_, MoveEventView::Entered(x)) => x is None,
        (_, MoveEventView::Linked(r)) => r is Ok,
        _ => false,
    }
}

/// A move fails just where something that it asked for did, or where its transfer did,
/// once what that copied was removed. So a move whose steps all go well ends well.
pub proof fn law_move_goes_well(o: MoveOrderView, m: MigrationView, event: MoveEventView)
    requires
        is_well(m.state),
        move_fits(m.state, event),
        m.state matches MoveView::Transfer(t) ==> !(t is Over),
    ensures
        is_well(move_after(o, m, event).state) <==> went_well(o, m.state, event),
{
    if let (MoveView::Transfer(t), MoveEventView::Transferred(x)) = (m.state, event) {
        if crate::transfer::is_well(t) {
            crate::transfer::law_transfer_goes_well(o.target, o.tmp, t, x);
            if !crate::transfer::went_well(t, x) {
                crate::transfer::law_transfer_tells_what_failed(o.target, o.tmp, t, x);
            }
        }
    }
}

/// What is asked for in the course of a move, one thing after the other: the way to the
/// target, the ledger, the data, the link, and the ledger again. The data is copied just
/// where it cannot be renamed since it is to go to another volume, and a link is left
/// unless none was asked for.
pub proof fn law_move_in_turn(o: MoveOrderView, m: MigrationView, event: MoveEventView)
    requires
        is_well(m.state),
        move_fits(m.state, event),
        went_well(o, m.state, event),
    ensures
        ({
            let next = move_after(o, m, event);
            let landing = if o.no_link {
                next.state is Complete
            } else {
                next.state is Link
            };
            let more = if m.state is Parents {
                m.made + 1 < m.parents.len()
            } else {
                m.made < m.parents.len()
            };
            &&& next.parents == m.parents
            &&& m.state is Parents ==> next.made == m.made + 1
            &&& !(m.state is Parents) ==> next.made == m.made
            &&& m.state is Clear || m.state is Parents ==> if more {
                next.state is Parents
            } else {
                next.state is Begin
            }
            &&& m.state is Begin ==> next.state is Rename
            &&& m.state is Rename && event == MoveEventView::Tried(None) ==> landing
            &&& m.state is Rename && event != MoveEventView::Tried(None) ==> next.state
                == MoveView::Transfer(TransferView::Scan)
            &&& m.state is Transfer ==> next.state is Transfer || landing
            &&& m.state matches MoveView::Link(outcome) ==> next.state == MoveView::Complete(
                outcome,
                Some((event->Linked_0)->Ok_0),
            )
            &&& m.state matches MoveView::Complete(outcome, kind) ==> next.state
                == MoveView::Over(Ok((outcome, kind)))
        }),
{
}

/// What a move comes to: what was renamed stayed on its volume, and what was copied did
/// not, and counts what was listed.
pub proof fn law_move_outcome(o: MoveOrderView, m: MigrationView, event: MoveEventView)
    requires
        m.state is Rename || m.state is Transfer,
    ensures
        ({
            let r = match move_after(o, m, event).state {
                MoveView::Link(x) => Some(x),
                MoveView::Complete(x, _) => Some(x),
                _ => None,
            };
            &&& r is Some && m.state is Rename ==> (r->0).same_volume
            &&& m.state matches MoveView::Transfer(t) ==> r is Some && crate::transfer::plan_of(
                t,
            ) is Some ==> !(r->0).same_volume && (r->0).bytes == (crate::transfer::plan_of(
                t,
            )->0).total_bytes
        }),
{
}

/// The error that a move has come to.
pub open spec fn error_of(s: MoveView) -> Option<ErrorView> {
    match s {
        MoveView::Forget(e) => Some(e),
        MoveView::Unmake(e) => Some(e),
        MoveView::Over(Err(e)) => Some(e),
        _ => None,
    }
}

/// A move that fails tells what failed: what the system said, with the place that it was
/// about, what the ledger said, what the transfer did, or that the link could not be
/// left. From then on that stays what is told. Where the data is not at the target yet,
/// the ledger forgets the move, and what was made for it is removed.
#[verifier::spinoff_prover]
#[verifier::rlimit(40)]
pub proof fn law_move_tells_what_failed(o: MoveOrderView, m: MigrationView, event: MoveEventView)
    requires
        move_fits(m.state, event),
        m.state matches MoveView::Transfer(t) ==> !(t is Over),
        !is_well(m.state) || !went_well(o, m.state, event),
    ensures
        ({
            let next = move_after(o, m, event).state;
            let early = if m.made > 0 {
                next is Unmake
            } else {
                next is Over
            };
            &&& error_of(next) is Some
            &&& !is_well(m.state) ==> error_of(next) == error_of(m.state)
            &&& is_well(m.state) ==> {
                let e = error_of(next)->0;
                match event {
                    MoveEventView::Tried(f) => e == (ErrorView::Io {
                        path: Some(
                            if m.state is Clear {
                                o.target
                            } else if m.state is Parents {
                                m.parents[m.made as int]
                            } else {
                                o.real_source
                            },
                        ),
                        source: f->0,
                    }),
                    MoveEventView::Entered(x) => if m.state is Begin {
                        e == x->0
                    } else {
                        e matches ErrorView::Incomplete { path, reason } && path == o.source
                            && reason == (x->0).message()
                    },
                    MoveEventView::Linked(r) => e matches ErrorView::Incomplete { path, reason }
                        && path == o.source && holds(reason, (r->Err_0).text),
                    MoveEventView::Transferred(x) => true,
                }
            }
            &&& m.state is Clear ==> next is Over
            &&& m.state is Parents || m.state is Begin || m.state is Forget ==> early
            &&& m.state is Rename ==> next is Forget
            &&& m.state is Transfer ==> if landed(error_of(next)->0) {
                next is Over
            } else {
                next is Forget
            }
            &&& m.state is Link || m.state is Complete ==> next is Over
        }),
{
    if let MoveEventView::Linked(Err(f)) = event {
        crate::text::lemma_holds("建链接失败: "@, f.text, Seq::empty());
        assert("建链接失败: "@ + f.text + Seq::<char>::empty() =~= "建链接失败: "@ + f.text);
    }
    if let (MoveView::Transfer(t), MoveEventView::Transferred(x)) = (m.state, event) {
        if crate::transfer::is_well(t) {
            crate::transfer::law_transfer_goes_well(o.target, o.tmp, t, x);
        }
    }
}

/// What a move asks for: it makes and removes no directory but an empty one at the target
/// and those that are missing above it, renames what is moved to the target, leaves a link
/// to the target at what the user named, which is repointed where it is there, and enters
/// the move under that name.
pub proof fn law_move_asks(m: Migration)
    ensures
        m.wants() is None ==> m.state is Over || m.state is Transfer,
        m.state is Over ==> m.wants() is None,
        m.state is Clear ==> m.wants() == Some(
            MoveActionView::RemoveDir { at: m.order.job.target@ },
        ),
        m.state is Parents ==> m.wants() == Some(
            MoveActionView::MakeDir { at: m@.parents[m.made as int] },
        ),
        m.state is Unmake ==> m.wants() == Some(
            MoveActionView::RemoveDir { at: m@.parents[m.made - 1] },
        ),
        m.state is Begin ==> (m.wants() matches Some(MoveActionView::Begin { entry })
            && entry.source == m.order.job.source@ && entry.target == m.order.job.target@
            && entry.state == State::Inflight && entry.moved_at == m.order.moved_at@),
        m.state is Rename ==> m.wants() == Some(
            MoveActionView::Rename { from: m.order.job.real_source@, to: m.order.job.target@ },
        ),
        m.state is Link ==> m.wants() == Some(
            MoveActionView::Link {
                repoint: m.order.job.source_was_link is Some,
                link: m.order.job.source@,
                target: m.order.job.target@,
                preferred: m.order.link_type,
            },
        ),
        m.state matches MoveState::Complete(outcome, kind) ==> (m.wants() matches Some(
            MoveActionView::Complete { source, done },
        ) && source == m.order.job.source@ && done.bytes == outcome.bytes && done.files
            == outcome.files && done.dirs == outcome.dirs && done.same_volume
            == outcome.same_volume && (kind matches Some(k) ==> done.link_kind == k.name())),
        m.state is Forget ==> m.wants() == Some(
            MoveActionView::Forget { source: m.order.job.source@ },
        ),
        m.state matches MoveState::Transfer(t) ==> (t.wants() matches Some(a) ==> m.wants() == Some(
            MoveActionView::Transfer(a),
        )),
{
}

/// A move is begun, or shown, only where its source is not refused by what it really is: not
/// at all where that cannot be forced, and where it can, only where it is. It is shown, and
/// nothing begun, just where that is asked for. Where it is begun, the empty directory in
/// its way is removed first, and just the directories are made that are missing.
pub proof fn law_move_starts(
    force: bool,
    dry_run: bool,
    source: PathView,
    at: PathView,
    target: PathView,
    clear: bool,
    home: Option<PathView>,
    cwd: Option<PathView>,
    places: Seq<PlaceState>,
)
    ensures
        ({
            let v = verdict(at, home, cwd);
            match started(force, dry_run, source, at, target, clear, home, cwd, places) {
                Ok((warning, start)) => {
                    &&& !(v is Forbidden)
                    &&& v is Risky ==> force
                    &&& warning is Some <==> v is Risky
                    &&& start is Preview <==> dry_run
                    &&& start matches StartView::Go { parents, state } ==> {
                        &&& missing(target, places) == Ok::<Seq<PathView>, ErrorView>(parents)
                        &&& clear <==> state is Clear
                        &&& !clear && parents.len() > 0 ==> state is Parents
                        &&& !clear && parents.len() == 0 ==> state is Begin
                    }
                },
                Err(e) => {
                    &&& e is Unsafe <==> v is Forbidden || (v is Risky && !force)
                    &&& e matches ErrorView::Unsafe { path, .. } ==> path == source
                    &&& !(e is Unsafe) ==> !dry_run && missing(target, places) == Err::<
                        Seq<PathView>,
                        ErrorView,
                    >(e)
                },
            }
        }),
        (cwd matches Some(c) && is_above(at, c)) || home == Some(at) ==> !force ==> started(
            force,
            dry_run,
            source,
            at,
            target,
            clear,
            home,
            cwd,
            places,
        ) is Err,
{
    crate::safety::law_as_it_was_judged(source, verdict(at, home, cwd), force);
    if (cwd matches Some(c) && is_above(at, c)) || home == Some(at) {
        crate::safety::law_where_the_user_is(at, home, cwd);
    }
    if let Err(e) = missing(target, places) {
        assert(e is InvalidPath);
    }
}

/// How far a move has got once all of `events` came.
pub open spec fn moved_by_events(
    o: MoveOrderView,
    m: MigrationView,
    events: Seq<MoveEventView>,
) -> MigrationView
    decreases events.len(),
{
    if events.len() == 0 {
        m
    } else {
        move_after(o, moved_by_events(o, m, events.drop_last()), events.last())
    }
}

/// Whether what a move asked for went well, and where its transfer did, that too.
pub open spec fn all_well(o: MoveOrderView, s: MoveView, event: MoveEventView) -> bool {
    &&& move_fits(s, event)
    &&& went_well(o, s, event)
    &&& s matches MoveView::Transfer(t) ==> (event matches MoveEventView::Transferred(x)
        && crate::transfer::went_well(t, x))
}

/// A move whose steps all go well ends well, in a limited number of steps, whether it can be
/// renamed or has to be copied, and with or without a link.
#[verifier::spinoff_prover]
#[verifier::rlimit(40)]
pub proof fn law_move_ends_well(
    o: MoveOrderView,
    clear: bool,
    m: MigrationView,
    events: Seq<MoveEventView>,
)
    requires
        m.made == 0,
        m.state == first_state(clear, m.parents),
        forall|i: int|
            #![trigger events[i]]
            0 <= i < events.len() ==> all_well(
                o,
                moved_by_events(o, m, events.take(i)).state,
                events[i],
            ),
    ensures
        ({
            let end = moved_by_events(o, m, events);
            &&& is_well(end.state)
            &&& end.parents == m.parents && end.made <= m.parents.len()
            &&& end.state is Parents ==> end.made < m.parents.len()
            &&& end.state matches MoveView::Transfer(t) ==> crate::transfer::is_well(t) && !(
            t is Over)
            &&& 0 <= move_rank(end)
            &&& events.len() + move_rank(end) <= 2 * m.parents.len() + 16
            &&& end.state matches MoveView::Over(r) ==> r is Ok
        }),
    decreases events.len(),
{
    if events.len() > 0 {
        let n = events.len() - 1;
        let less = events.drop_last();
        assert forall|i: int| #![trigger less[i]] 0 <= i < less.len() implies all_well(
            o,
            moved_by_events(o, m, less.take(i)).state,
            less[i],
        ) by {
            assert(less[i] == events[i]);
            assert(less.take(i) =~= events.take(i));
        }
        law_move_ends_well(o, clear, m, less);
        assert(events.take(n) =~= less);
        assert(events[n] == events.last());
        let b = moved_by_events(o, m, less);
        law_move_goes_well(o, b, events.last());
        law_move_in_turn(o, b, events.last());
        law_move_ends(o, b, events.last());
        if let (MoveView::Transfer(t), MoveEventView::Transferred(x)) = (b.state, events.last()) {
            crate::transfer::law_transfer_goes_well(o.target, o.tmp, t, x);
        }
    }
}

/// Four threads copy for each core, up to 32, and one removes; with more cores there are
/// never fewer.
pub proof fn law_threads_grow(a: int, b: int)
    requires
        0 <= a <= b,
    ensures
        copy_threads(a) <= copy_threads(b),
        remove_threads(a) <= remove_threads(b),
        copy_threads(a) == 4 * a || (copy_threads(a) == 32 && 4 * a >= 32),
        remove_threads(a) == a || (remove_threads(a) == 32 && a >= 32),
{
}

/// What a move goes by all through is what it was ordered: its places, its entry, and what
/// was asked for.
pub proof fn law_course_is_the_order(m: MoveOrder)
    ensures
        ({
            let o = m.course();
            &&& o.source == m.job.source@ && o.real_source == m.job.real_source@ && o.target
                == m.job.target@
            &&& o.tmp == crate::copy::partial(m.job.target@, m.pid)
            &&& o.no_link == m.no_link && o.system == m.system && o.numbers == m.numbers
            &&& o.entry.source == m.job.source@ && o.entry.target == m.job.target@ && o.entry.moved_at
                == m.moved_at@ && o.entry.state == State::Inflight
            &&& o.entry.original_real_path == if m.job.source_was_link is Some {
                Some(m.job.real_source@)
            } else {
                None
            }
        }),
{
}

/// What came of a step is decided on as it came.
pub proof fn law_answers_are_seen(e: MoveEvent)
    ensures
        match e {
            MoveEvent::Tried(None) => e@ == MoveEventView::Tried(None),
            MoveEvent::Tried(Some(f)) => e@ == MoveEventView::Tried(Some(f@)),
            MoveEvent::Entered(None) => e@ == MoveEventView::Entered(None),
            MoveEvent::Entered(Some(x)) => e@ == MoveEventView::Entered(Some(x@)),
            MoveEvent::Transferred(t) => e@ == MoveEventView::Transferred(t@),
            MoveEvent::Linked(Ok(k)) => e@ == MoveEventView::Linked(Ok(k)),
            MoveEvent::Linked(Err(f)) => e@ == MoveEventView::Linked(Err(f@)),
        },
{
}

} // verus!
