//! Moving data from one volume to another.
//!
//! The data is copied to a place beside the target, moved to the target in one
//! rename, and only then removed at the source. So until that rename the source
//! is untouched, and after it the target holds all that could be read; what could
//! not is still at the source.

use vstd::prelude::*;

use crate::copy::partial;
use crate::copy::partial_path;
use crate::copy::Progress;
use crate::copy::ProgressView;
use crate::error::failed_views;
use crate::error::Error;
use crate::error::ErrorView;
use crate::error::FailedItem;
use crate::error::FailedView;
use crate::error::FaultView;
use crate::error::IoFault;
use crate::path::PathBuf;
use crate::path::PathView;
use crate::plan::Plan;
use crate::plan::PlanView;
use crate::platform::opt_fault;
use crate::text::cat;
use crate::text::holds;
use crate::world::bare;
use crate::world::is_split;
use crate::world::listed;
use crate::world::lists;
use crate::world::within;
use crate::world::Contents;

verus! {

/// What a move came to.
#[derive(Debug, Clone, Copy, PartialEq, Eq, Structural)]
pub struct Outcome {
    /// Whether it was one rename.
    pub same_volume: bool,
    pub bytes: u64,
    pub files: usize,
    pub dirs: usize,
}

/// What a move came to that was one rename.
pub open spec fn renamed() -> Outcome {
    Outcome { same_volume: true, bytes: 0, files: 0, dirs: 0 }
}

/// `n`, or the largest number that can be shown.
pub open spec fn capped(n: int) -> int {
    if n > usize::MAX {
        usize::MAX as int
    } else {
        n
    }
}

/// What a move came to that copied what is in a plan.
pub open spec fn copied_outcome(plan: PlanView) -> Outcome {
    Outcome {
        same_volume: false,
        bytes: plan.total_bytes,
        files: capped((plan.files.len() + plan.symlinks.len()) as int) as usize,
        dirs: plan.dirs.len() as usize,
    }
}

/// How far a transfer has got. Each state says what is to be done next.
#[derive(Debug, PartialEq, Eq)]
pub enum TransferState {
    /// List what there is.
    Scan,
    /// Find out how much is free at the target.
    Space(Plan),
    /// Remove what is left of an earlier try.
    Sweep(Plan),
    /// Make the directory to copy to.
    Make(Plan),
    /// Copy.
    Copy(Plan),
    /// Move the copy to the target.
    Land(Plan),
    /// Remove what was copied.
    Undo(Error),
    /// Remove the source.
    Remove(Plan),
    Over(Result<Outcome, Error>),
}

/// The contents of a [`TransferState`].
pub enum TransferView {
    Scan,
    Space(PlanView),
    Sweep(PlanView),
    Make(PlanView),
    Copy(PlanView),
    Land(PlanView),
    Undo(ErrorView),
    Remove(PlanView),
    Over(Result<Outcome, ErrorView>),
}

/// The contents of what a move came to.
pub open spec fn outcome_view(r: Result<Outcome, Error>) -> Result<Outcome, ErrorView> {
    match r {
        Ok(o) => Ok(o),
        Err(e) => Err(e@),
    }
}

impl View for TransferState {
    type V = TransferView;

    open spec fn view(&self) -> TransferView {
        match *self {
            TransferState::Scan => TransferView::Scan,
            TransferState::Space(p) => TransferView::Space(p@),
            TransferState::Sweep(p) => TransferView::Sweep(p@),
            TransferState::Make(p) => TransferView::Make(p@),
            TransferState::Copy(p) => TransferView::Copy(p@),
            TransferState::Land(p) => TransferView::Land(p@),
            TransferState::Undo(e) => TransferView::Undo(e@),
            TransferState::Remove(p) => TransferView::Remove(p@),
            TransferState::Over(r) => TransferView::Over(outcome_view(r)),
        }
    }
}

/// What came of a step of a transfer.
#[derive(Debug, PartialEq, Eq)]
pub enum TransferEvent {
    Scanned(Result<Plan, Error>),
    /// How much is free, where that is known.
    Free(Option<u64>),
    Tried(Option<IoFault>),
    Copied(Progress),
    /// What could not be removed.
    Removed(Vec<FailedItem>),
}

/// The contents of a [`TransferEvent`].
pub enum TransferEventView {
    Scanned(Result<PlanView, ErrorView>),
    Free(Option<u64>),
    Tried(Option<FaultView>),
    Copied(ProgressView),
    Removed(Seq<FailedView>),
}

impl View for TransferEvent {
    type V = TransferEventView;

    open spec fn view(&self) -> TransferEventView {
        match *self {
            TransferEvent::Scanned(r) => TransferEventView::Scanned(
                match r {
                    Ok(p) => Ok(p@),
                    Err(e) => Err(e@),
                },
            ),
            TransferEvent::Free(n) => TransferEventView::Free(n),
            TransferEvent::Tried(f) => TransferEventView::Tried(opt_fault(f)),
            TransferEvent::Copied(p) => TransferEventView::Copied(p@),
            TransferEvent::Removed(v) => TransferEventView::Removed(failed_views(v@)),
        }
    }
}

/// Why copying was called off: the first failure.
pub open spec fn abort_reason(failures: Seq<FailedView>) -> Seq<char> {
    if failures.len() > 0 {
        failures[0].path.display() + ": "@ + failures[0].error
    } else {
        "未知原因"@
    }
}

/// The error that copying was called off.
pub open spec fn aborted(failures: Seq<FailedView>) -> ErrorView {
    ErrorView::Aborted { reason: abort_reason(failures), failures }
}

/// The error that not all of the source could be removed.
pub open spec fn leftover(plan: PlanView, failures: Seq<FailedView>) -> ErrorView {
    ErrorView::PartialFailure {
        total: capped(plan.total_items() as int) as usize,
        failed: failures.len() as usize,
        failures,
    }
}

/// The state of a transfer to `target`, by way of `tmp`, behind `s`. An event that
/// does not fit is ignored.
pub open spec fn transfer_after(
    target: PathView,
    tmp: PathView,
    s: TransferView,
    event: TransferEventView,
) -> TransferView {
    match (s, event) {
        (TransferView::Scan, TransferEventView::Scanned(r)) => match r {
            Ok(plan) => TransferView::Space(plan),
            Err(e) => TransferView::Over(Err(e)),
        },
        (TransferView::Space(plan), TransferEventView::Free(free)) => match free {
            Some(available) => if plan.total_bytes > available {
                TransferView::Over(
                    Err(
                        ErrorView::InsufficientSpace {
                            needed: plan.total_bytes,
                            available,
                            target,
                        },
                    ),
                )
            } else {
                TransferView::Sweep(plan)
            },
            None => TransferView::Sweep(plan),
        },
        (TransferView::Sweep(plan), TransferEventView::Tried(_)) => TransferView::Make(plan),
        (TransferView::Make(plan), TransferEventView::Tried(f)) => match f {
            None => TransferView::Copy(plan),
            Some(e) => TransferView::Over(Err(ErrorView::Io { path: Some(tmp), source: e })),
        },
        (TransferView::Copy(plan), TransferEventView::Copied(p)) => if p.aborted {
            TransferView::Undo(aborted(p.failures))
        } else {
            TransferView::Land(plan)
        },
        (TransferView::Land(plan), TransferEventView::Tried(f)) => match f {
            None => TransferView::Remove(plan),
            Some(e) => TransferView::Undo(ErrorView::Io { path: Some(target), source: e }),
        },
        (TransferView::Undo(e), TransferEventView::Tried(_)) => TransferView::Over(Err(e)),
        (TransferView::Remove(plan), TransferEventView::Removed(fs)) => if fs.len() == 0 {
            TransferView::Over(Ok(copied_outcome(plan)))
        } else {
            TransferView::Over(Err(leftover(plan, fs)))
        },
        _ => s,
    }
}

/// One thing to do in a transfer.
#[derive(Debug, PartialEq, Eq)]
pub enum TransferAction {
    Scan { root: PathBuf },
    /// Find out how much is free.
    Space { at: PathBuf },
    /// Remove a directory and all that is in it.
    Sweep { at: PathBuf },
    MakeDir { at: PathBuf },
    /// Copy what is listed.
    Copy { from: PathBuf, to: PathBuf },
    /// Rename, but never over what is there.
    Rename { from: PathBuf, to: PathBuf },
    /// Remove what is listed.
    Remove { root: PathBuf },
}

/// The contents of a [`TransferAction`].
pub enum TransferActionView {
    Scan { root: PathView },
    Space { at: PathView },
    Sweep { at: PathView },
    MakeDir { at: PathView },
    Copy { from: PathView, to: PathView },
    Rename { from: PathView, to: PathView },
    Remove { root: PathView },
}

impl View for TransferAction {
    type V = TransferActionView;

    open spec fn view(&self) -> TransferActionView {
        match *self {
            TransferAction::Scan { root } => TransferActionView::Scan { root: root@ },
            TransferAction::Space { at } => TransferActionView::Space { at: at@ },
            TransferAction::Sweep { at } => TransferActionView::Sweep { at: at@ },
            TransferAction::MakeDir { at } => TransferActionView::MakeDir { at: at@ },
            TransferAction::Copy { from, to } => TransferActionView::Copy { from: from@, to: to@ },
            TransferAction::Rename { from, to } => TransferActionView::Rename {
                from: from@,
                to: to@,
            },
            TransferAction::Remove { root } => TransferActionView::Remove { root: root@ },
        }
    }
}

/// A transfer.
#[derive(Debug, PartialEq, Eq)]
pub struct Transfer {
    pub from: PathBuf,
    pub to: PathBuf,
    /// Where the data is copied to at first.
    pub tmp: PathBuf,
    pub state: TransferState,
}

/// Begins to move the data at `from` to `to`.
pub fn transfer(from: PathBuf, to: PathBuf, pid: u32) -> (r: Transfer)
    ensures
        r.from == from,
        r.to == to,
        r.tmp@ == partial(to@, pid),
        r.state is Scan,
{
    let tmp = partial_path(&to, pid);
    Transfer { from, to, tmp, state: TransferState::Scan }
}

impl Transfer {
    /// What is to be done next.
    pub open spec fn wants(self) -> Option<TransferActionView> {
        match self.state {
            TransferState::Scan => Some(TransferActionView::Scan { root: self.from@ }),
            TransferState::Space(_) => Some(TransferActionView::Space { at: self.to@ }),
            TransferState::Sweep(_) => Some(TransferActionView::Sweep { at: self.tmp@ }),
            TransferState::Make(_) => Some(TransferActionView::MakeDir { at: self.tmp@ }),
            TransferState::Copy(_) => Some(
                TransferActionView::Copy { from: self.from@, to: self.tmp@ },
            ),
            TransferState::Land(_) => Some(
                TransferActionView::Rename { from: self.tmp@, to: self.to@ },
            ),
            TransferState::Undo(_) => Some(TransferActionView::Sweep { at: self.tmp@ }),
            TransferState::Remove(_) => Some(TransferActionView::Remove { root: self.from@ }),
            TransferState::Over(_) => None,
        }
    }

    /// What is to be done next.
    pub fn action(&self) -> (r: Option<TransferAction>)
        ensures
            match r {
                Some(a) => self.wants() == Some(a@),
                None => self.wants() is None,
            },
    {
        match &self.state {
            TransferState::Scan => Some(TransferAction::Scan { root: self.from.clone() }),
            TransferState::Space(_) => Some(TransferAction::Space { at: self.to.clone() }),
            TransferState::Sweep(_) => Some(TransferAction::Sweep { at: self.tmp.clone() }),
            TransferState::Make(_) => Some(TransferAction::MakeDir { at: self.tmp.clone() }),
            TransferState::Copy(_) => Some(
                TransferAction::Copy { from: self.from.clone(), to: self.tmp.clone() },
            ),
            TransferState::Land(_) => Some(
                TransferAction::Rename { from: self.tmp.clone(), to: self.to.clone() },
            ),
            TransferState::Undo(_) => Some(TransferAction::Sweep { at: self.tmp.clone() }),
            TransferState::Remove(_) => Some(TransferAction::Remove { root: self.from.clone() }),
            TransferState::Over(_) => None,
        }
    }

    /// What is listed, where it is copied or removed next.
    pub fn plan(&self) -> (r: Option<&Plan>)
        ensures
            match r {
                Some(p) => match self.state@ {
                    TransferView::Copy(q) => p@ == q,
                    TransferView::Remove(q) => p@ == q,
                    _ => false,
                },
                None => !(self.state is Copy) && !(self.state is Remove),
            },
    {
        match &self.state {
            TransferState::Copy(p) => Some(p),
            TransferState::Remove(p) => Some(p),
            _ => None,
        }
    }

    /// Goes on once what was to be done was tried.
    pub fn step(self, event: TransferEvent) -> (r: Transfer)
        ensures
            r.from == self.from,
            r.to == self.to,
            r.tmp == self.tmp,
            r.state@ == transfer_after(self.to@, self.tmp@, self.state@, event@),
    {
        let Transfer { from, to, tmp, state } = self;
        let state = match (state, event) {
            (TransferState::Scan, TransferEvent::Scanned(r)) => match r {
                Ok(plan) => TransferState::Space(plan),
                Err(e) => TransferState::Over(Err(e)),
            },
            (TransferState::Space(plan), TransferEvent::Free(free)) => match free {
                Some(available) => {
                    if plan.total_bytes > available {
                        TransferState::Over(
                            Err(
                                Error::InsufficientSpace {
                                    needed: plan.total_bytes,
                                    available,
                                    target: to.clone(),
                                },
                            ),
                        )
                    } else {
                        TransferState::Sweep(plan)
                    }
                },
                None => TransferState::Sweep(plan),
            },
            (TransferState::Sweep(plan), TransferEvent::Tried(_)) => TransferState::Make(plan),
            (TransferState::Make(plan), TransferEvent::Tried(f)) => match f {
                None => TransferState::Copy(plan),
                Some(e) => TransferState::Over(Err(Error::io(tmp.clone(), e))),
            },
            (TransferState::Copy(plan), TransferEvent::Copied(p)) => {
                let mut p = p;
                if p.is_aborted() {
                    let failures = p.take_failures();
                    let ghost fs = failed_views(failures@);
                    let reason = if failures.len() > 0 {
                        assert(fs[0] == failures@[0]@);
                        let mut s = cat(failures[0].path.display().as_str(), ": ");
                        s.append(failures[0].error.as_str());
                        s
                    } else {
                        "未知原因".to_owned()
                    };
                    TransferState::Undo(Error::Aborted { reason, failures })
                } else {
                    TransferState::Land(plan)
                }
            },
            (TransferState::Land(plan), TransferEvent::Tried(f)) => match f {
                None => TransferState::Remove(plan),
                Some(e) => TransferState::Undo(Error::io(to.clone(), e)),
            },
            (TransferState::Undo(e), TransferEvent::Tried(_)) => TransferState::Over(Err(e)),
            (TransferState::Remove(plan), TransferEvent::Removed(failures)) => {
                if failures.len() == 0 {
                    let files: usize = plan.files.len().saturating_add(plan.symlinks.len());
                    TransferState::Over(
                        Ok(
                            Outcome {
                                same_volume: false,
                                bytes: plan.total_bytes,
                                files,
                                dirs: plan.dirs.len(),
                            },
                        ),
                    )
                } else {
                    let total: usize = plan.dirs.len().saturating_add(
                        plan.files.len(),
                    ).saturating_add(plan.symlinks.len());
                    TransferState::Over(
                        Err(
                            Error::PartialFailure {
                                total,
                                failed: failures.len(),
                                failures,
                            },
                        ),
                    )
                }
            },
            (state, _) => state,
        };
        Transfer { from, to, tmp, state }
    }
}

/// What is at the source, at the place beside the target, and at the target.
pub struct Whereabouts {
    pub source: Contents,
    pub tmp: Contents,
    pub target: Contents,
}

/// Whether `after` is where the data may be once what a transfer asks for was tried.
/// Sweeping may leave anything, and so does a copy that was called off. A copy that went
/// well is of all that is listed. Removing takes away nothing that is not listed, and
/// where all went well, so is the source.
pub open spec fn moved_by(
    w: Whereabouts,
    s: TransferView,
    event: TransferEventView,
    after: Whereabouts,
) -> bool {
    match (s, event) {
        (TransferView::Sweep(_), TransferEventView::Tried(_)) => after == (Whereabouts {
            tmp: after.tmp,
            ..w
        }),
        (TransferView::Undo(_), TransferEventView::Tried(_)) => after == (Whereabouts {
            tmp: after.tmp,
            ..w
        }),
        (TransferView::Make(_), TransferEventView::Tried(_)) => after == (Whereabouts {
            tmp: after.tmp,
            ..w
        }),
        (TransferView::Copy(plan), TransferEventView::Copied(p)) => {
            &&& after == (Whereabouts { tmp: after.tmp, ..w })
            &&& !p.aborted ==> after.tmp == listed(w.source, plan)
        },
        (TransferView::Land(_), TransferEventView::Tried(None)) => after == (Whereabouts {
            tmp: Contents::empty(),
            target: w.tmp,
            ..w
        }),
        (TransferView::Remove(plan), TransferEventView::Removed(fs)) => {
            &&& after == (Whereabouts { source: after.source, ..w })
            &&& within(after.source, w.source)
            &&& forall|p: PathView| #[trigger]
                w.source.dom().contains(p) && !lists(plan, p) ==> after.source.dom().contains(p)
            &&& fs.len() == 0 ==> after.source == Contents::empty()
        },
        _ => after == w,
    }
}

/// Whether an error says that the data is at the target.
pub open spec fn landed(e: ErrorView) -> bool {
    e.exit_code() == 3
}

/// What holds of the data `whole` in a state of a transfer: until the copy has taken its
/// place at the target the source is as it was, and nothing of it is at the target. From
/// then on all that was listed is at the target, and what is not, which could not be
/// read, is still at the source. Where all went well, all is at the target.
pub open spec fn data_safe(whole: Contents, w: Whereabouts, s: TransferView) -> bool {
    match s {
        TransferView::Land(plan) => w.source == whole && bare(w.target) && w.tmp == listed(
            whole,
            plan,
        ),
        TransferView::Remove(plan) => w.source == whole && w.target == listed(whole, plan),
        TransferView::Undo(e) => w.source == whole && bare(w.target) && !landed(e),
        TransferView::Over(Ok(_)) => w.target == whole && w.source == Contents::empty(),
        TransferView::Over(Err(e)) => if landed(e) {
            is_split(whole, w.source, w.target)
        } else {
            w.source == whole && bare(w.target)
        },
        _ => w.source == whole && bare(w.target),
    }
}

/// All the data is at the source or at the target at every moment of a transfer, as it
/// was. What failed before it was at the target left the source as it was and says so;
/// what failed later says that it is at the target, and what is not there is still at the
/// source. Where all of the source was listed, the target is whole from then on.
pub proof fn law_transfer_is_safe(
    whole: Contents,
    w: Whereabouts,
    target: PathView,
    tmp: PathView,
    s: TransferView,
    event: TransferEventView,
    after: Whereabouts,
)
    requires
        data_safe(whole, w, s),
        moved_by(w, s, event, after),
        event matches TransferEventView::Scanned(Err(e)) ==> !landed(e),
    ensures
        w.source == whole || is_split(whole, w.source, w.target),
        data_safe(whole, after, transfer_after(target, tmp, s, event)),
        s matches TransferView::Remove(plan) && (forall|p: PathView| #[trigger]
            whole.dom().contains(p) ==> lists(plan, p)) ==> w.target == whole && after.target
            == whole,
{
    if let TransferView::Remove(plan) = s {
        if forall|p: PathView| #[trigger] whole.dom().contains(p) ==> lists(plan, p) {
            assert(listed(whole, plan) =~= whole);
        }
        if let TransferEventView::Removed(fs) = event {
            if fs.len() == 0 {
                assert(listed(whole, plan) =~= whole);
            }
        }
    }
}

/// How many steps a transfer takes at most from here.
pub open spec fn transfer_rank(s: TransferView) -> nat {
    match s {
        TransferView::Scan => 8,
        TransferView::Space(_) => 7,
        TransferView::Sweep(_) => 6,
        TransferView::Make(_) => 5,
        TransferView::Copy(_) => 4,
        TransferView::Land(_) => 3,
        TransferView::Undo(_) => 1,
        TransferView::Remove(_) => 1,
        TransferView::Over(_) => 0,
    }
}

/// Whether an event is one that a state waits for.
pub open spec fn fits(s: TransferView, event: TransferEventView) -> bool {
    match s {
        TransferView::Scan => event is Scanned,
        TransferView::Space(_) => event is Free,
        TransferView::Copy(_) => event is Copied,
        TransferView::Remove(_) => event is Removed,
        TransferView::Over(_) => false,
        _ => event is Tried,
    }
}

/// A transfer ends.
pub proof fn law_transfer_ends(
    target: PathView,
    tmp: PathView,
    s: TransferView,
    event: TransferEventView,
)
    requires
        fits(s, event),
    ensures
        transfer_rank(transfer_after(target, tmp, s, event)) < transfer_rank(s),
{
}

/// Nothing is copied where it is known that there is no room for it.
pub proof fn law_no_copy_without_space(
    target: PathView,
    tmp: PathView,
    plan: PlanView,
    available: u64,
)
    ensures
        plan.total_bytes > available <==> transfer_after(
            target,
            tmp,
            TransferView::Space(plan),
            TransferEventView::Free(Some(available)),
        ) is Over,
{
}

/// Whether a transfer has come to no failure.
pub open spec fn is_well(s: TransferView) -> bool {
    !(s is Undo) && !(s matches TransferView::Over(Err(_)))
}

/// Whether what a state asked for went well. What is left of an earlier try need not be
/// there to be removed, and where it is not known how much is free, that does not count.
pub open spec fn went_well(s: TransferView, event: TransferEventView) -> bool {
    match (s, event) {
        (TransferView::Scan, TransferEventView::Scanned(r)) => r is Ok,
        (TransferView::Space(plan), TransferEventView::Free(free)) => match free {
            Some(n) => plan.total_bytes <= n,
            None => true,
        },
        (TransferView::Sweep(_), TransferEventView::Tried(_)) => true,
        (TransferView::Make(_), TransferEventView::Tried(f)) => f is None,
        (TransferView::Copy(_), TransferEventView::Copied(p)) => !p.aborted,
        (TransferView::Land(_), TransferEventView::Tried(f)) => f is None,
        (TransferView::Remove(_), TransferEventView::Removed(fs)) => fs.len() == 0,
        _ => false,
    }
}

/// What a transfer is to copy and remove, where that is known.
pub open spec fn plan_of(s: TransferView) -> Option<PlanView> {
    match s {
        TransferView::Space(p) => Some(p),
        TransferView::Sweep(p) => Some(p),
        TransferView::Make(p) => Some(p),
        TransferView::Copy(p) => Some(p),
        TransferView::Land(p) => Some(p),
        TransferView::Remove(p) => Some(p),
        _ => None,
    }
}

/// A transfer fails just where something that it asked for did. While all goes well, what
/// was listed is what is copied and then removed, and when that ends, what is told is what
/// was listed.
pub proof fn law_transfer_goes_well(
    target: PathView,
    tmp: PathView,
    s: TransferView,
    event: TransferEventView,
)
    requires
        is_well(s),
        fits(s, event),
    ensures
        ({
            let next = transfer_after(target, tmp, s, event);
            &&& is_well(next) <==> went_well(s, event)
            &&& event matches TransferEventView::Scanned(Ok(plan)) ==> plan_of(next) == Some(plan)
            &&& s !is Scan && is_well(next) && !(next is Over) ==> plan_of(next) == plan_of(s)
            &&& next matches TransferView::Over(Ok(o)) ==> s is Remove && {
                let plan = plan_of(s)->0;
                &&& !o.same_volume
                &&& o.bytes == plan.total_bytes
                &&& plan.files.len() + plan.symlinks.len() <= usize::MAX ==> o.files
                    == plan.files.len() + plan.symlinks.len()
                &&& plan.dirs.len() <= usize::MAX ==> o.dirs == plan.dirs.len()
            }
        }),
{
}

/// What is asked for in the course of a transfer, one thing after the other: what there
/// is, room, a clean place beside the target, a copy there, and only then the target and
/// the source.
pub proof fn law_transfer_in_turn(
    target: PathView,
    tmp: PathView,
    s: TransferView,
    event: TransferEventView,
)
    requires
        is_well(s),
        went_well(s, event),
    ensures
        ({
            let next = transfer_after(target, tmp, s, event);
            &&& s is Scan ==> next is Space
            &&& s is Space ==> next is Sweep
            &&& s is Sweep ==> next is Make
            &&& s is Make ==> next is Copy
            &&& s is Copy ==> next is Land
            &&& s is Land ==> next is Remove
            &&& s is Remove ==> next is Over
        }),
{
}

/// A transfer that fails tells what failed, and nothing else: what the system said, with
/// the place, what could not be copied, or what could not be removed. What was copied by
/// then is removed first, unless it is at the target.
pub proof fn law_transfer_tells_what_failed(
    target: PathView,
    tmp: PathView,
    s: TransferView,
    event: TransferEventView,
)
    requires
        is_well(s),
        fits(s, event),
        !went_well(s, event),
    ensures
        ({
            let next = transfer_after(target, tmp, s, event);
            let e = match next {
                TransferView::Undo(e) => e,
                TransferView::Over(Err(e)) => e,
                _ => arbitrary(),
            };
            &&& next is Undo <==> s is Copy || s is Land
            &&& transfer_after(target, tmp, TransferView::Undo(e), TransferEventView::Tried(None))
                == TransferView::Over(Err(e))
            &&& match event {
                TransferEventView::Scanned(r) => r == Err::<PlanView, ErrorView>(e),
                TransferEventView::Free(n) => e == (ErrorView::InsufficientSpace {
                    needed: (plan_of(s)->0).total_bytes,
                    available: n->0,
                    target,
                }),
                TransferEventView::Tried(f) => e == (ErrorView::Io {
                    path: Some(
                        if s is Make {
                            tmp
                        } else {
                            target
                        },
                    ),
                    source: f->0,
                }),
                TransferEventView::Copied(p) => e matches ErrorView::Aborted { reason, failures }
                    && failures == p.failures && (p.failures.len() > 0 ==> holds(
                    reason,
                    p.failures[0].error,
                ) && holds(reason, p.failures[0].path.display())),
                TransferEventView::Removed(fs) => e matches ErrorView::PartialFailure {
                    total,
                    failed,
                    failures,
                } && failures == fs && (fs.len() <= usize::MAX ==> failed == fs.len()) && ({
                    let plan = plan_of(s)->0;
                    plan.dirs.len() + plan.files.len() + plan.symlinks.len() <= usize::MAX ==> total
                        == plan.dirs.len() + plan.files.len() + plan.symlinks.len()
                }),
            }
        }),
{
    if let TransferEventView::Copied(p) = event {
        if p.failures.len() > 0 {
            let x = p.failures[0];
            crate::text::lemma_holds(x.path.display() + ": "@, x.error, Seq::empty());
            assert(x.path.display() + ": "@ + x.error + Seq::<char>::empty() =~= x.path.display()
                + ": "@ + x.error);
            crate::text::lemma_holds(Seq::empty(), x.path.display(), ": "@ + x.error);
            assert(Seq::<char>::empty() + x.path.display() + (": "@ + x.error)
                =~= x.path.display() + ": "@ + x.error);
        }
    }
}

/// What failed is told when the transfer is over, whatever comes of removing the copy.
pub proof fn law_transfer_keeps_its_error(
    target: PathView,
    tmp: PathView,
    e: ErrorView,
    f: Option<FaultView>,
)
    ensures
        transfer_after(target, tmp, TransferView::Undo(e), TransferEventView::Tried(f))
            == TransferView::Over(Err(e)),
{
}

/// A transfer lists, copies and removes what it is to move, makes and clears nothing but
/// the place beside the target, and takes that to the target. It asks for something until
/// it is over.
pub proof fn law_transfer_asks(t: Transfer)
    ensures
        t.wants() is None <==> t.state is Over,
        t.state is Scan ==> t.wants() == Some(TransferActionView::Scan { root: t.from@ }),
        t.state is Space ==> t.wants() == Some(TransferActionView::Space { at: t.to@ }),
        t.state is Sweep || t.state is Undo ==> t.wants() == Some(
            TransferActionView::Sweep { at: t.tmp@ },
        ),
        t.state is Make ==> t.wants() == Some(TransferActionView::MakeDir { at: t.tmp@ }),
        t.state is Copy ==> t.wants() == Some(
            TransferActionView::Copy { from: t.from@, to: t.tmp@ },
        ),
        t.state is Land ==> t.wants() == Some(
            TransferActionView::Rename { from: t.tmp@, to: t.to@ },
        ),
        t.state is Remove ==> t.wants() == Some(TransferActionView::Remove { root: t.from@ }),
{
}

/// What came of a step is decided on as it came.
pub proof fn law_answers_are_seen(e: TransferEvent)
    ensures
        match e {
            TransferEvent::Scanned(Ok(p)) => e@ == TransferEventView::Scanned(Ok(p@)),
            TransferEvent::Scanned(Err(x)) => e@ == TransferEventView::Scanned(Err(x@)),
            TransferEvent::Free(n) => e@ == TransferEventView::Free(n),
            TransferEvent::Tried(None) => e@ == TransferEventView::Tried(None),
            TransferEvent::Tried(Some(f)) => e@ == TransferEventView::Tried(Some(f@)),
            TransferEvent::Copied(p) => e@ == TransferEventView::Copied(p@),
            TransferEvent::Removed(v) => e@ matches TransferEventView::Removed(fs) && fs.len()
                == v.len() && forall|i: int| 0 <= i < fs.len() ==> #[trigger] fs[i] == v@[i]@,
        },
{
}

} // verus!
