//! Moving a directory back to where it was.
//!
//! The link is taken away, the data is renamed or transferred back, and the ledger
//! forgets the move. Where that fails with the data still at its place, the link
//! is put back.

use vstd::prelude::*;

use crate::cli::LinkType;
use crate::cli::RestoreArgs;
use crate::error::Error;
use crate::error::ErrorView;
use crate::error::FaultView;
use crate::error::IoFault;
use crate::ledger::find;
use crate::ledger::opt_error;
use crate::ledger::Entry;
use crate::ledger::EntryView;
use crate::ledger::Ledger;
use crate::ledger::LedgerView;
use crate::ledger::State;
use crate::link::kind_view;
use crate::link::LinkView;
use crate::migrate::copy_threads;
use crate::migrate::incomplete;
use crate::path::PathBuf;
use crate::path::PathView;
use crate::platform::crosses;
use crate::platform::is_cross_device;
use crate::platform::opt_fault;
use crate::platform::unix::Errnos;
use crate::platform::LinkKind;
use crate::platform::System;
use crate::text::cat;
use crate::text::holds;
use crate::text::lemma_holds_at;
use crate::text::lines_view;
use crate::text::push_line;
use crate::transfer::data_safe;
use crate::transfer::landed;
use crate::transfer::moved_by;
use crate::transfer::renamed;
use crate::transfer::transfer;
use crate::transfer::transfer_after;
use crate::transfer::transfer_rank;
use crate::transfer::Outcome;
use crate::transfer::Transfer;
use crate::transfer::TransferAction;
use crate::transfer::TransferActionView;
use crate::transfer::TransferEvent;
use crate::transfer::TransferEventView;
use crate::transfer::TransferState;
use crate::transfer::TransferView;
use crate::transfer::Whereabouts;
use crate::world::bare;
use crate::world::is_split;
use crate::world::Contents;

verus! {

/// The entry to move back by: the one in the ledger for what was named, if the move
/// ended.
pub open spec fn chosen(
    named: PathView,
    key: Result<PathView, FaultView>,
    ledger: Result<LedgerView, ErrorView>,
) -> Result<(PathView, EntryView), ErrorView> {
    match key {
        Err(e) => Err(ErrorView::Io { path: Some(named), source: e }),
        Ok(source) => match ledger {
            Err(e) => Err(e),
            Ok(l) => match l.found(source) {
                None => Err(
                    ErrorView::Ledger(
                        "台账里没有 "@ + source.display()
                            + " 的迁移记录。`cshl list` 可查看全部记录。"@,
                    ),
                ),
                Some(entry) => if entry.state == State::Inflight {
                    Err(
                        ErrorView::Ledger(
                            source.display()
                                + " 的上一次迁移没有正常结束，不能自动还原。请手动检查 "@
                                + source.display() + " 与 "@ + entry.target.display()
                                + " 两处确认数据在哪一头。"@,
                        ),
                    )
                } else {
                    Ok((source, entry))
                },
            },
        },
    }
}

/// The contents of a ledger that was read.
pub open spec fn ledger_view(l: Result<Ledger, Error>) -> Result<LedgerView, ErrorView> {
    match l {
        Ok(l) => Ok(l@),
        Err(e) => Err(e@),
    }
}

/// Finds the entry to move back by. `key` is what the ledger knows the place by.
pub fn choose_entry(
    named: &PathBuf,
    key: Result<PathBuf, IoFault>,
    ledger: Result<Ledger, Error>,
) -> (r: Result<(PathBuf, Entry), Error>)
    ensures
        match r {
            Ok((source, entry)) => chosen(
                named@,
                crate::link::read_view(key),
                ledger_view(ledger),
            ) == Ok::<(PathView, EntryView), ErrorView>((source@, entry@)),
            Err(e) => chosen(named@, crate::link::read_view(key), ledger_view(ledger)) == Err::<
                (PathView, EntryView),
                ErrorView,
            >(e@),
        },
{
    let source = match key {
        Ok(s) => s,
        Err(e) => {
            return Err(Error::io(named.clone(), e));
        },
    };
    let ledger = match ledger {
        Ok(l) => l,
        Err(e) => {
            return Err(e);
        },
    };
    let shown = source.display();
    match find(&ledger, &source) {
        None => {
            let mut why = cat("台账里没有 ", shown.as_str());
            why.append(" 的迁移记录。`cshl list` 可查看全部记录。");
            Err(Error::Ledger(why))
        },
        Some(entry) => {
            if entry.state == State::Inflight {
                let mut why = cat(
                    shown.as_str(),
                    " 的上一次迁移没有正常结束，不能自动还原。请手动检查 ",
                );
                why.append(shown.as_str());
                why.append(" 与 ");
                why.append(entry.target.display().as_str());
                why.append(" 两处确认数据在哪一头。");
                Err(Error::Ledger(why))
            } else {
                Ok((source, entry))
            }
        },
    }
}

/// How far a move back has got. Each state says what is to be done next.
#[derive(Debug, PartialEq, Eq)]
pub enum RestoreState {
    /// See whether a link is at the place.
    Look,
    /// Take it away.
    Unlink,
    /// Try to rename.
    Rename,
    /// Transfer the data.
    Transfer(Transfer),
    /// Put the link back.
    Relink(Error),
    /// Repoint the link that led to the place.
    Repoint(Outcome),
    /// Take the move out of the ledger.
    Forget(Outcome),
    Over(Result<Outcome, Error>),
}

/// The contents of a [`RestoreState`].
pub enum RestoreView {
    Look,
    Unlink,
    Rename,
    Transfer(TransferView),
    Relink(ErrorView),
    Repoint(Outcome),
    Forget(Outcome),
    Over(Result<Outcome, ErrorView>),
}

impl View for RestoreState {
    type V = RestoreView;

    open spec fn view(&self) -> RestoreView {
        match *self {
            RestoreState::Look => RestoreView::Look,
            RestoreState::Unlink => RestoreView::Unlink,
            RestoreState::Rename => RestoreView::Rename,
            RestoreState::Transfer(t) => RestoreView::Transfer(t.state@),
            RestoreState::Relink(e) => RestoreView::Relink(e@),
            RestoreState::Repoint(o) => RestoreView::Repoint(o),
            RestoreState::Forget(o) => RestoreView::Forget(o),
            RestoreState::Over(r) => RestoreView::Over(
                match r {
                    Ok(o) => Ok(o),
                    Err(e) => Err(e@),
                },
            ),
        }
    }
}

/// What came of a step of a move back.
#[derive(Debug, PartialEq, Eq)]
pub enum RestoreEvent {
    Looked(Result<Option<LinkKind>, IoFault>),
    Tried(Option<IoFault>),
    Transferred(TransferEvent),
    /// A link was made, or could not be.
    Linked(Result<LinkKind, IoFault>),
    /// The ledger was changed, or could not be.
    Entered(Option<Error>),
}

/// The contents of a [`RestoreEvent`].
pub enum RestoreEventView {
    Looked(Result<Option<LinkKind>, FaultView>),
    Tried(Option<FaultView>),
    Transferred(TransferEventView),
    Linked(Result<LinkKind, FaultView>),
    Entered(Option<ErrorView>),
}

impl View for RestoreEvent {
    type V = RestoreEventView;

    open spec fn view(&self) -> RestoreEventView {
        match *self {
            RestoreEvent::Looked(r) => RestoreEventView::Looked(
                match r {
                    Ok(k) => Ok(k),
                    Err(e) => Err(e@),
                },
            ),
            RestoreEvent::Tried(f) => RestoreEventView::Tried(opt_fault(f)),
            RestoreEvent::Transferred(t) => RestoreEventView::Transferred(t@),
            RestoreEvent::Linked(r) => RestoreEventView::Linked(kind_view(r)),
            RestoreEvent::Entered(e) => RestoreEventView::Entered(opt_error(e)),
        }
    }
}

/// What does not change in the course of a move back.
#[derive(Debug, PartialEq, Eq)]
pub struct RestoreOrder {
    /// What was moved.
    pub source: PathBuf,
    /// Where the data is.
    pub target: PathBuf,
    /// Where it goes: to the source, or to what the source led to.
    pub restore_to: PathBuf,
    /// Whether the source was a link before the move.
    pub was_link: bool,
    pub pid: u32,
    pub system: System,
    pub numbers: Errnos,
}

/// What is the same all through a move back.
pub struct RestoreOrderView {
    pub source: PathView,
    pub target: PathView,
    pub restore_to: PathView,
    pub tmp: PathView,
    pub was_link: bool,
    pub system: System,
    pub numbers: Errnos,
}

impl View for RestoreOrder {
    type V = RestoreOrderView;

    open spec fn view(&self) -> RestoreOrderView {
        RestoreOrderView {
            source: self.source@,
            target: self.target@,
            restore_to: self.restore_to@,
            tmp: crate::copy::partial(self.restore_to@, self.pid),
            was_link: self.was_link,
            system: self.system,
            numbers: self.numbers,
        }
    }
}

/// A move back.
#[derive(Debug, PartialEq, Eq)]
pub struct Restore {
    pub order: RestoreOrder,
    /// Whether the link was taken away.
    pub unlinked: bool,
    pub state: RestoreState,
}

/// How far a move back has got.
pub struct RestoreRunView {
    pub unlinked: bool,
    pub state: RestoreView,
}

impl View for Restore {
    type V = RestoreRunView;

    open spec fn view(&self) -> RestoreRunView {
        RestoreRunView { unlinked: self.unlinked, state: self.state@ }
    }
}

/// The state in which a move back ends with an error, once the link is back.
pub open spec fn relinking(unlinked: bool, e: ErrorView) -> RestoreView {
    if unlinked {
        RestoreView::Relink(e)
    } else {
        RestoreView::Over(Err(e))
    }
}

/// The state once the data is back.
pub open spec fn settling(was_link: bool, o: Outcome) -> RestoreView {
    if was_link {
        RestoreView::Repoint(o)
    } else {
        RestoreView::Forget(o)
    }
}

/// How far a move back has got once `event` came. One that does not fit is ignored.
pub open spec fn restore_after(
    o: RestoreOrderView,
    m: RestoreRunView,
    event: RestoreEventView,
) -> RestoreRunView {
    match (m.state, event) {
        (RestoreView::Look, RestoreEventView::Looked(r)) => RestoreRunView {
            state: match r {
                Ok(Some(_)) => RestoreView::Unlink,
                Ok(None) => RestoreView::Over(
                    Err(
                        ErrorView::InvalidPath {
                            path: o.source,
                            reason: "这个位置不是一个链接，不像是 cshl 迁移的结果"@,
                        },
                    ),
                ),
                Err(e) => RestoreView::Over(Err(ErrorView::Io { path: Some(o.source), source: e })),
            },
            ..m
        },
        (RestoreView::Unlink, RestoreEventView::Tried(f)) => match f {
            None => RestoreRunView { unlinked: true, state: RestoreView::Rename },
            Some(e) => RestoreRunView {
                state: RestoreView::Over(Err(ErrorView::Io { path: Some(o.source), source: e })),
                ..m
            },
        },
        (RestoreView::Rename, RestoreEventView::Tried(f)) => RestoreRunView {
            state: match f {
                None => settling(o.was_link, renamed()),
                Some(e) => if crosses(o.system, o.numbers, e.code) {
                    RestoreView::Transfer(TransferView::Scan)
                } else {
                    relinking(m.unlinked, ErrorView::Io { path: Some(o.target), source: e })
                },
            },
            ..m
        },
        (RestoreView::Transfer(t), RestoreEventView::Transferred(x)) => RestoreRunView {
            state: match transfer_after(o.restore_to, o.tmp, t, x) {
                TransferView::Over(Ok(outcome)) => settling(o.was_link, outcome),
                TransferView::Over(Err(e)) => if landed(e) {
                    RestoreView::Over(Err(e))
                } else {
                    relinking(m.unlinked, e)
                },
                t2 => RestoreView::Transfer(t2),
            },
            ..m
        },
        (RestoreView::Relink(e), RestoreEventView::Linked(_)) => RestoreRunView {
            state: RestoreView::Over(Err(e)),
            ..m
        },
        (RestoreView::Repoint(outcome), RestoreEventView::Linked(r)) => RestoreRunView {
            state: match r {
                Ok(_) => RestoreView::Forget(outcome),
                Err(e) => RestoreView::Over(
                    Err(incomplete(o.source, "链接改指失败: "@ + e.text)),
                ),
            },
            ..m
        },
        (RestoreView::Forget(outcome), RestoreEventView::Entered(x)) => RestoreRunView {
            state: match x {
                None => RestoreView::Over(Ok(outcome)),
                Some(e) => RestoreView::Over(Err(incomplete(o.source, e.message()))),
            },
            ..m
        },
        _ => m,
    }
}

/// One thing to do in a move back.
#[derive(Debug, PartialEq, Eq)]
pub enum RestoreAction {
    /// See what kind of link is at a place.
    Look { at: PathBuf },
    /// Remove a link.
    Unlink { at: PathBuf },
    /// Rename, but never over what is there.
    Rename { from: PathBuf, to: PathBuf },
    Transfer(TransferAction),
    /// Make a link, or repoint the one that is there.
    Link { repoint: bool, link: PathBuf, target: PathBuf, preferred: LinkType },
    /// Take a move out of the ledger.
    Forget { source: PathBuf },
}

/// The contents of a [`RestoreAction`].
pub enum RestoreActionView {
    Look { at: PathView },
    Unlink { at: PathView },
    Rename { from: PathView, to: PathView },
    Transfer(TransferActionView),
    Link { repoint: bool, link: PathView, target: PathView, preferred: LinkType },
    Forget { source: PathView },
}

impl View for RestoreAction {
    type V = RestoreActionView;

    open spec fn view(&self) -> RestoreActionView {
        match *self {
            RestoreAction::Look { at } => RestoreActionView::Look { at: at@ },
            RestoreAction::Unlink { at } => RestoreActionView::Unlink { at: at@ },
            RestoreAction::Rename { from, to } => RestoreActionView::Rename {
                from: from@,
                to: to@,
            },
            RestoreAction::Transfer(a) => RestoreActionView::Transfer(a@),
            RestoreAction::Link { repoint, link, target, preferred } => RestoreActionView::Link {
                repoint,
                link: link@,
                target: target@,
                preferred,
            },
            RestoreAction::Forget { source } => RestoreActionView::Forget { source: source@ },
        }
    }
}

impl Restore {
    /// That the books fit.
    pub open spec fn wf(self) -> bool {
        self.state matches RestoreState::Transfer(t) ==> t.from@ == self.order.target@ && t.to@
            == self.order.restore_to@ && t.tmp@ == self.order@.tmp && !(t.state is Over)
    }

    /// What is to be done next.
    pub open spec fn wants(self) -> Option<RestoreActionView> {
        let o = self.order@;
        match self.state {
            RestoreState::Look => Some(RestoreActionView::Look { at: o.source }),
            RestoreState::Unlink => Some(RestoreActionView::Unlink { at: o.source }),
            RestoreState::Rename => Some(
                RestoreActionView::Rename { from: o.target, to: o.restore_to },
            ),
            RestoreState::Transfer(t) => match t.wants() {
                Some(a) => Some(RestoreActionView::Transfer(a)),
                None => None,
            },
            RestoreState::Relink(_) => Some(
                RestoreActionView::Link {
                    repoint: false,
                    link: o.source,
                    target: o.target,
                    preferred: LinkType::Junction,
                },
            ),
            RestoreState::Repoint(_) => Some(
                RestoreActionView::Link {
                    repoint: true,
                    link: o.source,
                    target: o.restore_to,
                    preferred: LinkType::Junction,
                },
            ),
            RestoreState::Forget(_) => Some(RestoreActionView::Forget { source: o.source }),
            RestoreState::Over(_) => None,
        }
    }

    /// What is to be done next.
    pub fn action(&self) -> (r: Option<RestoreAction>)
        ensures
            match r {
                Some(a) => self.wants() == Some(a@),
                None => self.wants() is None,
            },
    {
        let o = &self.order;
        match &self.state {
            RestoreState::Look => Some(RestoreAction::Look { at: o.source.clone() }),
            RestoreState::Unlink => Some(RestoreAction::Unlink { at: o.source.clone() }),
            RestoreState::Rename => Some(
                RestoreAction::Rename { from: o.target.clone(), to: o.restore_to.clone() },
            ),
            RestoreState::Transfer(t) => match t.action() {
                Some(a) => Some(RestoreAction::Transfer(a)),
                None => None,
            },
            RestoreState::Relink(_) => Some(
                RestoreAction::Link {
                    repoint: false,
                    link: o.source.clone(),
                    target: o.target.clone(),
                    preferred: LinkType::Junction,
                },
            ),
            RestoreState::Repoint(_) => Some(
                RestoreAction::Link {
                    repoint: true,
                    link: o.source.clone(),
                    target: o.restore_to.clone(),
                    preferred: LinkType::Junction,
                },
            ),
            RestoreState::Forget(_) => Some(RestoreAction::Forget { source: o.source.clone() }),
            RestoreState::Over(_) => None,
        }
    }

    /// Goes on once what was to be done was tried.
    pub fn step(self, event: RestoreEvent) -> (r: Restore)
        requires
            self.wf(),
        ensures
            r.wf(),
            r.order == self.order,
            r@ == restore_after(self.order@, self@, event@),
    {
        let ghost before = self;
        let Restore { order, unlinked, state } = self;
        let mut unlinked = unlinked;
        let state = match (state, event) {
            (RestoreState::Look, RestoreEvent::Looked(r)) => match r {
                Ok(Some(_)) => RestoreState::Unlink,
                Ok(None) => RestoreState::Over(
                    Err(
                        Error::invalid(
                            order.source.clone(),
                            "这个位置不是一个链接，不像是 cshl 迁移的结果".to_owned(),
                        ),
                    ),
                ),
                Err(e) => RestoreState::Over(Err(Error::io(order.source.clone(), e))),
            },
            (RestoreState::Unlink, RestoreEvent::Tried(f)) => match f {
                None => {
                    unlinked = true;
                    RestoreState::Rename
                },
                Some(e) => RestoreState::Over(Err(Error::io(order.source.clone(), e))),
            },
            (RestoreState::Rename, RestoreEvent::Tried(f)) => match f {
                None => {
                    let o = Outcome { same_volume: true, bytes: 0, files: 0, dirs: 0 };
                    if order.was_link {
                        RestoreState::Repoint(o)
                    } else {
                        RestoreState::Forget(o)
                    }
                },
                Some(e) => {
                    if is_cross_device(order.system, &order.numbers, &e) {
                        RestoreState::Transfer(
                            transfer(order.target.clone(), order.restore_to.clone(), order.pid),
                        )
                    } else {
                        let e = Error::io(order.target.clone(), e);
                        if unlinked {
                            RestoreState::Relink(e)
                        } else {
                            RestoreState::Over(Err(e))
                        }
                    }
                },
            },
            (RestoreState::Transfer(t), RestoreEvent::Transferred(x)) => {
                let t = t.step(x);
                match t.state {
                    TransferState::Over(Ok(o)) => {
                        if order.was_link {
                            RestoreState::Repoint(o)
                        } else {
                            RestoreState::Forget(o)
                        }
                    },
                    TransferState::Over(Err(e)) => {
                        if e.exit_code() == 3 || !unlinked {
                            RestoreState::Over(Err(e))
                        } else {
                            RestoreState::Relink(e)
                        }
                    },
                    _ => RestoreState::Transfer(t),
                }
            },
            (RestoreState::Relink(e), RestoreEvent::Linked(_)) => RestoreState::Over(Err(e)),
            (RestoreState::Repoint(o), RestoreEvent::Linked(r)) => match r {
                Ok(_) => RestoreState::Forget(o),
                Err(e) => RestoreState::Over(
                    Err(
                        Error::Incomplete {
                            path: order.source.clone(),
                            reason: cat("链接改指失败: ", e.text.as_str()),
                        },
                    ),
                ),
            },
            (RestoreState::Forget(o), RestoreEvent::Entered(x)) => match x {
                None => RestoreState::Over(Ok(o)),
                Some(e) => RestoreState::Over(
                    Err(
                        Error::Incomplete {
                            path: order.source.clone(),
                            reason: e.to_string(),
                        },
                    ),
                ),
            },
            (state, _) => state,
        };
        let r = Restore { order, unlinked, state };
        assert(r@ == restore_after(before.order@, before@, event@));
        r
    }
}

/// What a move back begins with: what to show, where only that is asked for, or the
/// move.
#[derive(Debug, PartialEq, Eq)]
pub enum RestoreStart {
    Preview(Vec<String>),
    Go(Restore),
}

/// What is shown of a move back where only that is asked for.
pub open spec fn restore_preview(
    source: PathView,
    target: PathView,
    restore_to: PathView,
    was_link: bool,
) -> Seq<Seq<char>> {
    seq![
        "预演模式 —— 不会做任何改动\n"@,
        "  将把 "@ + target.display() + " 搬回 "@ + restore_to.display(),
        if was_link {
            "  并把链接 "@ + source.display() + " 改指回 "@ + restore_to.display()
        } else {
            "  并删除 "@ + source.display() + " 处的链接"@
        },
    ]
}

fn preview(source: &PathBuf, target: &PathBuf, restore_to: &PathBuf, was_link: bool) -> (r: Vec<
    String,
>)
    ensures
        lines_view(r@) == restore_preview(source@, target@, restore_to@, was_link),
{
    let mut lines: Vec<String> = Vec::new();
    push_line(&mut lines, "预演模式 —— 不会做任何改动\n".to_owned());
    let mut back = cat("  将把 ", target.display().as_str());
    back.append(" 搬回 ");
    back.append(restore_to.display().as_str());
    push_line(&mut lines, back);
    if was_link {
        let mut link = cat("  并把链接 ", source.display().as_str());
        link.append(" 改指回 ");
        link.append(restore_to.display().as_str());
        push_line(&mut lines, link);
    } else {
        let mut link = cat("  并删除 ", source.display().as_str());
        link.append(" 处的链接");
        push_line(&mut lines, link);
    }
    lines
}

/// Where the data of an entry goes back to.
pub open spec fn way_back(source: PathView, entry: EntryView) -> PathView {
    match entry.original_real_path {
        Some(p) => p,
        None => source,
    }
}

/// The contents of a [`RestoreStart`].
pub enum RestoreStartView {
    Preview(Seq<Seq<char>>),
    /// Where the data goes, whether a link is to be repointed, and what is done first.
    Go { restore_to: PathView, was_link: bool, state: RestoreView },
}

/// What moving `source` back by an entry begins with, or why it is refused.
pub open spec fn back_started(
    dry_run: bool,
    source: PathView,
    entry: EntryView,
    target_is_dir: bool,
) -> Result<RestoreStartView, ErrorView> {
    let back = way_back(source, entry);
    let was_link = entry.original_real_path is Some;
    if !target_is_dir {
        Err(
            ErrorView::InvalidPath {
                path: entry.target,
                reason: "数据所在的目标目录已不存在，无法还原"@,
            },
        )
    } else if dry_run {
        Ok(RestoreStartView::Preview(restore_preview(source, entry.target, back, was_link)))
    } else {
        Ok(
            RestoreStartView::Go {
                restore_to: back,
                was_link,
                state: if back == source {
                    RestoreView::Look
                } else {
                    RestoreView::Rename
                },
            },
        )
    }
}

/// The contents of what a move back begins with.
pub open spec fn back_start_view(r: Result<RestoreStart, Error>) -> Result<
    RestoreStartView,
    ErrorView,
> {
    match r {
        Ok(RestoreStart::Preview(lines)) => Ok(RestoreStartView::Preview(lines_view(lines@))),
        Ok(RestoreStart::Go(m)) => Ok(
            RestoreStartView::Go {
                restore_to: m.order.restore_to@,
                was_link: m.order.was_link,
                state: m.state@,
            },
        ),
        Err(e) => Err(e@),
    }
}

/// Begins a move back by an entry of the ledger, where its data is there.
///
/// Where only a preview is asked for, nothing that would be done is begun.
pub fn run_restore(
    args: &RestoreArgs,
    source: PathBuf,
    entry: Entry,
    target_is_dir: bool,
    pid: u32,
    system: System,
    numbers: Errnos,
) -> (r: Result<RestoreStart, Error>)
    ensures
        ({
            let back = way_back(source@, entry@);
            let was_link = entry@.original_real_path is Some;
            if !target_is_dir {
                r matches Err(e) && e@ == (ErrorView::InvalidPath {
                    path: entry@.target,
                    reason: "数据所在的目标目录已不存在，无法还原"@,
                })
            } else if args.dry_run {
                r matches Ok(RestoreStart::Preview(lines)) && lines_view(lines@) == restore_preview(
                    source@,
                    entry@.target,
                    back,
                    was_link,
                )
            } else {
                &&& r matches Ok(RestoreStart::Go(m))
                &&& m.wf()
                &&& m.order.source == source
                &&& m.order.target@ == entry@.target
                &&& m.order.restore_to@ == back
                &&& m.order.was_link == was_link
                &&& m.order.pid == pid
                &&& m.order.system == system
                &&& m.order.numbers == numbers
                &&& !m.unlinked
                &&& m.state == if back == source@ {
                    RestoreState::Look
                } else {
                    RestoreState::Rename
                }
            }
        }),
        back_start_view(r) == back_started(args.dry_run, source@, entry@, target_is_dir),
        r matches Ok(RestoreStart::Go(m)) ==> m.order.source@ == source@ && m.order.target@
            == entry@.target && !m.unlinked,
{
    let Entry { target, original_real_path, .. } = entry;
    if !target_is_dir {
        return Err(Error::invalid(target, "数据所在的目标目录已不存在，无法还原".to_owned()));
    }
    let was_link = original_real_path.is_some();
    let restore_to = match original_real_path {
        Some(p) => p,
        None => source.clone(),
    };
    if args.dry_run {
        return Ok(RestoreStart::Preview(preview(&source, &target, &restore_to, was_link)));
    }
    let state = if restore_to.same(&source) {
        RestoreState::Look
    } else {
        RestoreState::Rename
    };
    let order = RestoreOrder { source, target, restore_to, was_link, pid, system, numbers };
    Ok(RestoreStart::Go(Restore { order, unlinked: false, state }))
}

/// How many threads a move back uses: as many as were asked for, or by the cores.
pub fn restore_threads(asked: Option<usize>, cores: usize) -> (r: usize)
    ensures
        r == match asked {
            Some(n) => n as int,
            None => copy_threads(cores as int),
        },
{
    match asked {
        Some(n) => n,
        None => crate::migrate::default_copy_threads(cores),
    }
}

/// Whether `after` is where the data may be once what a move back asks for was tried.
/// What it is moved from is the source here.
pub open spec fn data_back(
    w: Whereabouts,
    s: RestoreView,
    event: RestoreEventView,
    after: Whereabouts,
) -> bool {
    match (s, event) {
        (RestoreView::Rename, RestoreEventView::Tried(None)) => after == (Whereabouts {
            source: Contents::empty(),
            target: w.source,
            ..w
        }),
        (RestoreView::Transfer(t), RestoreEventView::Transferred(x)) => moved_by(w, t, x, after),
        _ => after == w,
    }
}

/// What holds of the data `whole` in a state of a move back.
pub open spec fn restore_safe(whole: Contents, w: Whereabouts, s: RestoreView) -> bool {
    match s {
        RestoreView::Transfer(t) => data_safe(whole, w, t),
        RestoreView::Relink(e) => w.source == whole && bare(w.target) && !landed(e),
        RestoreView::Repoint(_) => w.target == whole && w.source == Contents::empty(),
        RestoreView::Forget(_) => w.target == whole && w.source == Contents::empty(),
        RestoreView::Over(Ok(_)) => w.target == whole && w.source == Contents::empty(),
        RestoreView::Over(Err(e)) => if landed(e) {
            is_split(whole, w.source, w.target)
        } else {
            w.source == whole && bare(w.target)
        },
        _ => w.source == whole && bare(w.target),
    }
}

/// A move back begins with the data where the move took it.
pub proof fn law_restore_begins(w: Whereabouts, looks: bool)
    requires
        bare(w.target),
    ensures
        restore_safe(
            w.source,
            w,
            if looks {
                RestoreView::Look
            } else {
                RestoreView::Rename
            },
        ),
{
}

/// All the data is at one of the two places at every moment of a move back, as it was,
/// and the answer of the process says at which.
pub proof fn law_restore_is_safe(
    o: RestoreOrderView,
    whole: Contents,
    w: Whereabouts,
    m: RestoreRunView,
    event: RestoreEventView,
    after: Whereabouts,
)
    requires
        restore_safe(whole, w, m.state),
        data_back(w, m.state, event, after),
        event matches RestoreEventView::Transferred(TransferEventView::Scanned(Err(e)))
            ==> !landed(e),
    ensures
        w.source == whole || is_split(whole, w.source, w.target),
        restore_safe(whole, after, restore_after(o, m, event).state),
{
    if let (RestoreView::Transfer(t), RestoreEventView::Transferred(x)) = (m.state, event) {
        crate::transfer::law_transfer_is_safe(whole, w, o.restore_to, o.tmp, t, x, after);
    }
}

/// What holds of the link that was taken away: it is put back, or that is tried,
/// before a move back ends with its data still where it was.
pub open spec fn link_kept(m: RestoreRunView, relinked: bool) -> bool {
    match m.state {
        RestoreView::Look => !m.unlinked,
        RestoreView::Unlink => !m.unlinked,
        RestoreView::Over(Err(e)) => m.unlinked && !landed(e) ==> relinked,
        _ => true,
    }
}

/// Whether it was tried to put the link back.
pub open spec fn relinked_after(relinked: bool, s: RestoreView, event: RestoreEventView) -> bool {
    relinked || (s is Relink && event is Linked)
}

/// A link that was taken away is put back, or that is tried, before a move back ends
/// with its data still where it was.
pub proof fn law_link_is_put_back(
    o: RestoreOrderView,
    m: RestoreRunView,
    relinked: bool,
    event: RestoreEventView,
)
    requires
        link_kept(m, relinked),
    ensures
        link_kept(restore_after(o, m, event), relinked_after(relinked, m.state, event)),
{
}

/// The ledger forgets a move only once its data is back, and a move back that went
/// well is forgotten.
pub proof fn law_forgotten_last(
    o: RestoreOrderView,
    whole: Contents,
    w: Whereabouts,
    m: RestoreRunView,
    event: RestoreEventView,
    outcome: Outcome,
)
    requires
        restore_safe(whole, w, m.state),
        !(m.state is Over),
        restore_after(o, m, event).state == RestoreView::Over(Ok(outcome)),
    ensures
        w.target == whole,
        m.state == RestoreView::Forget(outcome),
        event == RestoreEventView::Entered(None),
{
}

/// Whether `after` is what link may be at the source once what a move back asks for was
/// tried. Where a link could not be placed, nothing is said of what is there.
pub open spec fn link_back(
    o: RestoreOrderView,
    link: Option<LinkView>,
    s: RestoreView,
    event: RestoreEventView,
    after: Option<LinkView>,
) -> bool {
    match (s, event) {
        (RestoreView::Unlink, RestoreEventView::Tried(None)) => after is None,
        (RestoreView::Relink(_), RestoreEventView::Linked(r)) => r matches Ok(kind) ==> after
            == Some(LinkView { kind, target: o.target }),
        (RestoreView::Repoint(_), RestoreEventView::Linked(r)) => r matches Ok(kind) ==> after
            == Some(LinkView { kind, target: o.restore_to }),
        _ => after == link,
    }
}

/// What holds of the link at the source in a state of a move back that began with
/// looking for it or not: a link that was taken away is away, and where the source was a
/// link before the move, it leads where it did once the data is back.
pub open spec fn link_home(
    o: RestoreOrderView,
    looks: bool,
    m: RestoreRunView,
    link: Option<LinkView>,
) -> bool {
    let away = looks ==> m.unlinked && link is None;
    let back = link matches Some(l) && l.target == o.restore_to;
    match m.state {
        RestoreView::Look => looks,
        RestoreView::Unlink => looks,
        RestoreView::Rename => away,
        RestoreView::Transfer(_) => away,
        RestoreView::Repoint(_) => o.was_link,
        RestoreView::Forget(_) => if o.was_link {
            back
        } else {
            away
        },
        RestoreView::Over(Ok(_)) => if o.was_link {
            back
        } else {
            away
        },
        _ => true,
    }
}

/// What is known of the world in the course of a move back.
pub struct Return {
    pub data: Whereabouts,
    /// What link is at the source.
    pub link: Option<LinkView>,
    /// Whether the ledger still knows the move.
    pub known: bool,
    /// Whether it was tried to put the link back.
    pub relinked: bool,
    pub at: RestoreRunView,
}

/// What came of a step of a move back: what was answered, where the data then is, and
/// what link is at the source.
pub struct TurnBack {
    pub event: RestoreEventView,
    pub data: Whereabouts,
    pub link: Option<LinkView>,
}

/// The world once what was asked for was tried.
pub open spec fn turned_back(o: RestoreOrderView, c: Return, t: TurnBack) -> Return {
    Return {
        data: t.data,
        link: t.link,
        known: c.known && !(c.at.state is Forget && t.event == RestoreEventView::Entered(None)),
        relinked: relinked_after(c.relinked, c.at.state, t.event),
        at: restore_after(o, c.at, t.event),
    }
}

/// Whether this may come of the step that a move back is at.
pub open spec fn may_turn_back(o: RestoreOrderView, c: Return, t: TurnBack) -> bool {
    &&& t.event matches RestoreEventView::Transferred(TransferEventView::Scanned(Err(e)))
        ==> !landed(e)
    &&& data_back(c.data, c.at.state, t.event, t.data)
    &&& link_back(o, c.link, c.at.state, t.event, t.link)
}

/// The world once all of `turns` have come, one after the other.
pub open spec fn homeward(o: RestoreOrderView, c: Return, turns: Seq<TurnBack>) -> Return
    decreases turns.len(),
{
    if turns.len() == 0 {
        c
    } else {
        turned_back(o, homeward(o, c, turns.drop_last()), turns.last())
    }
}

/// Whether all of `turns` may come, one after the other.
pub open spec fn may_happen_back(o: RestoreOrderView, c: Return, turns: Seq<TurnBack>) -> bool
    decreases turns.len(),
{
    turns.len() > 0 ==> may_happen_back(o, c, turns.drop_last()) && may_turn_back(
        o,
        homeward(o, c, turns.drop_last()),
        turns.last(),
    )
}

/// Whatever comes of the steps of a move back, and wherever it stops: all the data is
/// at one of the two places, as it was. Where it is over, its answer says at which; the
/// ledger forgets the move just where it went well, and then the link is gone, or leads
/// back where the source was a link; and where the data is where it was, the link that
/// was taken away was put back, or that was tried.
pub proof fn law_every_restore(
    o: RestoreOrderView,
    c: Return,
    looks: bool,
    turns: Seq<TurnBack>,
)
    requires
        bare(c.data.target),
        c.known,
        !c.at.unlinked,
        c.at.state == if looks {
            RestoreView::Look
        } else {
            RestoreView::Rename
        },
        may_happen_back(o, c, turns),
    ensures
        ({
            let end = homeward(o, c, turns);
            let whole = c.data.source;
            &&& end.data.source == whole || is_split(whole, end.data.source, end.data.target)
            &&& restore_safe(whole, end.data, end.at.state)
            &&& link_kept(end.at, end.relinked)
            &&& link_home(o, looks, end.at, end.link)
            &&& end.known <==> !(end.at.state matches RestoreView::Over(Ok(_)))
        }),
    decreases turns.len(),
{
    if turns.len() > 0 {
        let less = turns.drop_last();
        law_every_restore(o, c, looks, less);
        let before = homeward(o, c, less);
        let t = turns.last();
        law_restore_is_safe(o, c.data.source, before.data, before.at, t.event, t.data);
        law_link_is_put_back(o, before.at, before.relinked, t.event);
    }
}

/// How many steps a move back takes at most from here.
pub open spec fn restore_rank(s: RestoreView) -> nat {
    match s {
        RestoreView::Look => 14,
        RestoreView::Unlink => 13,
        RestoreView::Rename => 12,
        RestoreView::Transfer(t) => 3 + transfer_rank(t),
        RestoreView::Repoint(_) => 2,
        RestoreView::Forget(_) => 1,
        RestoreView::Relink(_) => 1,
        RestoreView::Over(_) => 0,
    }
}

/// Whether an event is one that a state waits for.
pub open spec fn restore_fits(s: RestoreView, event: RestoreEventView) -> bool {
    match s {
        RestoreView::Look => event is Looked,
        RestoreView::Transfer(t) => event matches RestoreEventView::Transferred(x)
            && crate::transfer::fits(t, x),
        RestoreView::Relink(_) => event is Linked,
        RestoreView::Repoint(_) => event is Linked,
        RestoreView::Forget(_) => event is Entered,
        RestoreView::Over(_) => false,
        _ => event is Tried,
    }
}

/// A move back ends.
pub proof fn law_restore_ends(o: RestoreOrderView, m: RestoreRunView, event: RestoreEventView)
    requires
        restore_fits(m.state, event),
    ensures
        restore_rank(restore_after(o, m, event).state) < restore_rank(m.state),
{
    if let (RestoreView::Transfer(t), RestoreEventView::Transferred(x)) = (m.state, event) {
        crate::transfer::law_transfer_ends(o.restore_to, o.tmp, t, x);
    }
}

/// Moving a directory and moving it back: the entry that a move leaves in the ledger
/// sends the data to where it was, and takes away or repoints the link that the move
/// left.
pub proof fn law_restore_undoes_move(
    job: crate::job::JobView,
    moved_at: Seq<char>,
    done: crate::ledger::CompletionView,
)
    requires
        job.source_was_link is None ==> job.real_source == job.source,
    ensures
        ({
            let entry = crate::migrate::first_entry(job, moved_at).completed(done);
            &&& entry.target == job.target
            &&& entry.state == State::Done
            &&& way_back(job.source, entry) == job.real_source
            &&& entry.original_real_path is Some <==> job.source_was_link is Some
        }),
{
}

/// A move that went well, followed by a move back that did, gives back what was there:
/// the data is where it was, with all that was in it as it was, and nothing is where it
/// was moved to; the source is the directory again, with no link, or a link to the
/// directory that it led to; and the ledger does not know the move.
pub proof fn law_there_and_back(
    job: crate::job::JobView,
    moved_at: Seq<char>,
    o: crate::migrate::MoveOrderView,
    c: crate::migrate::Course,
    clear: bool,
    turns: Seq<crate::migrate::Turn>,
    outcome: Outcome,
    kind: Option<crate::platform::LinkKind>,
    r: RestoreOrderView,
    b: Return,
    back: Seq<TurnBack>,
    returned: Outcome,
)
    requires
        job.source_was_link is None ==> job.real_source == job.source,
        o.source == job.source,
        o.real_source == job.real_source,
        o.target == job.target,
        o.entry == crate::migrate::first_entry(job, moved_at),
        bare(c.data.target),
        c.at.made == 0,
        c.at.state == crate::migrate::first_state(clear, c.at.parents),
        crate::migrate::may_happen(o, c, turns),
        crate::migrate::course(o, c, turns).at.state == crate::migrate::MoveView::Over(
            Ok((outcome, kind)),
        ),
        crate::migrate::course(o, c, turns).entry matches Some(entry) && {
            &&& r.source == entry.source
            &&& r.target == entry.target
            &&& r.restore_to == way_back(entry.source, entry)
            &&& r.was_link == (entry.original_real_path is Some)
        },
        b.data.source == crate::migrate::course(o, c, turns).data.target,
        b.data.target == crate::migrate::course(o, c, turns).data.source,
        b.link == crate::migrate::course(o, c, turns).link,
        b.known,
        !b.at.unlinked,
        b.at.state == if r.restore_to == r.source {
            RestoreView::Look
        } else {
            RestoreView::Rename
        },
        may_happen_back(r, b, back),
        homeward(r, b, back).at.state == RestoreView::Over(Ok(returned)),
    ensures
        r.restore_to == job.real_source,
        r.target == job.target,
        homeward(r, b, back).data.target == c.data.source,
        homeward(r, b, back).data.source == Contents::empty(),
        !homeward(r, b, back).known,
        match job.source_was_link {
            None => homeward(r, b, back).link is None,
            Some(_) => homeward(r, b, back).link matches Some(l) && l.target == job.real_source,
        },
{
    crate::migrate::law_every_move(o, c, clear, turns);
    law_restore_undoes_move(job, moved_at, crate::migrate::completion(outcome, kind));
    law_every_restore(r, b, r.restore_to == r.source, back);
}

/// Whether a move back has come to no failure.
pub open spec fn is_well(s: RestoreView) -> bool {
    match s {
        RestoreView::Transfer(t) => crate::transfer::is_well(t) || t is Undo,
        RestoreView::Relink(_) => false,
        RestoreView::Over(Err(_)) => false,
        _ => true,
    }
}

/// Whether what a state asked for went well. A link of any kind is one, and that a
/// directory cannot be renamed to another volume is no failure: it is copied then.
pub open spec fn went_well(o: RestoreOrderView, s: RestoreView, event: RestoreEventView) -> bool {
    match (s, event) {
        (RestoreView::Rename, RestoreEventView::Tried(Some(e))) => crosses(
            o.system,
            o.numbers,
            e.code,
        ),
        (RestoreView::Transfer(t), RestoreEventView::Transferred(x)) => crate::transfer::went_well(
            t,
            x,
        ) || (crate::transfer::is_well(t) && (t is Copy || t is Land)),
        (_, RestoreEventView::Looked(r)) => r matches Ok(k) && k is Some,
        (_, RestoreEventView::Tried(f)) => f is None,
        (_, RestoreEventView::Entered(x)) => x is None,
        (_, RestoreEventView::Linked(r)) => r is Ok,
        _ => false,
    }
}

/// A move back fails just where something that it asked for did, or where its transfer
/// did, once what that copied was removed. In particular it is refused at the look only
/// where no link is there, whatever kind of link that is.
pub proof fn law_restore_goes_well(o: RestoreOrderView, m: RestoreRunView, event: RestoreEventView)
    requires
        is_well(m.state),
        restore_fits(m.state, event),
        m.state matches RestoreView::Transfer(t) ==> !(t is Over),
    ensures
        is_well(restore_after(o, m, event).state) <==> went_well(o, m.state, event),
{
    if let (RestoreView::Transfer(t), RestoreEventView::Transferred(x)) = (m.state, event) {
        if crate::transfer::is_well(t) {
            crate::transfer::law_transfer_goes_well(o.restore_to, o.tmp, t, x);
            if !crate::transfer::went_well(t, x) {
                crate::transfer::law_transfer_tells_what_failed(o.restore_to, o.tmp, t, x);
            }
        }
    }
}

/// What is asked for in the course of a move back, one thing after the other: the link is
/// looked for and taken away, the data comes back, a link that was there before the move
/// is repointed, and the ledger forgets the move.
pub proof fn law_restore_in_turn(o: RestoreOrderView, m: RestoreRunView, event: RestoreEventView)
    requires
        is_well(m.state),
        restore_fits(m.state, event),
        went_well(o, m.state, event),
    ensures
        ({
            let next = restore_after(o, m, event);
            let back = if o.was_link {
                next.state is Repoint
            } else {
                next.state is Forget
            };
            &&& m.state is Look ==> next.state is Unlink
            &&& m.state is Unlink ==> next.state is Rename
            &&& next.unlinked <==> m.unlinked || m.state is Unlink
            &&& m.state is Rename && event == RestoreEventView::Tried(None) ==> back
            &&& m.state is Rename && event != RestoreEventView::Tried(None) ==> next.state
                == RestoreView::Transfer(TransferView::Scan)
            &&& m.state is Transfer ==> next.state is Transfer || back
            &&& m.state matches RestoreView::Repoint(outcome) ==> next.state
                == RestoreView::Forget(outcome)
            &&& m.state matches RestoreView::Forget(outcome) ==> next.state == RestoreView::Over(
                Ok(outcome),
            )
        }),
{
}

/// How far a move back has got once all of `events` came.
pub open spec fn restored_by(
    o: RestoreOrderView,
    m: RestoreRunView,
    events: Seq<RestoreEventView>,
) -> RestoreRunView
    decreases events.len(),
{
    if events.len() == 0 {
        m
    } else {
        restore_after(o, restored_by(o, m, events.drop_last()), events.last())
    }
}

/// A move back whose steps all go well, for a link of whichever kind, ends well, in a
/// limited number of steps.
#[verifier::spinoff_prover]
#[verifier::rlimit(40)]
pub proof fn law_restore_ends_well(
    o: RestoreOrderView,
    m: RestoreRunView,
    events: Seq<RestoreEventView>,
)
    requires
        m.state is Look || m.state is Rename,
        forall|i: int|
            #![trigger events[i]]
            0 <= i < events.len() ==> ({
                let at = restored_by(o, m, events.take(i)).state;
                restore_fits(at, events[i]) && went_well(o, at, events[i]) && !(at matches
                    RestoreView::Transfer(t) && !(crate::transfer::went_well(
                    t,
                    events[i]->Transferred_0,
                )))
            }),
    ensures
        is_well(restored_by(o, m, events).state),
        restored_by(o, m, events).state matches RestoreView::Transfer(t)
            ==> crate::transfer::is_well(t) && !(t is Over),
        events.len() + restore_rank(restored_by(o, m, events).state) <= 14,
        restored_by(o, m, events).state is Over ==> (restored_by(o, m, events).state matches
            RestoreView::Over(Ok(_))),
    decreases events.len(),
{
    if events.len() > 0 {
        let n = events.len() - 1;
        let less = events.drop_last();
        assert forall|i: int| #![trigger less[i]] 0 <= i < less.len() implies ({
            let at = restored_by(o, m, less.take(i)).state;
            restore_fits(at, less[i]) && went_well(o, at, less[i]) && !(at matches
                RestoreView::Transfer(t) && !(crate::transfer::went_well(
                t,
                less[i]->Transferred_0,
            )))
        }) by {
            assert(less[i] == events[i]);
            assert(less.take(i) =~= events.take(i));
        }
        law_restore_ends_well(o, m, less);
        assert(events.take(n) =~= less);
        assert(events[n] == events.last());
        let b = restored_by(o, m, less);
        law_restore_goes_well(o, b, events.last());
        law_restore_ends(o, b, events.last());
        if let (RestoreView::Transfer(t), RestoreEventView::Transferred(x)) = (
            b.state,
            events.last(),
        ) {
            crate::transfer::law_transfer_goes_well(o.restore_to, o.tmp, t, x);
        }
    }
}

/// The error that a move back has come to.
pub open spec fn error_of(s: RestoreView) -> Option<ErrorView> {
    match s {
        RestoreView::Relink(e) => Some(e),
        RestoreView::Over(Err(e)) => Some(e),
        _ => None,
    }
}

/// A move back that fails tells what failed: that no link is there, what the system said,
/// with the place that it was about, what the transfer did, what the ledger said, or that
/// the link could not be repointed. From then on that stays what is told. A link that was
/// taken away is put back unless the data came back.
pub proof fn law_restore_tells_what_failed(
    o: RestoreOrderView,
    m: RestoreRunView,
    event: RestoreEventView,
)
    requires
        restore_fits(m.state, event),
        m.state matches RestoreView::Transfer(t) ==> !(t is Over),
        !is_well(m.state) || !went_well(o, m.state, event),
    ensures
        ({
            let next = restore_after(o, m, event).state;
            &&& error_of(next) is Some
            &&& !is_well(m.state) ==> error_of(next) == error_of(m.state)
            &&& is_well(m.state) ==> {
                let e = error_of(next)->0;
                match event {
                    RestoreEventView::Looked(r) => match r {
                        Ok(_) => e matches ErrorView::InvalidPath { path, .. } && path == o.source,
                        Err(f) => e == (ErrorView::Io { path: Some(o.source), source: f }),
                    },
                    RestoreEventView::Tried(f) => e == (ErrorView::Io {
                        path: Some(
                            if m.state is Unlink {
                                o.source
                            } else {
                                o.target
                            },
                        ),
                        source: f->0,
                    }),
                    RestoreEventView::Entered(x) => e matches ErrorView::Incomplete { path, reason }
                        && path == o.source && reason == (x->0).message(),
                    RestoreEventView::Linked(r) => e matches ErrorView::Incomplete { path, reason }
                        && path == o.source && holds(reason, (r->Err_0).text),
                    RestoreEventView::Transferred(_) => true,
                }
            }
            &&& m.state is Rename || m.state is Transfer ==> (next is Relink <==> m.unlinked
                && !landed(error_of(next)->0) || (m.state is Rename && m.unlinked))
        }),
{
    if let RestoreEventView::Linked(Err(f)) = event {
        crate::text::lemma_holds("链接改指失败: "@, f.text, Seq::empty());
        assert("链接改指失败: "@ + f.text + Seq::<char>::empty() =~= "链接改指失败: "@ + f.text);
    }
    if let (RestoreView::Transfer(t), RestoreEventView::Transferred(x)) = (m.state, event) {
        if crate::transfer::is_well(t) {
            crate::transfer::law_transfer_goes_well(o.restore_to, o.tmp, t, x);
        }
    }
}

/// What a move back asks for: it looks for the link and takes it away where the user named
/// it, brings the data from where it was moved to where it was, puts back a link to where
/// it is, or repoints it to where it was, and takes the move out of the ledger by the name
/// that it was entered under.
pub proof fn law_restore_asks(m: Restore)
    ensures
        m.state is Over ==> m.wants() is None,
        m.wants() is None ==> m.state is Over || m.state is Transfer,
        m.state is Look ==> m.wants() == Some(RestoreActionView::Look { at: m.order.source@ }),
        m.state is Unlink ==> m.wants() == Some(RestoreActionView::Unlink { at: m.order.source@ }),
        m.state is Rename ==> m.wants() == Some(
            RestoreActionView::Rename { from: m.order.target@, to: m.order.restore_to@ },
        ),
        m.state is Relink ==> (m.wants() matches Some(
            RestoreActionView::Link { repoint, link, target, preferred },
        ) && !repoint && link == m.order.source@ && target == m.order.target@ && preferred
            == LinkType::Junction),
        m.state is Repoint ==> (m.wants() matches Some(
            RestoreActionView::Link { repoint, link, target, preferred },
        ) && repoint && link == m.order.source@ && target == m.order.restore_to@ && preferred
            == LinkType::Junction),
        m.state is Forget ==> m.wants() == Some(
            RestoreActionView::Forget { source: m.order.source@ },
        ),
        m.state matches RestoreState::Transfer(t) ==> (t.wants() matches Some(a) ==> m.wants()
            == Some(RestoreActionView::Transfer(a))),
{
}

/// A move is moved back by what the ledger holds under its name, if it ended. What is
/// refused was not found out, is not in the ledger, or did not end.
pub proof fn law_chosen_is_in_the_ledger(
    named: PathView,
    key: Result<PathView, FaultView>,
    ledger: Result<LedgerView, ErrorView>,
)
    ensures
        match chosen(named, key, ledger) {
            Ok((source, entry)) => key == Ok::<PathView, FaultView>(source) && ledger is Ok
                && entry.state == State::Done && entry.source == source && (
            ledger->Ok_0).entries.contains(entry),
            Err(e) => match (key, ledger) {
                (Err(f), _) => e == (ErrorView::Io { path: Some(named), source: f }),
                (_, Err(x)) => e == x,
                (Ok(source), Ok(l)) => e is Ledger && (forall|i: int|
                    0 <= i < l.entries.len() && (#[trigger] l.entries[i]).source == source
                        && l.entries[i].state == State::Done ==> exists|j: int|
                        0 <= j < i && (#[trigger] l.entries[j]).source == source),
            },
        },
{
    if let (Ok(source), Ok(l)) = (key, ledger) {
        crate::ledger::law_found_is_first(l, source);
    }
}

/// A move back is refused at first just where the data is not there any more. It is shown,
/// and nothing begun, just where that is asked for. The data goes to where it was: to the
/// source, from which the link is taken away first, or to where the source led, whose link
/// is then repointed.
pub proof fn law_restore_starts(
    dry_run: bool,
    source: PathView,
    entry: EntryView,
    target_is_dir: bool,
)
    ensures
        match back_started(dry_run, source, entry, target_is_dir) {
            Err(e) => !target_is_dir && (e matches ErrorView::InvalidPath { path, .. } && path
                == entry.target),
            Ok(RestoreStartView::Preview(lines)) => target_is_dir && dry_run && lines.len() == 3
                && holds(lines[1], entry.target.display()) && holds(
                lines[1],
                way_back(source, entry).display(),
            ) && holds(lines[2], source.display()),
            Ok(RestoreStartView::Go { restore_to, was_link, state }) => {
                &&& target_is_dir && !dry_run
                &&& entry.original_real_path is None ==> restore_to == source && !was_link && state
                    is Look
                &&& entry.original_real_path matches Some(p) ==> restore_to == p && was_link && (p
                    != source ==> state is Rename)
            },
        },
{
    let back = way_back(source, entry);
    let was_link = entry.original_real_path is Some;
    let lines = restore_preview(source, entry.target, back, was_link);
    let a = "  将把 "@;
    lemma_holds_at(lines[1], entry.target.display(), a.len() as int);
    lemma_holds_at(lines[1], back.display(), lines[1].len() - back.display().len());
    if was_link {
        lemma_holds_at(lines[2], source.display(), "  并把链接 "@.len() as int);
    } else {
        lemma_holds_at(lines[2], source.display(), "  并删除 "@.len() as int);
    }
}

/// What a move back goes by all through is what it was ordered.
pub proof fn law_order_is_kept(m: RestoreOrder)
    ensures
        m@.source == m.source@ && m@.target == m.target@ && m@.restore_to == m.restore_to@,
        m@.tmp == crate::copy::partial(m.restore_to@, m.pid),
        m@.was_link == m.was_link && m@.system == m.system && m@.numbers == m.numbers,
{
}

/// What came of a step is decided on as it came.
pub proof fn law_answers_are_seen(e: RestoreEvent)
    ensures
        match e {
            RestoreEvent::Looked(Ok(k)) => e@ == RestoreEventView::Looked(Ok(k)),
            RestoreEvent::Looked(Err(f)) => e@ == RestoreEventView::Looked(Err(f@)),
            RestoreEvent::Tried(None) => e@ == RestoreEventView::Tried(None),
            RestoreEvent::Tried(Some(f)) => e@ == RestoreEventView::Tried(Some(f@)),
            RestoreEvent::Transferred(t) => e@ == RestoreEventView::Transferred(t@),
            RestoreEvent::Linked(Ok(k)) => e@ == RestoreEventView::Linked(Ok(k)),
            RestoreEvent::Linked(Err(f)) => e@ == RestoreEventView::Linked(Err(f@)),
            RestoreEvent::Entered(None) => e@ == RestoreEventView::Entered(None),
            RestoreEvent::Entered(Some(x)) => e@ == RestoreEventView::Entered(Some(x@)),
        },
{
}

} // verus!
