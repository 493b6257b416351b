//! What the systems differ in.

use vstd::prelude::*;

use crate::error::FaultKind;
use crate::error::FaultView;
use crate::error::IoFault;
use crate::path::PathBuf;
use crate::path::PathView;
use crate::path::Style;
use crate::platform::unix::Errnos;

pub mod unix;
pub mod windows;

verus! {

/// What a directory entry is.
///
/// `Symlink` stands for what is really a link: a symbolic link, or a junction.
/// Other reparse points of Windows are files or directories.
#[derive(Debug, Clone, Copy, PartialEq, Eq, Structural)]
pub enum EntryKind {
    File,
    Dir,
    Symlink,
}

/// A directory entry.
#[derive(Debug, PartialEq, Eq)]
pub struct DirEntryInfo {
    pub name: Vec<u8>,
    pub kind: EntryKind,
    /// The size of a file, 0 for anything else.
    pub size: u64,
    /// What names the file on its system, only where it has several names.
    pub hardlink_id: Option<(u64, u64)>,
}

/// The contents of a [`DirEntryInfo`].
#[verifier::ext_equal]
pub struct InfoView {
    pub name: Seq<u8>,
    pub kind: EntryKind,
    pub size: u64,
    pub hardlink_id: Option<(u64, u64)>,
}

impl View for DirEntryInfo {
    type V = InfoView;

    open spec fn view(&self) -> InfoView {
        InfoView {
            name: self.name@,
            kind: self.kind,
            size: self.size,
            hardlink_id: self.hardlink_id,
        }
    }
}

/// What kind of link something is.
///
/// There are only symbolic links but on Windows, where junctions are preferred:
/// they take no special rights.
#[derive(Debug, Clone, Copy, PartialEq, Eq, Structural)]
pub enum LinkKind {
    Symlink,
    Junction,
}

impl LinkKind {
    /// What the kind is called.
    pub open spec fn name(self) -> Seq<char> {
        match self {
            LinkKind::Symlink => "symlink"@,
            LinkKind::Junction => "junction"@,
        }
    }

    /// What the kind is called.
    pub fn to_string(&self) -> (r: String)
        ensures
            r@ == self.name(),
    {
        match self {
            LinkKind::Symlink => "symlink".to_owned(),
            LinkKind::Junction => "junction".to_owned(),
        }
    }
}

/// The system that the program runs on.
#[derive(Debug, Clone, Copy, PartialEq, Eq, Structural)]
pub enum System {
    Linux,
    MacOs,
    OtherUnix,
    Windows,
}

impl System {
    /// How paths are written.
    pub open spec fn spec_style(self) -> Style {
        match self {
            System::Windows => Style::Windows,
            _ => Style::Unix,
        }
    }

    /// How paths are written.
    pub fn style(&self) -> (r: Style)
        ensures
            r == self.spec_style(),
    {
        match self {
            System::Windows => Style::Windows,
            _ => Style::Unix,
        }
    }
}

/// Whether a call failed because two paths are not on one volume.
pub open spec fn crosses(system: System, numbers: Errnos, code: Option<i32>) -> bool {
    match system {
        System::Windows => code == Some(windows::ERROR_NOT_SAME_DEVICE),
        _ => code == Some(numbers.cross_device),
    }
}

/// Whether a call failed because two paths are not on one volume.
///
/// This alone decides whether a move is a rename: a rename is tried, and its
/// answer looked at.
pub fn is_cross_device(system: System, numbers: &Errnos, e: &IoFault) -> (r: bool)
    ensures
        r == crosses(system, *numbers, e.code),
{
    match system {
        System::Windows => windows::is_cross_device(e),
        _ => unix::is_cross_device(e, numbers),
    }
}

/// A path in the form to be kept, to be shown and to be written into links.
pub open spec fn plain(p: PathView) -> PathView {
    match p.style {
        Style::Unix => p,
        Style::Windows => windows::stripped(p),
    }
}

/// Brings a path into the form to be kept, to be shown and to be written into
/// links.
pub fn strip_verbatim(path: &PathBuf) -> (r: PathBuf)
    ensures
        r@ == plain(path@),
{
    match path.style {
        Style::Unix => path.clone(),
        Style::Windows => windows::strip_verbatim(path),
    }
}

/// What kind of link something is on Unix.
pub fn link_kind(is_symlink: bool) -> (r: Option<LinkKind>)
    ensures
        r == if is_symlink {
            Some(LinkKind::Symlink)
        } else {
            None
        },
        r is Some <==> is_symlink,
{
    if is_symlink {
        Some(LinkKind::Symlink)
    } else {
        None
    }
}

/// The next thing to do in a rename that never replaces what is there.
#[derive(Debug, PartialEq, Eq)]
pub enum RenameStep {
    /// Ask the system for a rename that replaces nothing.
    Exclusive,
    /// Look whether something is there.
    Probe,
    /// Ask for a rename.
    Plain,
    /// It is over, with this fault where there is one.
    Over(Option<IoFault>),
}

/// What came of a step of a rename.
#[derive(Debug, PartialEq, Eq)]
pub enum RenameEvent {
    /// A rename was tried.
    Tried(Option<IoFault>),
    /// It was looked whether something is there.
    Probed(bool),
}

/// The contents of a [`RenameStep`].
pub enum RenameStepView {
    Exclusive,
    Probe,
    Plain,
    Over(Option<FaultView>),
}

/// The contents of an outcome.
pub open spec fn opt_fault(f: Option<IoFault>) -> Option<FaultView> {
    match f {
        Some(f) => Some(f@),
        None => None,
    }
}

impl View for RenameStep {
    type V = RenameStepView;

    open spec fn view(&self) -> RenameStepView {
        match *self {
            RenameStep::Exclusive => RenameStepView::Exclusive,
            RenameStep::Probe => RenameStepView::Probe,
            RenameStep::Plain => RenameStepView::Plain,
            RenameStep::Over(f) => RenameStepView::Over(opt_fault(f)),
        }
    }
}

/// The contents of a [`RenameEvent`].
pub enum RenameEventView {
    Tried(Option<FaultView>),
    Probed(bool),
}

impl View for RenameEvent {
    type V = RenameEventView;

    open spec fn view(&self) -> RenameEventView {
        match *self {
            RenameEvent::Tried(f) => RenameEventView::Tried(opt_fault(f)),
            RenameEvent::Probed(b) => RenameEventView::Probed(b),
        }
    }
}

/// Whether the system says by `code` that it has no rename that replaces nothing.
pub open spec fn lacks_exclusive(system: System, numbers: Errnos, code: Option<i32>) -> bool {
    match system {
        System::Linux => code == Some(numbers.not_implemented) || code == Some(numbers.invalid)
            || code == Some(numbers.not_supported),
        System::MacOs => code == Some(numbers.invalid) || code == Some(numbers.not_supported),
        System::OtherUnix => false,
        System::Windows => false,
    }
}

/// The fault that something is there already.
pub open spec fn taken_fault() -> FaultView {
    FaultView { kind: FaultKind::AlreadyExists, code: None, text: "目标已存在"@ }
}

/// The step of a rename behind `step`. An event that does not fit is ignored.
pub open spec fn rename_after(
    system: System,
    numbers: Errnos,
    step: RenameStepView,
    event: RenameEventView,
) -> RenameStepView {
    match (step, event) {
        (RenameStepView::Exclusive, RenameEventView::Tried(f)) => match f {
            Some(e) => if lacks_exclusive(system, numbers, e.code) {
                RenameStepView::Probe
            } else {
                RenameStepView::Over(Some(e))
            },
            None => RenameStepView::Over(None),
        },
        (RenameStepView::Probe, RenameEventView::Probed(there)) => if there {
            RenameStepView::Over(Some(taken_fault()))
        } else {
            RenameStepView::Plain
        },
        (RenameStepView::Plain, RenameEventView::Tried(f)) => RenameStepView::Over(f),
        _ => step,
    }
}

/// The step that a rename begins with.
pub open spec fn rename_begun(system: System) -> RenameStepView {
    if system == System::OtherUnix {
        RenameStepView::Probe
    } else {
        RenameStepView::Exclusive
    }
}

/// Begins a rename that never replaces what is there. The kernel sees to that
/// where it can.
pub fn rename_no_replace(system: System) -> (r: RenameStep)
    ensures
        r@ == rename_begun(system),
        r@ == if system == System::OtherUnix {
            RenameStepView::Probe
        } else {
            RenameStepView::Exclusive
        },
{
    match system {
        System::OtherUnix => RenameStep::Probe,
        _ => RenameStep::Exclusive,
    }
}

fn lacks_it(system: System, numbers: &Errnos, code: Option<i32>) -> (r: bool)
    ensures
        r == lacks_exclusive(system, *numbers, code),
{
    match code {
        Some(c) => match system {
            System::Linux => c == numbers.not_implemented || c == numbers.invalid || c
                == numbers.not_supported,
            System::MacOs => c == numbers.invalid || c == numbers.not_supported,
            System::OtherUnix => false,
            System::Windows => false,
        },
        None => false,
    }
}

/// Goes on with a rename.
pub fn rename_next(system: System, numbers: &Errnos, step: RenameStep, event: RenameEvent) -> (r:
    RenameStep)
    ensures
        r@ == rename_after(system, *numbers, step@, event@),
{
    match (step, event) {
        (RenameStep::Exclusive, RenameEvent::Tried(f)) => match f {
            Some(e) => {
                if lacks_it(system, numbers, e.code) {
                    RenameStep::Probe
                } else {
                    RenameStep::Over(Some(e))
                }
            },
            None => RenameStep::Over(None),
        },
        (RenameStep::Probe, RenameEvent::Probed(there)) => {
            if there {
                RenameStep::Over(
                    Some(
                        IoFault {
                            kind: FaultKind::AlreadyExists,
                            code: None,
                            text: "目标已存在".to_owned(),
                        },
                    ),
                )
            } else {
                RenameStep::Plain
            }
        },
        (RenameStep::Plain, RenameEvent::Tried(f)) => RenameStep::Over(f),
        (step, _) => step,
    }
}

/// A rename that could replace something is asked for only where it was just seen
/// that nothing is there.
pub proof fn law_never_replaces(
    system: System,
    numbers: Errnos,
    step: RenameStepView,
    event: RenameEventView,
)
    ensures
        rename_after(system, numbers, step, event) is Plain && !(step is Plain) ==> step is Probe
            && event == RenameEventView::Probed(false),
{
}

/// A rename that failed because two paths are not on one volume, or because
/// something is there, says so: it is not tried in another way. This is what the
/// numbers have to tell errors apart for.
pub proof fn law_rename_tells_why(system: System, numbers: Errnos, e: FaultView)
    requires
        numbers.told_apart(),
        crosses(system, numbers, e.code) || e.code == Some(numbers.exists),
    ensures
        rename_after(
            system,
            numbers,
            RenameStepView::Exclusive,
            RenameEventView::Tried(Some(e)),
        ) == RenameStepView::Over(Some(e)),
{
}

/// The next thing to do in copying a file.
#[derive(Debug, PartialEq, Eq)]
pub enum CopyStep {
    /// Open the file, and make the new one, which must not be there.
    Open,
    /// Let the two share their blocks.
    Clone,
    /// Let the kernel copy.
    Range,
    /// Take over mode and times.
    Attributes,
    /// Empty the new file and remove it.
    Discard,
    /// Read and write, into a new file, which must not be there.
    Buffered,
    /// Use the one call that the system has for all of it.
    Native,
    /// It is over, with this fault where there is one.
    Over(Option<IoFault>),
}

/// The contents of a [`CopyStep`].
pub enum CopyStepView {
    Open,
    Clone,
    Range,
    Attributes,
    Discard,
    Buffered,
    Native,
    Over(Option<FaultView>),
}

impl View for CopyStep {
    type V = CopyStepView;

    open spec fn view(&self) -> CopyStepView {
        match *self {
            CopyStep::Open => CopyStepView::Open,
            CopyStep::Clone => CopyStepView::Clone,
            CopyStep::Range => CopyStepView::Range,
            CopyStep::Attributes => CopyStepView::Attributes,
            CopyStep::Discard => CopyStepView::Discard,
            CopyStep::Buffered => CopyStepView::Buffered,
            CopyStep::Native => CopyStepView::Native,
            CopyStep::Over(f) => CopyStepView::Over(opt_fault(f)),
        }
    }
}

/// The step of copying a file of `size` bytes behind `step`.
pub open spec fn copy_after(
    system: System,
    numbers: Errnos,
    size: u64,
    step: CopyStepView,
    fault: Option<FaultView>,
) -> CopyStepView {
    match step {
        CopyStepView::Open => match fault {
            Some(e) => CopyStepView::Over(Some(e)),
            None => CopyStepView::Clone,
        },
        CopyStepView::Clone => if fault is None {
            CopyStepView::Attributes
        } else if size > 0 {
            CopyStepView::Range
        } else {
            CopyStepView::Discard
        },
        CopyStepView::Range => if fault is None {
            CopyStepView::Attributes
        } else {
            CopyStepView::Discard
        },
        CopyStepView::Attributes => CopyStepView::Over(fault),
        CopyStepView::Discard => match fault {
            Some(e) => CopyStepView::Over(Some(e)),
            None => CopyStepView::Buffered,
        },
        CopyStepView::Buffered => CopyStepView::Over(fault),
        CopyStepView::Native => match fault {
            Some(e) => if system == System::MacOs && e.code != Some(numbers.exists) {
                CopyStepView::Buffered
            } else {
                CopyStepView::Over(Some(e))
            },
            None => CopyStepView::Over(None),
        },
        CopyStepView::Over(f) => CopyStepView::Over(f),
    }
}

/// The step that copying a file begins with.
pub open spec fn copy_begun(system: System) -> CopyStepView {
    match system {
        System::Linux => CopyStepView::Open,
        System::MacOs => CopyStepView::Native,
        System::OtherUnix => CopyStepView::Buffered,
        System::Windows => CopyStepView::Native,
    }
}

/// Begins to copy a file, by the fastest way that the system has.
pub fn copy_file(system: System) -> (r: CopyStep)
    ensures
        r@ == copy_begun(system),
        r@ == match system {
            System::Linux => CopyStepView::Open,
            System::MacOs => CopyStepView::Native,
            System::OtherUnix => CopyStepView::Buffered,
            System::Windows => CopyStepView::Native,
        },
{
    match system {
        System::Linux => CopyStep::Open,
        System::MacOs => CopyStep::Native,
        System::OtherUnix => CopyStep::Buffered,
        System::Windows => CopyStep::Native,
    }
}

/// Goes on with copying a file.
pub fn copy_next(
    system: System,
    numbers: &Errnos,
    size: u64,
    step: CopyStep,
    fault: Option<IoFault>,
) -> (r: CopyStep)
    ensures
        r@ == copy_after(system, *numbers, size, step@, opt_fault(fault)),
{
    match step {
        CopyStep::Open => match fault {
            Some(e) => CopyStep::Over(Some(e)),
            None => CopyStep::Clone,
        },
        CopyStep::Clone => {
            if fault.is_none() {
                CopyStep::Attributes
            } else if size > 0 {
                CopyStep::Range
            } else {
                CopyStep::Discard
            }
        },
        CopyStep::Range => {
            if fault.is_none() {
                CopyStep::Attributes
            } else {
                CopyStep::Discard
            }
        },
        CopyStep::Attributes => CopyStep::Over(fault),
        CopyStep::Discard => match fault {
            Some(e) => CopyStep::Over(Some(e)),
            None => CopyStep::Buffered,
        },
        CopyStep::Buffered => CopyStep::Over(fault),
        CopyStep::Native => match fault {
            Some(e) => {
                let there = match e.code {
                    Some(c) => c == numbers.exists,
                    None => false,
                };
                if system == System::MacOs && !there {
                    CopyStep::Buffered
                } else {
                    CopyStep::Over(Some(e))
                }
            },
            None => CopyStep::Over(None),
        },
        CopyStep::Over(f) => CopyStep::Over(f),
    }
}

/// How many steps copying a file takes at most from here.
pub open spec fn copy_rank(step: CopyStepView) -> nat {
    match step {
        CopyStepView::Open => 6,
        CopyStepView::Native => 6,
        CopyStepView::Clone => 5,
        CopyStepView::Range => 4,
        CopyStepView::Discard => 3,
        CopyStepView::Buffered => 2,
        CopyStepView::Attributes => 2,
        CopyStepView::Over(_) => 0,
    }
}

/// Copying a file ends, and it ends well only where some way of copying did.
pub proof fn law_copy_file_ends(
    system: System,
    numbers: Errnos,
    size: u64,
    step: CopyStepView,
    fault: Option<FaultView>,
)
    ensures
        !(step is Over) ==> copy_rank(copy_after(system, numbers, size, step, fault)) < copy_rank(
            step,
        ),
        !(step is Over) && copy_after(system, numbers, size, step, fault) == CopyStepView::Over(
            None,
        ) ==> fault is None && (step is Attributes || step is Buffered || step is Native),
        copy_after(system, numbers, size, step, fault) is Attributes ==> fault is None && (
        step is Clone || step is Range),
{
}

/// That a step of copying a file that holds `content` may find `before` where the copy
/// is to be, `None` where nothing is, and leave `after` there. No step writes to the file
/// that is copied.
pub open spec fn step_leaves(
    content: Seq<u8>,
    step: CopyStepView,
    before: Option<Seq<u8>>,
    fault: Option<FaultView>,
    after: Option<Seq<u8>>,
) -> bool {
    match step {
        CopyStepView::Open => if fault is None {
            before is None && after == Some(Seq::<u8>::empty())
        } else {
            after == before
        },
        CopyStepView::Clone => after is Some && (fault is None ==> after == Some(content)),
        CopyStepView::Range => after is Some && (fault is None ==> after == Some(content)),
        CopyStepView::Attributes => after == before,
        CopyStepView::Discard => true,
        CopyStepView::Buffered => if fault is None {
            before is None && after == Some(content)
        } else {
            before is Some ==> after == before
        },
        CopyStepView::Native => if fault is None {
            before is None && after == Some(content)
        } else {
            before is Some ==> after == before
        },
        CopyStepView::Over(_) => after == before,
    }
}

/// What holds on the way, where `first` was where the copy is to be and `now` is.
pub open spec fn copy_holds(
    content: Seq<u8>,
    first: Option<Seq<u8>>,
    step: CopyStepView,
    now: Option<Seq<u8>>,
) -> bool {
    match step {
        CopyStepView::Open => now == first,
        CopyStepView::Native => now == first,
        CopyStepView::Clone => first is None,
        CopyStepView::Range => first is None,
        CopyStepView::Discard => first is None,
        CopyStepView::Attributes => first is None && now == Some(content),
        CopyStepView::Buffered => first is Some ==> now == first,
        CopyStepView::Over(None) => first is None && now == Some(content),
        CopyStepView::Over(Some(_)) => first is Some ==> now == first,
    }
}

/// The step that copying a file is at once the system has answered with all of `faults`.
pub open spec fn copy_at(
    system: System,
    numbers: Errnos,
    size: u64,
    begun: CopyStepView,
    faults: Seq<Option<FaultView>>,
) -> CopyStepView
    decreases faults.len(),
{
    if faults.len() == 0 {
        begun
    } else {
        copy_after(
            system,
            numbers,
            size,
            copy_at(system, numbers, size, begun, faults.drop_last()),
            faults.last(),
        )
    }
}

/// A file that was copied holds the whole of what it was copied from, whatever size
/// that was said to have. Where something was there already, copying fails and that is
/// left as it was.
#[verifier::spinoff_prover]
#[verifier::rlimit(40)]
pub proof fn law_copy_file_is_whole(
    system: System,
    numbers: Errnos,
    size: u64,
    begun: CopyStepView,
    content: Seq<u8>,
    faults: Seq<Option<FaultView>>,
    there: Seq<Option<Seq<u8>>>,
)
    requires
        begun is Open || begun is Native || begun is Buffered,
        there.len() == faults.len() + 1,
        forall|i: int|
            #![trigger faults[i]]
            0 <= i < faults.len() ==> step_leaves(
                content,
                copy_at(system, numbers, size, begun, faults.take(i)),
                there[i],
                faults[i],
                there[i + 1],
            ),
    ensures
        copy_holds(content, there[0], copy_at(system, numbers, size, begun, faults), there.last()),
        copy_at(system, numbers, size, begun, faults) == CopyStepView::Over(None) ==> there[0]
            is None && there.last() == Some(content),
        there[0] is Some && copy_at(system, numbers, size, begun, faults) is Over
            ==> there.last() == there[0] && copy_at(system, numbers, size, begun, faults)
            != CopyStepView::Over(None),
    decreases faults.len(),
{
    if faults.len() > 0 {
        let rest = faults.drop_last();
        let seen = there.drop_last();
        let n = faults.len() - 1;
        assert forall|i: int| #![trigger rest[i]] 0 <= i < rest.len() implies step_leaves(
            content,
            copy_at(system, numbers, size, begun, rest.take(i)),
            seen[i],
            rest[i],
            seen[i + 1],
        ) by {
            assert(rest[i] == faults[i]);
            assert(rest.take(i) =~= faults.take(i));
        }
        law_copy_file_is_whole(system, numbers, size, begun, content, rest, seen);
        assert(faults.take(n) =~= rest);
        assert(faults[n] == faults.last());
        assert(seen.last() == there[n]);
    }
}

/// Copying ends as the last thing that was asked for did: well where that went well, and
/// else with its fault. Once the bytes are there, by whichever way, it ends well; where
/// the kernel copied them, mode and times are taken over before that.
pub proof fn law_copying_ends_as_it_went(
    system: System,
    numbers: Errnos,
    size: u64,
    step: CopyStepView,
    fault: Option<FaultView>,
)
    ensures
        ({
            let next = copy_after(system, numbers, size, step, fault);
            let then = copy_after(system, numbers, size, next, None);
            &&& step is Over ==> next == step
            &&& !(step is Over) && next is Over ==> next == CopyStepView::Over(fault)
            &&& fault is None && (step is Attributes || step is Buffered || step is Native)
                ==> next == CopyStepView::Over(None)
            &&& fault is None && (step is Clone || step is Range) ==> next is Attributes && then
                == CopyStepView::Over(None)
        }),
{
}

/// A way of copying that fails leads on to the next one: the kernel is asked where blocks
/// cannot be shared and there is something to copy, and reading and writing is what is
/// left, on macOS as well unless a file is in the way. Only where the new file could not
/// be made, or not be removed, or where the system has one way, is it over.
pub proof fn law_copying_falls_back(
    system: System,
    numbers: Errnos,
    size: u64,
    step: CopyStepView,
    fault: FaultView,
)
    ensures
        ({
            let next = copy_after(system, numbers, size, step, Some(fault));
            &&& step is Clone ==> (next is Range <==> size > 0)
            &&& (step is Clone && size == 0) || step is Range ==> copy_after(
                system,
                numbers,
                size,
                next,
                None,
            ) is Buffered
            &&& step is Native && system == System::MacOs ==> (next is Over <==> fault.code
                == Some(numbers.exists)) && (!(next is Over) ==> next is Buffered)
            &&& step is Native && system != System::MacOs ==> next is Over
            &&& step is Open || step is Discard || step is Attributes || step is Buffered
                ==> next is Over
        }),
{
}

/// The first step is one that makes the new file. Where the system has one call for all
/// of it, that is used; on Linux the new file is made for the kernel to fill.
pub proof fn law_copying_begins(system: System)
    ensures
        copy_begun(system) is Native <==> system == System::MacOs || system == System::Windows,
        copy_begun(system) is Open <==> system == System::Linux,
        copy_begun(system) is Open || copy_begun(system) is Native || copy_begun(
            system,
        ) is Buffered,
{
}

/// Wherever copying is, it ends well in a few steps if all that is asked for goes well.
pub proof fn law_copying_can_end_well(
    system: System,
    numbers: Errnos,
    size: u64,
    begun: CopyStepView,
    faults: Seq<Option<FaultView>>,
)
    requires
        !(begun is Over),
        faults.len() >= 3,
        forall|i: int| 0 <= i < faults.len() ==> #[trigger] faults[i] is None,
    ensures
        copy_at(system, numbers, size, begun, faults) == CopyStepView::Over(None),
    decreases faults.len(),
{
    let a = faults.drop_last();
    assert(faults.last() is None);
    if faults.len() > 3 {
        law_copying_can_end_well(system, numbers, size, begun, a);
    } else {
        let b = a.drop_last();
        let c = b.drop_last();
        assert(a.last() == faults[1] && b.last() == faults[0]);
        assert(c =~= Seq::<Option<FaultView>>::empty());
        assert(copy_at(system, numbers, size, begun, c) == begun);
        assert(copy_at(system, numbers, size, begun, b) == copy_after(
            system,
            numbers,
            size,
            begun,
            None,
        ));
    }
}

/// Whether a step that takes something away again, or leaves nothing where it fails, did
/// so.
pub open spec fn cleans_up(
    step: CopyStepView,
    before: Option<Seq<u8>>,
    fault: Option<FaultView>,
    after: Option<Seq<u8>>,
) -> bool {
    &&& step is Discard && fault is None ==> after is None
    &&& step is Native && fault is Some ==> after == before
}

/// No step that makes a new file, which must not be there, is asked for while there is
/// one that an earlier step made: each of them finds what was there at first. So where
/// nothing was there, none fails for that.
#[verifier::spinoff_prover]
#[verifier::rlimit(40)]
pub proof fn law_copying_makes_one_file(
    system: System,
    numbers: Errnos,
    size: u64,
    begun: CopyStepView,
    content: Seq<u8>,
    faults: Seq<Option<FaultView>>,
    there: Seq<Option<Seq<u8>>>,
)
    requires
        begun is Open || begun is Native || begun is Buffered,
        there.len() == faults.len() + 1,
        forall|i: int|
            #![trigger faults[i]]
            0 <= i < faults.len() ==> step_leaves(
                content,
                copy_at(system, numbers, size, begun, faults.take(i)),
                there[i],
                faults[i],
                there[i + 1],
            ) && cleans_up(
                copy_at(system, numbers, size, begun, faults.take(i)),
                there[i],
                faults[i],
                there[i + 1],
            ),
    ensures
        ({
            let at = copy_at(system, numbers, size, begun, faults);
            &&& at is Open || at is Native || at is Buffered ==> there.last() == there[0]
            &&& at is Clone || at is Range || at is Discard || at is Attributes ==> there[0]
                is None && (there.last() is Some)
        }),
    decreases faults.len(),
{
    if faults.len() > 0 {
        let rest = faults.drop_last();
        let seen = there.drop_last();
        let n = faults.len() - 1;
        assert forall|i: int| #![trigger rest[i]] 0 <= i < rest.len() implies step_leaves(
            content,
            copy_at(system, numbers, size, begun, rest.take(i)),
            seen[i],
            rest[i],
            seen[i + 1],
        ) && cleans_up(
            copy_at(system, numbers, size, begun, rest.take(i)),
            seen[i],
            rest[i],
            seen[i + 1],
        ) by {
            assert(rest[i] == faults[i]);
            assert(rest.take(i) =~= faults.take(i));
        }
        law_copying_makes_one_file(system, numbers, size, begun, content, rest, seen);
        assert(faults.take(n) =~= rest);
        assert(faults[n] == faults.last());
        assert(seen.last() == there[n]);
    }
}

/// A rename ends as the system answered: well where it renamed, with what it said where it
/// could not, and with the fault that something is there where something is. Only where
/// the system has no rename that replaces nothing is it looked for that.
pub proof fn law_rename_ends_as_it_went(
    system: System,
    numbers: Errnos,
    step: RenameStepView,
    event: RenameEventView,
)
    ensures
        ({
            let next = rename_after(system, numbers, step, event);
            &&& rename_begun(system) is Exclusive <==> system != System::OtherUnix
            &&& rename_begun(system) is Exclusive || rename_begun(system) is Probe
            &&& step is Over ==> next == step
            &&& (step is Exclusive || step is Plain) && event is Probed ==> next == step
            &&& step is Probe && event is Tried ==> next == step
            &&& event matches RenameEventView::Tried(f) ==> {
                &&& step is Plain ==> next == RenameStepView::Over(f)
                &&& step is Exclusive && f is None ==> next == RenameStepView::Over(None)
                &&& step is Exclusive && f is Some ==> {
                    let c = (f->0).code;
                    let unheard = c is Some && ((system == System::Linux && (c->0
                        == numbers.not_implemented || c->0 == numbers.invalid || c->0
                        == numbers.not_supported)) || (system == System::MacOs && (c->0
                        == numbers.invalid || c->0 == numbers.not_supported)));
                    if unheard {
                        next is Probe
                    } else {
                        next == RenameStepView::Over(f)
                    }
                }
            }
            &&& event matches RenameEventView::Probed(there) ==> step is Probe ==> {
                &&& there ==> (next matches RenameStepView::Over(Some(f)) && f.kind
                    == FaultKind::AlreadyExists)
                &&& !there ==> next is Plain
            }
        }),
{
}

/// A rename that failed is one to another volume just where the system has the number for
/// that, and no other number says it.
pub proof fn law_other_volume(system: System, numbers: Errnos, code: Option<i32>)
    ensures
        system == System::Windows ==> (crosses(system, numbers, code) <==> code == Some(17i32)),
        system != System::Windows ==> (crosses(system, numbers, code) <==> code == Some(
            numbers.cross_device,
        )),
        numbers.told_apart() && system != System::Windows && crosses(system, numbers, code)
            ==> code != Some(numbers.exists) && !lacks_exclusive(system, numbers, code),
{
}

/// Paths are written by the rules of Windows there, and by those of Unix elsewhere.
pub proof fn law_style(system: System)
    ensures
        system.spec_style() == Style::Windows <==> system == System::Windows,
{
}

/// The kinds of links have names of their own.
pub proof fn law_kind_names()
    ensures
        LinkKind::Symlink.name() == "symlink"@,
        LinkKind::Junction.name() == "junction"@,
{
}

} // verus!
