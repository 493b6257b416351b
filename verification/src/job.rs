//! What a move is about, and whether it can be done at all.

use vstd::prelude::*;

use crate::cli::MoveArgs;
use crate::error::Error;
use crate::error::ErrorView;
use crate::error::FaultView;
use crate::error::IoFault;
use crate::link::read_view;
use crate::link::shown_target;
use crate::link::target_of;
use crate::path::is_above;
use crate::path::PathBuf;
use crate::path::PathView;
use crate::plan::path_views;
use crate::platform::LinkKind;
use crate::text::cat;
use crate::volume::up;

verus! {

/// What a move is about.
#[derive(Debug, PartialEq, Eq)]
pub struct Job {
    /// What the user named. The link will be there.
    pub source: PathBuf,
    /// What is moved: the source, or what it leads to where it is a link.
    pub real_source: PathBuf,
    /// The kind of link that the source is, where it is one.
    pub source_was_link: Option<LinkKind>,
    pub target: PathBuf,
}

/// The contents of a [`Job`].
#[verifier::ext_equal]
pub struct JobView {
    pub source: PathView,
    pub real_source: PathView,
    pub source_was_link: Option<LinkKind>,
    pub target: PathView,
}

impl View for Job {
    type V = JobView;

    open spec fn view(&self) -> JobView {
        JobView {
            source: self.source@,
            real_source: self.real_source@,
            source_was_link: self.source_was_link,
            target: self.target@,
        }
    }
}

/// What is at the target.
#[derive(Debug, Clone, Copy, PartialEq, Eq, Structural)]
pub enum TargetState {
    Absent,
    /// Something that is no directory.
    NotDir,
    Empty,
    /// A directory with something in it, or one that cannot be read.
    Occupied,
}

/// What was found out before a move. What was not asked for can be anything.
#[derive(Debug, PartialEq, Eq)]
pub struct Facts {
    /// The one form of the source.
    pub source: Result<PathBuf, IoFault>,
    /// The one form of the target.
    pub target: Result<PathBuf, IoFault>,
    /// Whether the source is a directory, where it is there at all.
    pub source_is_dir: Option<bool>,
    /// What kind of link the source is, where it is one.
    pub kind: Result<Option<LinkKind>, IoFault>,
    /// What the source says, where it is a link.
    pub said: Result<PathBuf, IoFault>,
    /// What the source really is.
    pub resolved: Result<PathBuf, IoFault>,
    /// Whether that is a directory.
    pub resolved_is_dir: bool,
    pub target_state: TargetState,
}

/// The contents of [`Facts`].
pub struct FactsView {
    pub source: Result<PathView, FaultView>,
    pub target: Result<PathView, FaultView>,
    pub source_is_dir: Option<bool>,
    pub kind: Result<Option<LinkKind>, FaultView>,
    pub said: Result<PathView, FaultView>,
    pub resolved: Result<PathView, FaultView>,
    pub resolved_is_dir: bool,
    pub target_state: TargetState,
}

impl View for Facts {
    type V = FactsView;

    open spec fn view(&self) -> FactsView {
        FactsView {
            source: read_view(self.source),
            target: read_view(self.target),
            source_is_dir: self.source_is_dir,
            kind: match self.kind {
                Ok(k) => Ok(k),
                Err(e) => Err(e@),
            },
            said: read_view(self.said),
            resolved: read_view(self.resolved),
            resolved_is_dir: self.resolved_is_dir,
            target_state: self.target_state,
        }
    }
}

/// The error that a path does not do.
pub open spec fn invalid(path: PathView, reason: Seq<char>) -> ErrorView {
    ErrorView::InvalidPath { path, reason }
}

/// Whether paths do for a move, and whether an empty directory is in its way.
/// These are mistakes that nothing can force: each would lose data.
pub open spec fn validated(
    source: PathView,
    real_source: PathView,
    target: PathView,
    state: TargetState,
) -> Result<bool, ErrorView> {
    if real_source == target || source == target {
        Err(invalid(target, "源和目标是同一个路径"@))
    } else if target.starts_with(real_source) {
        Err(
            invalid(
                target,
                "目标位于源目录内部（"@ + real_source.display() + "），这会导致自吞"@,
            ),
        )
    } else if real_source.starts_with(target) && state != TargetState::Absent {
        Err(invalid(target, "源目录位于目标内部，无法迁移"@))
    } else if state == TargetState::NotDir {
        Err(invalid(target, "目标已存在且不是目录"@))
    } else if state == TargetState::Occupied {
        Err(invalid(target, "目标目录已存在且非空"@))
    } else if target.parent() is None {
        Err(invalid(target, "目标路径没有父目录"@))
    } else {
        Ok(state == TargetState::Empty)
    }
}

/// Checks whether paths do for a move, and says whether an empty directory is in
/// its way.
pub fn validate_paths(
    source: &PathBuf,
    real_source: &PathBuf,
    target: &PathBuf,
    state: TargetState,
) -> (r: Result<bool, Error>)
    ensures
        match r {
            Ok(clear) => validated(source@, real_source@, target@, state) == Ok::<bool, ErrorView>(
                clear,
            ),
            Err(e) => validated(source@, real_source@, target@, state) == Err::<bool, ErrorView>(
                e@,
            ),
        },
{
    if real_source.same(target) || source.same(target) {
        return Err(Error::invalid(target.clone(), "源和目标是同一个路径".to_owned()));
    }
    if target.starts_with(real_source) {
        let mut reason = cat("目标位于源目录内部（", real_source.display().as_str());
        reason.append("），这会导致自吞");
        return Err(Error::invalid(target.clone(), reason));
    }
    if real_source.starts_with(target) && state != TargetState::Absent {
        return Err(
            Error::invalid(target.clone(), "源目录位于目标内部，无法迁移".to_owned()),
        );
    }
    if state == TargetState::NotDir {
        return Err(Error::invalid(target.clone(), "目标已存在且不是目录".to_owned()));
    }
    if state == TargetState::Occupied {
        return Err(Error::invalid(target.clone(), "目标目录已存在且非空".to_owned()));
    }
    if target.parent().is_none() {
        return Err(Error::invalid(target.clone(), "目标路径没有父目录".to_owned()));
    }
    Ok(state == TargetState::Empty)
}

/// Paths that do are two places, neither of them inside the other, and nothing is
/// at the target but an empty directory.
pub proof fn law_valid_paths_are_apart(
    source: PathView,
    real_source: PathView,
    target: PathView,
    state: TargetState,
)
    requires
        validated(source, real_source, target, state) is Ok,
    ensures
        real_source != target,
        source != target,
        !target.starts_with(real_source),
        state != TargetState::Absent ==> !real_source.starts_with(target) && state
            == TargetState::Empty,
        target.parent() is Some,
{
}

/// Why a source that is a link is refused.
pub open spec fn is_link_reason(kind: LinkKind, said: Result<PathView, FaultView>) -> Seq<char> {
    "这是一个 "@ + kind.name() + "，指向 "@ + shown_target(said)
        + "。去掉 --no-follow-link 可自动穿透到真实目录并改写链接。"@
}

/// What is moved, by what was found out.
pub open spec fn moved(no_follow_link: bool, source: PathView, f: FactsView) -> Result<
    (PathView, Option<LinkKind>),
    ErrorView,
> {
    if f.source_is_dir is None {
        Err(invalid(source, "路径不存在"@))
    } else {
        match f.kind {
            Err(e) => Err(ErrorView::Io { path: Some(source), source: e }),
            Ok(Some(kind)) => if no_follow_link {
                Err(invalid(source, is_link_reason(kind, f.said)))
            } else {
                match f.resolved {
                    Err(e) => Err(
                        ErrorView::Io {
                            path: Some(source),
                            source: FaultView {
                                kind: e.kind,
                                code: None,
                                text: "无法解析链接指向的真实目录: "@ + e.text,
                            },
                        },
                    ),
                    Ok(p) => if f.resolved_is_dir {
                        Ok((p, Some(kind)))
                    } else {
                        Err(invalid(source, "这个链接指向的不是一个目录"@))
                    },
                }
            },
            Ok(None) => if f.source_is_dir == Some(true) {
                Ok((source, None))
            } else {
                Err(invalid(source, "不是一个目录"@))
            },
        }
    }
}

/// What a move is about, and whether an empty directory is in its way.
pub open spec fn resolved(
    source: PathView,
    target: PathView,
    no_follow_link: bool,
    f: FactsView,
) -> Result<(JobView, bool), ErrorView> {
    match f.source {
        Err(e) => Err(ErrorView::Io { path: Some(source), source: e }),
        Ok(s) => match f.target {
            Err(e) => Err(ErrorView::Io { path: Some(target), source: e }),
            Ok(t) => match moved(no_follow_link, s, f) {
                Err(e) => Err(e),
                Ok((m, kind)) => match validated(s, m, t, f.target_state) {
                    Err(e) => Err(e),
                    Ok(clear) => Ok(
                        (
                            JobView {
                                source: s,
                                real_source: m,
                                source_was_link: kind,
                                target: t,
                            },
                            clear,
                        ),
                    ),
                },
            },
        },
    }
}

/// Works out what a move is about, and whether an empty directory is in its way.
pub fn resolve_job(args: &MoveArgs, facts: Facts) -> (r: Result<(Job, bool), Error>)
    ensures
        match r {
            Ok((job, clear)) => resolved(args.source@, args.target@, args.no_follow_link, facts@)
                == Ok::<(JobView, bool), ErrorView>((job@, clear)),
            Err(e) => resolved(args.source@, args.target@, args.no_follow_link, facts@) == Err::<
                (JobView, bool),
                ErrorView,
            >(e@),
        },
{
    let source = match facts.source {
        Ok(s) => s,
        Err(e) => {
            return Err(Error::io(args.source.clone(), e));
        },
    };
    let target = match facts.target {
        Ok(t) => t,
        Err(e) => {
            return Err(Error::io(args.target.clone(), e));
        },
    };
    let is_dir = match facts.source_is_dir {
        Some(d) => d,
        None => {
            return Err(Error::invalid(source, "路径不存在".to_owned()));
        },
    };
    let kind = match facts.kind {
        Ok(k) => k,
        Err(e) => {
            return Err(Error::io(source, e));
        },
    };
    let real_source = match kind {
        Some(k) => {
            if args.no_follow_link {
                let mut reason = cat("这是一个 ", k.to_string().as_str());
                reason.append("，指向 ");
                reason.append(target_of(&facts.said).as_str());
                reason.append("。去掉 --no-follow-link 可自动穿透到真实目录并改写链接。");
                return Err(Error::invalid(source, reason));
            }
            match facts.resolved {
                Ok(p) => {
                    if !facts.resolved_is_dir {
                        return Err(
                            Error::invalid(source, "这个链接指向的不是一个目录".to_owned()),
                        );
                    }
                    p
                },
                Err(e) => {
                    let text = cat("无法解析链接指向的真实目录: ", e.text.as_str());
                    return Err(Error::io(source, IoFault { kind: e.kind, code: None, text }));
                },
            }
        },
        None => {
            if !is_dir {
                return Err(Error::invalid(source, "不是一个目录".to_owned()));
            }
            source.clone()
        },
    };
    match validate_paths(&source, &real_source, &target, facts.target_state) {
        Ok(clear) => Ok((Job { source, real_source, source_was_link: kind, target }, clear)),
        Err(e) => Err(e),
    }
}

/// What is at a place above the target.
#[derive(Debug, Clone, Copy, PartialEq, Eq, Structural)]
pub enum PlaceState {
    Dir,
    /// Something that is no directory.
    Other,
    Absent,
}

/// The first of `states`, from `k` on, that is not absent.
pub open spec fn first_present(states: Seq<PlaceState>, k: int) -> int
    decreases states.len() - k,
{
    if k >= states.len() || states[k] != PlaceState::Absent {
        k
    } else {
        first_present(states, k + 1)
    }
}

/// The `n` directories to make below what is there, from shallow to deep: the
/// parent of the target and those above it that are missing.
pub open spec fn to_make(parent: PathView, n: int) -> Seq<PathView> {
    Seq::new(n as nat, |i: int| up(parent, n - 1 - i))
}

/// The directories that have to be made for the target, from shallow to deep.
/// `states` says of its parent, and all above that, what is there.
pub open spec fn missing(target: PathView, states: Seq<PlaceState>) -> Result<
    Seq<PathView>,
    ErrorView,
> {
    match target.parent() {
        None => Err(invalid(target, "目标路径没有父目录"@)),
        Some(parent) => {
            let k = first_present(states, 0);
            if k >= states.len() {
                Err(
                    invalid(
                        up(parent, states.len() - 1),
                        "这个盘符（或根路径）不存在，无法在其中创建目录"@,
                    ),
                )
            } else if states[k] == PlaceState::Dir {
                Ok(to_make(parent, k))
            } else {
                Err(invalid(up(parent, k), "目标路径中的这一段已存在，但不是目录"@))
            }
        },
    }
}

proof fn lemma_first_present(states: Seq<PlaceState>, k: int)
    requires
        0 <= k <= states.len(),
    ensures
        k <= first_present(states, k) <= states.len(),
        forall|j: int|
            k <= j < first_present(states, k) ==> #[trigger] states[j] == PlaceState::Absent,
        first_present(states, k) < states.len() ==> states[first_present(states, k)]
            != PlaceState::Absent,
    decreases states.len() - k,
{
    if k < states.len() && states[k] == PlaceState::Absent {
        lemma_first_present(states, k + 1);
    }
}

/// Works out which directories have to be made for the target, from shallow to
/// deep. Nothing is done.
pub fn missing_parents(target: &PathBuf, states: &Vec<PlaceState>) -> (r: Result<
    Vec<PathBuf>,
    Error,
>)
    requires
        target@.parent() matches Some(p) ==> states.len() == p.parts.len() + 1,
    ensures
        match r {
            Ok(v) => missing(target@, states@) == Ok::<Seq<PathView>, ErrorView>(path_views(v@)),
            Err(e) => missing(target@, states@) == Err::<Seq<PathView>, ErrorView>(e@),
        },
{
    let parent = match target.parent() {
        Some(p) => p,
        None => {
            return Err(Error::invalid(target.clone(), "目标路径没有父目录".to_owned()));
        },
    };
    proof {
        lemma_first_present(states@, 0);
    }
    let mut deep: Vec<PathBuf> = Vec::new();
    let mut cur = parent.clone();
    let mut k: usize = 0;
    assert(up(parent@, 0) == parent@) by {
        assert(parent@.parts.take(parent@.parts.len() as int) =~= parent@.parts);
    }
    while k < states.len() && states[k] == PlaceState::Absent
        invariant
            0 <= k <= states.len(),
            states.len() == parent@.parts.len() + 1,
            target@.parent() == Some(parent@),
            first_present(states@, 0) == first_present(states@, k as int),
            deep.len() == k,
            forall|i: int| 0 <= i < k ==> (#[trigger] deep@[i])@ == up(parent@, i),
            cur@ == up(
                parent@,
                if k < states.len() {
                    k as int
                } else {
                    k - 1
                },
            ),
        decreases states.len() - k,
    {
        deep.push(cur.clone());
        match cur.parent() {
            Some(p) => {
                assert(up(parent@, k as int).parts.drop_last() =~= up(parent@, k + 1).parts);
                cur = p;
                k = k + 1;
            },
            None => {
                assert(k == parent@.parts.len());
                k = k + 1;
            },
        }
    }
    if k >= states.len() {
        return Err(
            Error::invalid(
                cur,
                "这个盘符（或根路径）不存在，无法在其中创建目录".to_owned(),
            ),
        );
    }
    if states[k] != PlaceState::Dir {
        return Err(
            Error::invalid(cur, "目标路径中的这一段已存在，但不是目录".to_owned()),
        );
    }
    let mut r: Vec<PathBuf> = Vec::new();
    let mut i: usize = k;
    while i > 0
        invariant
            0 <= i <= k,
            deep.len() == k,
            forall|j: int| 0 <= j < k ==> (#[trigger] deep@[j])@ == up(parent@, j),
            r.len() == k - i,
            forall|j: int| 0 <= j < r.len() ==> (#[trigger] r@[j])@ == up(parent@, k - 1 - j),
        decreases i,
    {
        i = i - 1;
        r.push(deep[i].clone());
    }
    assert(path_views(r@) =~= to_make(parent@, k as int));
    Ok(r)
}

/// The directories to make are all missing, each is in the one before it, and the
/// last is the parent of the target.
pub proof fn law_missing_is_a_chain(target: PathView, states: Seq<PlaceState>)
    requires
        target.parent() matches Some(p) && states.len() == p.parts.len() + 1,
        missing(target, states) is Ok,
    ensures
        ({
            let v = missing(target, states)->Ok_0;
            &&& v.len() > 0 ==> v.last() == target.parent()->0
            &&& forall|i: int| 0 < i < v.len() ==> (#[trigger] v[i]).parent() == Some(v[i - 1])
            &&& forall|i: int|
                0 <= i < v.len() ==> states[v.len() - 1 - i] == PlaceState::Absent && #[trigger] v[i]
                    == up(target.parent()->0, v.len() - 1 - i)
        }),
{
    lemma_first_present(states, 0);
    let p = target.parent()->0;
    let v = missing(target, states)->Ok_0;
    let n = v.len() as int;
    assert(p.parts.take(p.parts.len() as int) =~= p.parts);
    assert forall|i: int| 0 < i < n implies (#[trigger] v[i]).parent() == Some(v[i - 1]) by {
        assert(up(p, n - 1 - i).parts.drop_last() =~= up(p, n - i).parts);
    }
}

/// The directories to make are all different, and none of them is the target. Once they
/// were made, nothing is missing.
pub proof fn law_nothing_missing_then(
    target: PathView,
    states: Seq<PlaceState>,
    after: Seq<PlaceState>,
)
    requires
        target.parent() matches Some(p) && states.len() == p.parts.len() + 1,
        missing(target, states) is Ok,
        after.len() == states.len(),
        forall|i: int|
            0 <= i < states.len() ==> #[trigger] after[i] == if i < (missing(
                target,
                states,
            )->Ok_0).len() {
                PlaceState::Dir
            } else {
                states[i]
            },
    ensures
        (missing(target, states)->Ok_0).no_duplicates(),
        !(missing(target, states)->Ok_0).contains(target),
        missing(target, after) == Ok::<Seq<PathView>, ErrorView>(Seq::empty()),
{
    lemma_first_present(states, 0);
    let p = target.parent()->0;
    let v = missing(target, states)->Ok_0;
    let n = v.len() as int;
    assert forall|i: int| 0 <= i < n implies (#[trigger] v[i]).parts.len() == p.parts.len() - (n - 1
        - i) by {}
    assert forall|i: int, j: int| 0 <= i < n && 0 <= j < n && i != j implies v[i] != v[j] by {
        assert(v[i].parts.len() != v[j].parts.len());
    }
    assert(after[0] == PlaceState::Dir);
    assert(first_present(after, 0) == 0);
    assert(to_make(p, 0) =~= Seq::<PathView>::empty());
}

/// What a move is about, where it is not refused: source and target are the places that
/// were named. A source that is a link, of whichever kind, is kept as one, and what is
/// moved is the directory that it leads to; a source that is none is moved itself, and is
/// a directory. An empty directory is in the way just where one was found.
pub proof fn law_job_is_what_was_found(
    source: PathView,
    target: PathView,
    no_follow_link: bool,
    f: FactsView,
)
    requires
        resolved(source, target, no_follow_link, f) is Ok,
    ensures
        ({
            let (job, clear) = resolved(source, target, no_follow_link, f)->Ok_0;
            &&& f.source == Ok::<PathView, FaultView>(job.source)
            &&& f.target == Ok::<PathView, FaultView>(job.target)
            &&& f.kind == Ok::<Option<LinkKind>, FaultView>(job.source_was_link)
            &&& job.source_was_link is Some ==> !no_follow_link && f.resolved == Ok::<
                PathView,
                FaultView,
            >(job.real_source) && f.resolved_is_dir
            &&& job.source_was_link is None ==> job.real_source == job.source && f.source_is_dir
                == Some(true)
            &&& f.source_is_dir is Some
            &&& clear <==> f.target_state == TargetState::Empty
            &&& f.target_state == TargetState::Empty || f.target_state == TargetState::Absent
            &&& job.target != job.source
            &&& !is_above(job.real_source, job.target)
            &&& f.target_state == TargetState::Empty ==> !is_above(job.target, job.real_source)
            &&& job.target.parts.len() > 0
        }),
{
    let (job, clear) = resolved(source, target, no_follow_link, f)->Ok_0;
    crate::path::law_above(job.real_source, job.target);
    crate::path::law_above(job.target, job.real_source);
}

/// A move is not refused where there is nothing to refuse: the source is a directory, or
/// a link to one that is to be followed, and the target is another place, with nothing
/// there or an empty directory, neither of them inside the other.
pub proof fn law_job_is_owed(
    source: PathView,
    target: PathView,
    no_follow_link: bool,
    f: FactsView,
    s: PathView,
    t: PathView,
    data: PathView,
)
    requires
        f.source == Ok::<PathView, FaultView>(s),
        f.target == Ok::<PathView, FaultView>(t),
        f.source_is_dir is Some,
        match f.kind {
            Ok(Some(_)) => !no_follow_link && f.resolved == Ok::<PathView, FaultView>(data)
                && f.resolved_is_dir,
            Ok(None) => f.source_is_dir == Some(true) && data == s,
            Err(_) => false,
        },
        t != s,
        data.rooted,
        t.rooted,
        t.parts.len() > 0,
        !is_above(data, t),
        match f.target_state {
            TargetState::Absent => true,
            TargetState::Empty => !is_above(t, data),
            _ => false,
        },
    ensures
        resolved(source, target, no_follow_link, f) is Ok,
{
    crate::path::law_above(data, t);
    crate::path::law_above(t, data);
    if data == t {
        assert(is_above(data, t));
    }
}

/// What is refused is refused for what is wrong with it: what the system could not find
/// out is told as it said it, with the place that it was about, and everything else names
/// the source where it is the source that does not do, and else the target.
pub proof fn law_job_tells_what_is_wrong(
    source: PathView,
    target: PathView,
    no_follow_link: bool,
    f: FactsView,
)
    requires
        resolved(source, target, no_follow_link, f) is Err,
    ensures
        ({
            let e = resolved(source, target, no_follow_link, f)->Err_0;
            match (f.source, f.target) {
                (Err(x), _) => e == (ErrorView::Io { path: Some(source), source: x }),
                (_, Err(x)) => e == (ErrorView::Io { path: Some(target), source: x }),
                (Ok(s), Ok(t)) => {
                    let source_does = f.source_is_dir is Some && match f.kind {
                        Ok(Some(_)) => !no_follow_link && f.resolved is Ok && f.resolved_is_dir,
                        Ok(None) => f.source_is_dir == Some(true),
                        Err(_) => false,
                    };
                    let unknown = f.source_is_dir is Some && match f.kind {
                        Ok(Some(_)) => !no_follow_link && f.resolved is Err,
                        Ok(None) => false,
                        Err(_) => true,
                    };
                    &&& source_does ==> (e matches ErrorView::InvalidPath { path, .. } && path == t)
                    &&& !source_does && !unknown ==> (e matches ErrorView::InvalidPath {
                        path,
                        ..
                    } && path == s)
                    &&& unknown ==> (e matches ErrorView::Io { path, source: x } && path == Some(s)
                        && match f.kind {
                        Err(y) => x == y,
                        Ok(_) => x.kind == f.resolved->Err_0.kind && x.text.len()
                            >= f.resolved->Err_0.text.len() && x.text.skip(
                            x.text.len() - f.resolved->Err_0.text.len(),
                        ) == f.resolved->Err_0.text,
                    })
                },
            }
        }),
{
    if let (Ok(s), Ok(t)) = (f.source, f.target) {
        if let Err(y) = f.resolved {
            let head = "无法解析链接指向的真实目录: "@;
            assert((head + y.text).skip(head.len() as int) =~= y.text);
        }
    }
}

/// The directories for a target can be made just where the nearest place above it that is
/// there is a directory. Where it is something else that is named, and where nothing is
/// there at all, what is uppermost.
pub proof fn law_missing_fails_only_there(target: PathView, states: Seq<PlaceState>, k: int)
    requires
        target.parent() matches Some(p) && states.len() == p.parts.len() + 1,
        0 <= k <= states.len(),
        forall|j: int| 0 <= j < k ==> #[trigger] states[j] == PlaceState::Absent,
        k < states.len() ==> states[k] != PlaceState::Absent,
    ensures
        missing(target, states) is Ok <==> k < states.len() && states[k] == PlaceState::Dir,
        missing(target, states) matches Ok(v) ==> v.len() == k,
        missing(target, states) matches Err(e) ==> (e matches ErrorView::InvalidPath { path, .. }
            && is_above(path, target) && path.parts.len() == if k < states.len() {
            target.parts.len() - 1 - k
        } else {
            0
        }),
{
    lemma_first_present(states, 0);
    let f = first_present(states, 0);
    if f < k {
        assert(states[f] == PlaceState::Absent);
    } else if k < f {
        assert(states[k] == PlaceState::Absent);
    }
}

/// What was found out is decided on as it was found out.
pub proof fn law_facts_are_seen(f: Facts, job: Job)
    ensures
        f.source matches Ok(p) ==> f@.source == Ok::<PathView, FaultView>(p@),
        f.source matches Err(e) ==> f@.source == Err::<PathView, FaultView>(e@),
        f.target matches Ok(p) ==> f@.target == Ok::<PathView, FaultView>(p@),
        f.target matches Err(e) ==> f@.target == Err::<PathView, FaultView>(e@),
        f.resolved matches Ok(p) ==> f@.resolved == Ok::<PathView, FaultView>(p@),
        f.resolved matches Err(e) ==> f@.resolved == Err::<PathView, FaultView>(e@),
        f.said matches Ok(p) ==> f@.said == Ok::<PathView, FaultView>(p@),
        f.kind matches Ok(k) ==> f@.kind == Ok::<Option<LinkKind>, FaultView>(k),
        f.kind matches Err(e) ==> f@.kind == Err::<Option<LinkKind>, FaultView>(e@),
        f@.source_is_dir == f.source_is_dir && f@.resolved_is_dir == f.resolved_is_dir,
        f@.target_state == f.target_state,
        job@.source == job.source@ && job@.real_source == job.real_source@ && job@.target
            == job.target@ && job@.source_was_link == job.source_was_link,
{
}

} // verus!
