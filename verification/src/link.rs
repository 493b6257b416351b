//! The link that is left where the data was, and the forms of paths that have to
//! do with links.

use vstd::prelude::*;

use crate::cli::LinkType;
use crate::error::FaultKind;
use crate::error::FaultView;
use crate::error::IoFault;
use crate::path::copy_bytes;
use crate::path::dot;
use crate::path::dot_dot;
use crate::path::is_dot;
use crate::path::is_dot_dot;
use crate::path::is_name;
use crate::path::show_bytes;
use crate::path::shown;
use crate::path::texts;
use crate::path::PathBuf;
use crate::path::PathView;
use crate::path::Style;
use crate::platform::plain;
use crate::platform::strip_verbatim;
use crate::platform::LinkKind;
use crate::text::cat;
use crate::text::dec;
use crate::text::holds;
use crate::text::lemma_encode_concat;
use crate::text::lemma_encode_long;
use crate::text::show;

verus! {

/// The components without `.`, and without `..` where it can be worked out:
/// behind a name it takes the name away, and at a root it does nothing.
pub open spec fn undotted(parts: Seq<Seq<u8>>, anchored: bool) -> Seq<Seq<u8>>
    decreases parts.len(),
{
    if parts.len() == 0 {
        Seq::empty()
    } else {
        let r = undotted(parts.drop_last(), anchored);
        let x = parts.last();
        if x == dot() {
            r
        } else if x == dot_dot() {
            if r.len() > 0 && is_name(r.last()) {
                r.drop_last()
            } else if r.len() == 0 && anchored {
                r
            } else {
                r.push(x)
            }
        } else {
            r.push(x)
        }
    }
}

/// The path without `.`, and without `..` where it can be worked out, whatever is
/// on the disk.
pub open spec fn normal(p: PathView) -> PathView {
    PathView { parts: undotted(p.parts, p.rooted || p.prefix is Some), ..p }
}

/// Takes `.` and `..` out of a path, whatever is on the disk.
pub fn normalize_dots(path: &PathBuf) -> (r: PathBuf)
    ensures
        r@ == normal(path@),
{
    let anchored = path.rooted || path.prefix.is_some();
    let mut parts: Vec<Vec<u8>> = Vec::new();
    let ghost all = texts(path.parts@);
    let mut i: usize = 0;
    assert(all.take(0) =~= Seq::<Seq<u8>>::empty());
    assert(texts(parts@) =~= undotted(all.take(0), anchored));
    while i < path.parts.len()
        invariant
            0 <= i <= path.parts.len(),
            all == texts(path.parts@),
            texts(parts@) == undotted(all.take(i as int), anchored),
        decreases path.parts.len() - i,
    {
        assert(all.take(i + 1).drop_last() =~= all.take(i as int));
        assert(all.take(i + 1).last() == all[i as int]);
        let ghost before = texts(parts@);
        let x = &path.parts[i];
        if is_dot(x) {
        } else if is_dot_dot(x) {
            let n: usize = parts.len();
            let named = n > 0 && !is_dot(&parts[n - 1]) && !is_dot_dot(&parts[n - 1]);
            assert(n > 0 ==> before.last() == parts@[n - 1]@);
            if named {
                let _ = parts.pop();
                assert(texts(parts@) =~= before.drop_last());
            } else if n == 0 && anchored {
            } else {
                parts.push(copy_bytes(x));
                assert(texts(parts@) =~= before.push(all[i as int]));
            }
        } else {
            parts.push(copy_bytes(x));
            assert(texts(parts@) =~= before.push(all[i as int]));
        }
        i = i + 1;
    }
    assert(all.take(i as int) =~= all);
    let prefix = match &path.prefix {
        Some(p) => Some(p.clone()),
        None => None,
    };
    PathBuf { style: path.style, prefix, rooted: path.rooted, parts }
}

/// Whether components hold no `.`, and `..` only at the start, where nothing is
/// above that could be worked out.
pub open spec fn is_normal(parts: Seq<Seq<u8>>, anchored: bool) -> bool {
    &&& forall|i: int| 0 <= i < parts.len() ==> #[trigger] parts[i] != dot()
    &&& anchored ==> forall|i: int| 0 <= i < parts.len() ==> #[trigger] parts[i] != dot_dot()
    &&& forall|i: int, j: int|
        0 <= i < j < parts.len() && #[trigger] parts[j] == dot_dot() ==> #[trigger] parts[i]
            == dot_dot()
}

proof fn lemma_undotted_normal(parts: Seq<Seq<u8>>, anchored: bool)
    ensures
        is_normal(undotted(parts, anchored), anchored),
    decreases parts.len(),
{
    if parts.len() > 0 {
        lemma_undotted_normal(parts.drop_last(), anchored);
        let r = undotted(parts.drop_last(), anchored);
        let x = parts.last();
        let u = undotted(parts, anchored);
        if x == dot_dot() && !(r.len() > 0 && is_name(r.last())) && !(r.len() == 0 && anchored) {
            assert(dot_dot() != dot()) by {
                assert(dot_dot().len() == 2);
                assert(dot().len() == 1);
            }
            assert(u == r.push(x));
            if r.len() > 0 {
                assert(r[r.len() - 1] != dot());
                assert(r.last() == dot_dot());
                if anchored {
                    assert(r[r.len() - 1] != dot_dot());
                }
                assert forall|i: int| 0 <= i < r.len() implies r[i] == dot_dot() by {
                    if i < r.len() - 1 {
                        assert(r[r.len() - 1] == dot_dot());
                    }
                }
            }
        }
    }
}

proof fn lemma_undotted_same(parts: Seq<Seq<u8>>, anchored: bool)
    requires
        is_normal(parts, anchored),
    ensures
        undotted(parts, anchored) == parts,
    decreases parts.len(),
{
    if parts.len() > 0 {
        let rest = parts.drop_last();
        assert(is_normal(rest, anchored)) by {
            assert forall|i: int| 0 <= i < rest.len() implies #[trigger] rest[i] != dot() by {
                assert(parts[i] != dot());
            }
            if anchored {
                assert forall|i: int| 0 <= i < rest.len() implies #[trigger] rest[i]
                    != dot_dot() by {
                    assert(parts[i] != dot_dot());
                }
            }
            assert forall|i: int, j: int|
                0 <= i < j < rest.len() && #[trigger] rest[j] == dot_dot() implies #[trigger] rest[i]
                == dot_dot() by {
                assert(parts[j] == dot_dot());
                assert(parts[i] == dot_dot());
            }
        }
        lemma_undotted_same(rest, anchored);
        let x = parts[parts.len() - 1];
        if x == dot_dot() && rest.len() > 0 {
            assert(parts[rest.len() - 1] == dot_dot());
        }
        assert(rest.push(x) =~= parts);
    } else {
        assert(parts =~= Seq::<Seq<u8>>::empty());
    }
}

/// A path that is absolute has no `.` and no `..` left, and nothing is left to
/// take out a second time.
pub proof fn law_normal_once(p: PathView)
    ensures
        normal(normal(p)) == normal(p),
        is_normal(normal(p).parts, p.rooted || p.prefix is Some),
        normal(p).is_absolute() == p.is_absolute(),
{
    let anchored = p.rooted || p.prefix is Some;
    lemma_undotted_normal(p.parts, anchored);
    lemma_undotted_same(normal(p).parts, anchored);
}

/// The path made absolute, but with its links left as they are. The working directory
/// is only needed where the path is relative.
pub open spec fn absolute(
    path: PathView,
    cwd: Result<PathView, FaultView>,
) -> Result<PathView, FaultView> {
    if path.is_absolute() {
        Ok(normal(plain(path)))
    } else {
        match cwd {
            Ok(c) => Ok(normal(plain(c.join(path)))),
            Err(e) => Err(e),
        }
    }
}

/// Makes a path absolute, but leaves its links as they are. The working directory
/// is only needed where the path is relative.
pub fn absolutize(path: &PathBuf, cwd: &Result<PathBuf, IoFault>) -> (r: Result<PathBuf, IoFault>)
    ensures
        read_view(r) == absolute(path@, read_view(*cwd)),
{
    if path.is_absolute() {
        return Ok(normalize_dots(&strip_verbatim(path)));
    }
    match cwd {
        Ok(c) => Ok(normalize_dots(&strip_verbatim(&c.join(path)))),
        Err(e) => Err(e.clone()),
    }
}

/// Brings what the system says a path really is into the form to be kept.
pub fn canonicalize(found_at: Result<PathBuf, IoFault>) -> (r: Result<PathBuf, IoFault>)
    ensures
        match found_at {
            Ok(p) => r matches Ok(q) && q@ == plain(p@),
            Err(e) => r == Err::<PathBuf, IoFault>(e),
        },
{
    match found_at {
        Ok(p) => Ok(strip_verbatim(&p)),
        Err(e) => Err(e),
    }
}

/// The one form of a path: all links above its last component resolved, and that
/// component kept, since it may be the very link that is dealt with.
pub open spec fn key(abs: PathView, real_parent: Option<PathView>) -> PathView {
    match (abs.parent(), abs.file_name(), real_parent) {
        (Some(_), Some(name), Some(found_at)) => plain(found_at).child(name),
        _ => abs,
    }
}

/// The one form of an absolute path, by what its parent really is. Where that
/// cannot be found out, or there is no parent, the path stays as it is.
pub fn canonical_key(abs: &PathBuf, real_parent: &Option<PathBuf>) -> (r: PathBuf)
    ensures
        r@ == key(
            abs@,
            match real_parent {
                Some(p) => Some(p@),
                None => None,
            },
        ),
{
    let parent = abs.parent();
    match (parent, abs.file_name(), real_parent) {
        (Some(_), Some(name), Some(found_at)) => strip_verbatim(found_at).child(&name),
        _ => abs.clone(),
    }
}

/// Two spellings with one real parent and one last component have one form, and
/// the last component is kept.
pub proof fn law_key_is_unique(a: PathView, b: PathView, found_at: PathView)
    requires
        a.file_name() is Some,
        a.file_name() == b.file_name(),
    ensures
        key(a, Some(found_at)) == key(b, Some(found_at)),
        key(a, Some(found_at)).file_name() == a.file_name(),
{
}

proof fn lemma_absolute_once(p: PathView, cwd: Result<PathView, FaultView>)
    requires
        p.is_absolute(),
        plain(p) == p,
        is_normal(p.parts, p.rooted || p.prefix is Some),
    ensures
        absolute(p, cwd) == Ok::<PathView, FaultView>(p),
{
    lemma_undotted_same(p.parts, p.rooted || p.prefix is Some);
}

/// The one form of a path is absolute, and it is its own: made absolute it stays as it
/// is, from whatever working directory, and where the directory that it names really is
/// what it was found to be, so does its one form. `found_at` is what the system found
/// the directory above to be, an absolute path without `.` and `..`; `again` is what it
/// finds when it is asked for that. Left out are the prefixes of Windows that name no
/// share, since they are not absolute.
pub proof fn law_key_is_its_own(
    path: PathView,
    cwd: Result<PathView, FaultView>,
    found_at: Option<PathView>,
    later: Result<PathView, FaultView>,
    again: Option<PathView>,
)
    requires
        absolute(path, cwd) is Ok,
        (absolute(path, cwd)->Ok_0).is_absolute(),
        found_at matches Some(f) ==> {
            &&& plain(f).is_absolute()
            &&& is_normal(plain(f).parts, true)
            &&& again matches Some(g) && plain(g) == plain(f)
        },
        found_at is None ==> again is None,
    ensures
        ({
            let k = key(absolute(path, cwd)->Ok_0, found_at);
            &&& k.is_absolute()
            &&& absolute(k, later) == Ok::<PathView, FaultView>(k)
            &&& key(k, again) == k
        }),
{
    let whole = if path.is_absolute() {
        path
    } else {
        (cwd->Ok_0).join(path)
    };
    let abs = absolute(path, cwd)->Ok_0;
    let k = key(abs, found_at);
    lemma_plain_once(whole);
    law_normal_once(plain(whole));
    assert(abs == normal(plain(whole)));
    assert(plain(abs) == abs);
    assert(is_normal(abs.parts, abs.rooted || abs.prefix is Some));
    if abs.parent() is Some && abs.file_name() is Some && found_at is Some {
        let f = plain(found_at->0);
        let name = abs.file_name()->0;
        lemma_plain_once(found_at->0);
        assert(k == f.child(name));
        assert(plain(k) == k);
        assert(k.parts.drop_last() =~= f.parts);
        assert(is_normal(k.parts, true)) by {
            assert forall|i: int| 0 <= i < k.parts.len() implies #[trigger] k.parts[i] != dot()
                && k.parts[i] != dot_dot() by {
                if i < f.parts.len() {
                    assert(f.parts[i] != dot());
                    assert(f.parts[i] != dot_dot());
                }
            }
        }
        assert(k.rooted || k.prefix is Some);
        lemma_absolute_once(k, later);
        assert(k.parts.last() == name);
        assert(plain(again->0).child(name) =~= k);
    } else {
        lemma_absolute_once(abs, later);
    }
}

proof fn lemma_plain_once(p: PathView)
    ensures
        plain(plain(p)) == plain(p),
        plain(p).style == p.style,
{
}

/// What kind of link something is, where it is one. What is not there is none.
pub fn kind_of(found: Result<Option<LinkKind>, IoFault>) -> (r: Result<Option<LinkKind>, IoFault>)
    ensures
        match found {
            Ok(k) => r == Ok::<Option<LinkKind>, IoFault>(k),
            Err(e) => if e.kind == FaultKind::NotFound {
                r == Ok::<Option<LinkKind>, IoFault>(None)
            } else {
                r == Err::<Option<LinkKind>, IoFault>(e)
            },
        },
        found is Ok ==> r == found,
        found matches Err(e) ==> (r is Ok <==> e.kind == FaultKind::NotFound),
        found is Err && r is Ok ==> r->Ok_0 is None,
        r is Err ==> r == found,
{
    match found {
        Ok(k) => Ok(k),
        Err(e) => {
            if e.kind == FaultKind::NotFound {
                Ok(None)
            } else {
                Err(e)
            }
        },
    }
}

/// What a link says, shown to the user, or that it could not be read.
pub open spec fn shown_target(read: Result<PathView, FaultView>) -> Seq<char> {
    match read {
        Ok(p) => p.display(),
        Err(_) => "<读取失败>"@,
    }
}

/// The contents of a path that was read, or of why it was not.
pub open spec fn read_view(r: Result<PathBuf, IoFault>) -> Result<PathView, FaultView> {
    match r {
        Ok(p) => Ok(p@),
        Err(e) => Err(e@),
    }
}

/// What a link says, shown to the user, or that it could not be read.
pub fn target_of(read: &Result<PathBuf, IoFault>) -> (r: String)
    ensures
        r@ == shown_target(read_view(*read)),
{
    match read {
        Ok(p) => p.display(),
        Err(_) => "<读取失败>".to_owned(),
    }
}

/// One thing to do with links.
#[derive(Debug, PartialEq, Eq)]
pub enum LinkAction {
    /// Make the empty directory that becomes a junction.
    MakeDir { at: PathBuf },
    /// Make an empty directory a junction.
    SetMountPoint { at: PathBuf, target: PathBuf },
    RemoveDir { at: PathBuf },
    RemoveFile { at: PathBuf },
    Symlink { target: PathBuf, at: PathBuf },
    /// Rename over what is there, in one go.
    Replace { from: PathBuf, to: PathBuf },
    /// Look what kind of link is there.
    Look { at: PathBuf },
    /// Read what a link says.
    Read { at: PathBuf },
}

/// The contents of a [`LinkAction`].
#[allow(inconsistent_fields)]
pub enum LinkActionView {
    MakeDir { at: PathView },
    SetMountPoint { at: PathView, target: PathView },
    RemoveDir { at: PathView },
    RemoveFile { at: PathView },
    Symlink { target: PathView, at: PathView },
    Replace { from: PathView, to: PathView },
    Look { at: PathView },
    Read { at: PathView },
}

impl View for LinkAction {
    type V = LinkActionView;

    open spec fn view(&self) -> LinkActionView {
        match *self {
            LinkAction::MakeDir { at } => LinkActionView::MakeDir { at: at@ },
            LinkAction::SetMountPoint { at, target } => LinkActionView::SetMountPoint {
                at: at@,
                target: target@,
            },
            LinkAction::RemoveDir { at } => LinkActionView::RemoveDir { at: at@ },
            LinkAction::RemoveFile { at } => LinkActionView::RemoveFile { at: at@ },
            LinkAction::Symlink { target, at } => LinkActionView::Symlink {
                target: target@,
                at: at@,
            },
            LinkAction::Replace { from, to } => LinkActionView::Replace { from: from@, to: to@ },
            LinkAction::Look { at } => LinkActionView::Look { at: at@ },
            LinkAction::Read { at } => LinkActionView::Read { at: at@ },
        }
    }
}

/// How a link itself is removed: on Windows it is a directory, on Unix it never
/// is.
pub open spec fn unlinking(link: PathView) -> LinkActionView {
    match link.style {
        Style::Windows => LinkActionView::RemoveDir { at: link },
        Style::Unix => LinkActionView::RemoveFile { at: link },
    }
}

/// How a link itself is removed.
pub fn remove_dir_link(link: &PathBuf) -> (r: LinkAction)
    ensures
        r@ == unlinking(link@),
{
    match link.style {
        Style::Windows => LinkAction::RemoveDir { at: link.clone() },
        Style::Unix => LinkAction::RemoveFile { at: link.clone() },
    }
}

/// How far the making of a link has got.
#[derive(Debug, PartialEq, Eq)]
pub enum CreateState {
    /// The directory of a junction is to be made.
    Dir,
    /// The directory is to be made a junction.
    Point,
    /// The directory is to be removed again.
    Undo(IoFault),
    /// A symbolic link is to be made, since a junction failed if one was wanted.
    Symlink(Option<IoFault>),
    Over(Result<LinkKind, IoFault>),
}

/// The contents of a [`CreateState`].
pub enum CreateView {
    Dir,
    Point,
    Undo(FaultView),
    Symlink(Option<FaultView>),
    Over(Result<LinkKind, FaultView>),
}

/// The contents of what making a link gave.
pub open spec fn kind_view(r: Result<LinkKind, IoFault>) -> Result<LinkKind, FaultView> {
    match r {
        Ok(k) => Ok(k),
        Err(e) => Err(e@),
    }
}

impl View for CreateState {
    type V = CreateView;

    open spec fn view(&self) -> CreateView {
        match *self {
            CreateState::Dir => CreateView::Dir,
            CreateState::Point => CreateView::Point,
            CreateState::Undo(e) => CreateView::Undo(e@),
            CreateState::Symlink(e) => CreateView::Symlink(
                match e {
                    Some(e) => Some(e@),
                    None => None,
                },
            ),
            CreateState::Over(r) => CreateView::Over(kind_view(r)),
        }
    }
}

/// The fault that neither a junction nor a symbolic link could be made.
pub open spec fn both_failed(first: Seq<char>, second: Seq<char>) -> FaultView {
    FaultView {
        kind: FaultKind::Other,
        code: None,
        text: "创建 junction 失败（"@ + first + "），回退符号链接也失败（"@ + second
            + "）。符号链接需要管理员权限或开启开发者模式。"@,
    }
}

/// The state behind `s` once what it asks for was tried.
pub open spec fn create_after(s: CreateView, fault: Option<FaultView>) -> CreateView {
    match s {
        CreateView::Dir => match fault {
            None => CreateView::Point,
            Some(e) => CreateView::Symlink(Some(e)),
        },
        CreateView::Point => match fault {
            None => CreateView::Over(Ok(LinkKind::Junction)),
            Some(e) => CreateView::Undo(e),
        },
        CreateView::Undo(e) => CreateView::Symlink(Some(e)),
        CreateView::Symlink(first) => match (first, fault) {
            (_, None) => CreateView::Over(Ok(LinkKind::Symlink)),
            (None, Some(e)) => CreateView::Over(Err(e)),
            (Some(f), Some(e)) => CreateView::Over(Err(both_failed(f.text, e.text))),
        },
        CreateView::Over(r) => CreateView::Over(r),
    }
}

/// A link being made.
#[derive(Debug, PartialEq, Eq)]
pub struct CreateRun {
    pub target: PathBuf,
    pub link: PathBuf,
    pub state: CreateState,
}

/// The state in which the making of a link begins: junctions are only made on
/// Windows, and only where they are wanted.
pub open spec fn create_start(style: Style, preferred: LinkType) -> CreateView {
    if style == Style::Windows && preferred == LinkType::Junction {
        CreateView::Dir
    } else {
        CreateView::Symlink(None)
    }
}

fn create_from(target: PathBuf, link: PathBuf, preferred: LinkType) -> (r: CreateRun)
    ensures
        r.target == target,
        r.link == link,
        r.state@ == create_start(link@.style, preferred),
{
    let state = if link.style == Style::Windows && preferred == LinkType::Junction {
        CreateState::Dir
    } else {
        CreateState::Symlink(None)
    };
    CreateRun { target, link, state }
}

/// Begins to make a link at `link` to `target`, made absolute: a link that says a
/// relative path leads elsewhere when it is followed from elsewhere.
pub fn create_dir_link(
    target: PathBuf,
    link: PathBuf,
    preferred: LinkType,
    cwd: &Result<PathBuf, IoFault>,
) -> (r: CreateRun)
    ensures
        r.link == link,
        match absolute(target@, read_view(*cwd)) {
            Ok(t) => r.target@ == t && r.state@ == create_start(link@.style, preferred),
            Err(e) => r.target@ == target@ && r.state@ == CreateView::Over(Err(e)),
        },
{
    match absolutize(&target, cwd) {
        Ok(t) => create_from(t, link, preferred),
        Err(e) => CreateRun { target, link, state: CreateState::Over(Err(e)) },
    }
}

/// What is to be done next in making a link.
pub open spec fn create_wants(s: CreateView, target: PathView, link: PathView) -> Option<
    LinkActionView,
> {
    match s {
        CreateView::Dir => Some(LinkActionView::MakeDir { at: link }),
        CreateView::Point => Some(LinkActionView::SetMountPoint { at: link, target }),
        CreateView::Undo(_) => Some(LinkActionView::RemoveDir { at: link }),
        CreateView::Symlink(_) => Some(LinkActionView::Symlink { target, at: link }),
        CreateView::Over(_) => None,
    }
}

impl CreateRun {
    /// What is to be done next.
    pub open spec fn wants(self) -> Option<LinkActionView> {
        create_wants(self.state@, self.target@, self.link@)
    }

    /// What is to be done next.
    pub fn action(&self) -> (r: Option<LinkAction>)
        ensures
            match r {
                Some(a) => self.wants() == Some(a@),
                None => self.wants() is None,
            },
    {
        match &self.state {
            CreateState::Dir => Some(LinkAction::MakeDir { at: self.link.clone() }),
            CreateState::Point => Some(
                LinkAction::SetMountPoint { at: self.link.clone(), target: self.target.clone() },
            ),
            CreateState::Undo(_) => Some(LinkAction::RemoveDir { at: self.link.clone() }),
            CreateState::Symlink(_) => Some(
                LinkAction::Symlink { target: self.target.clone(), at: self.link.clone() },
            ),
            CreateState::Over(_) => None,
        }
    }

    /// Goes on once what was to be done was tried.
    pub fn step(self, fault: Option<IoFault>) -> (r: CreateRun)
        ensures
            r.target == self.target,
            r.link == self.link,
            r.state@ == create_after(self.state@, crate::platform::opt_fault(fault)),
    {
        let CreateRun { target, link, state } = self;
        let state = match state {
            CreateState::Dir => match fault {
                None => CreateState::Point,
                Some(e) => CreateState::Symlink(Some(e)),
            },
            CreateState::Point => match fault {
                None => CreateState::Over(Ok(LinkKind::Junction)),
                Some(e) => CreateState::Undo(e),
            },
            CreateState::Undo(e) => CreateState::Symlink(Some(e)),
            CreateState::Symlink(first) => match (first, fault) {
                (_, None) => CreateState::Over(Ok(LinkKind::Symlink)),
                (None, Some(e)) => CreateState::Over(Err(e)),
                (Some(f), Some(e)) => {
                    let mut text = cat("创建 junction 失败（", f.text.as_str());
                    text.append("），回退符号链接也失败（");
                    text.append(e.text.as_str());
                    text.append("）。符号链接需要管理员权限或开启开发者模式。");
                    CreateState::Over(Err(IoFault { kind: FaultKind::Other, code: None, text }))
                },
            },
            CreateState::Over(r) => CreateState::Over(r),
        };
        CreateRun { target, link, state }
    }
}

/// How many steps the making of a link takes at most from here.
pub open spec fn create_rank(s: CreateView) -> nat {
    match s {
        CreateView::Dir => 4,
        CreateView::Point => 3,
        CreateView::Undo(_) => 2,
        CreateView::Symlink(_) => 1,
        CreateView::Over(_) => 0,
    }
}

/// The making of a link ends, and says that there is one just where making it
/// went well.
pub proof fn law_create_ends(s: CreateView, fault: Option<FaultView>)
    ensures
        !(s is Over) ==> create_rank(create_after(s, fault)) < create_rank(s),
        !(s is Over) && create_after(s, fault) == CreateView::Over(Ok(LinkKind::Junction))
            ==> s is Point && fault is None,
        !(s is Over) && create_after(s, fault) == CreateView::Over(Ok(LinkKind::Symlink))
            ==> s is Symlink && fault is None,
{
}

/// The name of the link that stands in while another is repointed.
pub open spec fn relink_name(style: Style, name: Option<Seq<u8>>, pid: u32) -> Seq<u8> {
    let text = match name {
        Some(n) => shown(style, n),
        None => ""@,
    };
    vstd::utf8::encode_utf8(".cshl-relink-"@ + dec(pid as int) + "-"@ + text)
}

/// The name of the stand-in is text, and longer than what it is made of, so that it is
/// never the name that it stands in for.
proof fn lemma_stand_in_differs(name: Seq<u8>, pid: u32, text: Seq<char>)
    requires
        vstd::utf8::valid_utf8(name) ==> text == vstd::utf8::decode_utf8(name),
    ensures
        vstd::utf8::encode_utf8(".cshl-relink-"@ + dec(pid as int) + "-"@ + text) != name,
        vstd::utf8::encode_utf8(".cshl-relink-"@ + dec(pid as int) + "-"@ + text).len() > 2,
{
    let head = ".cshl-relink-"@ + dec(pid as int) + "-"@;
    vstd::utf8::encode_utf8_valid_utf8(head + text);
    lemma_encode_concat(head, text);
    lemma_encode_concat(".cshl-relink-"@ + dec(pid as int), "-"@);
    lemma_encode_concat(".cshl-relink-"@, dec(pid as int));
    reveal_strlit("-");
    assert("-"@.drop_first() =~= Seq::<char>::empty());
    assert(vstd::utf8::encode_utf8("-"@).len() >= 1);
    lemma_encode_long(".cshl-relink-"@);
    reveal_strlit(".cshl-relink-");
    if vstd::utf8::valid_utf8(name) {
        vstd::utf8::decode_utf8_encode_utf8(name);
    }
}

/// How far the repointing of a link has got.
#[derive(Debug, PartialEq, Eq)]
pub enum RepointState {
    /// What a failed try left behind is to be removed.
    Sweep(PathBuf),
    /// The link that stands in is to be made.
    Temp(PathBuf),
    /// It is to replace the link.
    Replace(PathBuf),
    /// It is to be removed again.
    DropTemp(PathBuf, IoFault),
    /// It is to be looked what kind of link is there.
    Look,
    /// It is to be read what it says.
    Read(LinkKind),
    /// It is to be removed.
    Remove(Option<(LinkKind, PathBuf)>),
    /// The new one is to be made.
    Create(Option<(LinkKind, PathBuf)>, CreateRun),
    /// The old one is to be made again.
    Restore(IoFault, CreateRun),
    Over(Result<LinkKind, IoFault>),
}

/// What came of a step of repointing.
#[derive(Debug, PartialEq, Eq)]
pub enum RepointEvent {
    /// Something was tried.
    Tried(Option<IoFault>),
    /// It was looked what kind of link is there.
    Looked(Result<Option<LinkKind>, IoFault>),
    /// It was read what the link says.
    Said(Result<PathBuf, IoFault>),
}

/// A link being repointed.
#[derive(Debug, PartialEq, Eq)]
pub struct RepointRun {
    pub link: PathBuf,
    pub target: PathBuf,
    pub preferred: LinkType,
    pub state: RepointState,
}

/// The fault that a link has nothing above it.
pub open spec fn no_parent_fault() -> FaultView {
    FaultView { kind: FaultKind::InvalidInput, code: None, text: "链接路径没有父目录"@ }
}

/// Begins to repoint the link at `link` to `target`, made absolute. On Unix a link that
/// stands in replaces it in one go; on Windows it has to be removed first.
pub fn repoint_dir_link(
    link: PathBuf,
    target: PathBuf,
    preferred: LinkType,
    pid: u32,
    cwd: &Result<PathBuf, IoFault>,
) -> (r: RepointRun)
    ensures
        r.link == link,
        r.preferred == preferred,
        match absolute(target@, read_view(*cwd)) {
            Ok(t) => r.target@ == t && match link@.style {
                Style::Unix => match link@.parent() {
                    Some(p) => r.state matches RepointState::Sweep(tmp) && tmp@ == p.child(
                        relink_name(link@.style, link@.file_name(), pid),
                    ) && tmp@ != link@,
                    None => r.state matches RepointState::Over(Err(e)) && e@ == no_parent_fault(),
                },
                Style::Windows => r.state is Look,
            },
            Err(e) => r.target@ == target@ && (r.state matches RepointState::Over(Err(f)) && f@
                == e),
        },
{
    let target = match absolutize(&target, cwd) {
        Ok(t) => t,
        Err(e) => {
            return RepointRun { link, target, preferred, state: RepointState::Over(Err(e)) };
        },
    };
    let state = match link.style {
        Style::Unix => match link.parent() {
            Some(p) => {
                let mut name = cat(".cshl-relink-", show(pid as u64).as_str());
                name.append("-");
                match link.file_name() {
                    Some(n) => {
                        let text = show_bytes(link.style, &n);
                        proof {
                            lemma_stand_in_differs(n@, pid, text@);
                        }
                        name.append(text.as_str());
                    },
                    None => {
                        proof {
                            reveal_strlit("");
                            assert(""@ =~= vstd::utf8::decode_utf8(Seq::empty()));
                            lemma_stand_in_differs(Seq::empty(), pid, ""@);
                        }
                        name.append("");
                    },
                }
                let tmp = p.child(name.as_str().as_bytes());
                assert(tmp@.parts.last() == relink_name(link@.style, link@.file_name(), pid));
                RepointState::Sweep(tmp)
            },
            None => RepointState::Over(
                Err(
                    IoFault {
                        kind: FaultKind::InvalidInput,
                        code: None,
                        text: "链接路径没有父目录".to_owned(),
                    },
                ),
            ),
        },
        Style::Windows => RepointState::Look,
    };
    RepointRun { link, target, preferred, state }
}

/// The type of link that is asked for to get a kind of link.
pub open spec fn type_for(kind: LinkKind) -> LinkType {
    match kind {
        LinkKind::Junction => LinkType::Junction,
        LinkKind::Symlink => LinkType::Symlink,
    }
}

impl RepointRun {
    /// What is to be done next.
    pub open spec fn wants(self) -> Option<LinkActionView> {
        match self.state {
            RepointState::Sweep(tmp) => Some(LinkActionView::RemoveFile { at: tmp@ }),
            RepointState::Temp(tmp) => Some(
                LinkActionView::Symlink { target: self.target@, at: tmp@ },
            ),
            RepointState::Replace(tmp) => Some(
                LinkActionView::Replace { from: tmp@, to: self.link@ },
            ),
            RepointState::DropTemp(tmp, _) => Some(LinkActionView::RemoveFile { at: tmp@ }),
            RepointState::Look => Some(LinkActionView::Look { at: self.link@ }),
            RepointState::Read(_) => Some(LinkActionView::Read { at: self.link@ }),
            RepointState::Remove(_) => Some(unlinking(self.link@)),
            RepointState::Create(_, run) => run.wants(),
            RepointState::Restore(_, run) => run.wants(),
            RepointState::Over(_) => None,
        }
    }

    /// What is to be done next.
    pub fn action(&self) -> (r: Option<LinkAction>)
        ensures
            match r {
                Some(a) => self.wants() == Some(a@),
                None => self.wants() is None,
            },
    {
        match &self.state {
            RepointState::Sweep(tmp) => Some(LinkAction::RemoveFile { at: tmp.clone() }),
            RepointState::Temp(tmp) => Some(
                LinkAction::Symlink { target: self.target.clone(), at: tmp.clone() },
            ),
            RepointState::Replace(tmp) => Some(
                LinkAction::Replace { from: tmp.clone(), to: self.link.clone() },
            ),
            RepointState::DropTemp(tmp, _) => Some(LinkAction::RemoveFile { at: tmp.clone() }),
            RepointState::Look => Some(LinkAction::Look { at: self.link.clone() }),
            RepointState::Read(_) => Some(LinkAction::Read { at: self.link.clone() }),
            RepointState::Remove(_) => Some(remove_dir_link(&self.link)),
            RepointState::Create(_, run) => run.action(),
            RepointState::Restore(_, run) => run.action(),
            RepointState::Over(_) => None,
        }
    }

    /// Whether `next` is the state behind this one once `event` came. An event
    /// that does not fit is ignored.
    pub open spec fn leads_to(self, event: RepointEvent, next: RepointState) -> bool {
        match (self.state, event) {
            (RepointState::Sweep(tmp), RepointEvent::Tried(_)) => next == RepointState::Temp(tmp),
            (RepointState::Temp(tmp), RepointEvent::Tried(f)) => match f {
                None => next == RepointState::Replace(tmp),
                Some(e) => next == RepointState::Over(Err(e)),
            },
            (RepointState::Replace(tmp), RepointEvent::Tried(f)) => match f {
                None => next == RepointState::Over(Ok(LinkKind::Symlink)),
                Some(e) => next == RepointState::DropTemp(tmp, e),
            },
            (RepointState::DropTemp(_, e), RepointEvent::Tried(_)) => next == RepointState::Over(
                Err(e),
            ),
            (RepointState::Look, RepointEvent::Looked(found)) => match found {
                Ok(Some(kind)) => next == RepointState::Read(kind),
                Ok(None) => next == RepointState::Remove(None),
                Err(e) => next == RepointState::Over(Err(e)),
            },
            (RepointState::Read(kind), RepointEvent::Said(said)) => match said {
                Ok(target) => next == RepointState::Remove(Some((kind, target))),
                Err(_) => next == RepointState::Remove(None),
            },
            (RepointState::Remove(old_link), RepointEvent::Tried(f)) => match f {
                None => next matches RepointState::Create(kept, run) && kept == old_link
                    && run.target@ == self.target@ && run.link@ == self.link@ && run.state@
                    == create_start(self.link@.style, self.preferred),
                Some(e) => next == RepointState::Over(Err(e)),
            },
            (RepointState::Create(old_link, run), RepointEvent::Tried(f)) => {
                let s = create_after(run.state@, crate::platform::opt_fault(f));
                match s {
                    CreateView::Over(Ok(k)) => next == RepointState::Over(Ok(k)),
                    CreateView::Over(Err(e)) => match old_link {
                        Some((kind, target)) => next matches RepointState::Restore(g, again) && g@
                            == e && again.target@ == normal(plain(target@)) && again.link@
                            == self.link@ && again.state@ == create_start(
                            self.link@.style,
                            type_for(kind),
                        ),
                        None => next matches RepointState::Over(Err(g)) && g@ == e,
                    },
                    _ => next matches RepointState::Create(kept, more) && kept == old_link
                        && more.target == run.target && more.link == run.link && more.state@ == s,
                }
            },
            (RepointState::Restore(e, run), RepointEvent::Tried(f)) => {
                let s = create_after(run.state@, crate::platform::opt_fault(f));
                match s {
                    CreateView::Over(_) => next == RepointState::Over(Err(e)),
                    _ => next matches RepointState::Restore(g, more) && g == e && more.target
                        == run.target && more.link == run.link && more.state@ == s,
                }
            },
            _ => next == self.state,
        }
    }

    /// Goes on once what was to be done was tried.
    pub fn step(self, event: RepointEvent) -> (r: RepointRun)
        ensures
            r.link == self.link,
            r.target == self.target,
            r.preferred == self.preferred,
            self.leads_to(event, r.state),
    {
        let RepointRun { link, target, preferred, state } = self;
        let state = match (state, event) {
            (RepointState::Sweep(tmp), RepointEvent::Tried(_)) => RepointState::Temp(tmp),
            (RepointState::Temp(tmp), RepointEvent::Tried(f)) => match f {
                None => RepointState::Replace(tmp),
                Some(e) => RepointState::Over(Err(e)),
            },
            (RepointState::Replace(tmp), RepointEvent::Tried(f)) => match f {
                None => RepointState::Over(Ok(LinkKind::Symlink)),
                Some(e) => RepointState::DropTemp(tmp, e),
            },
            (RepointState::DropTemp(_, e), RepointEvent::Tried(_)) => RepointState::Over(Err(e)),
            (RepointState::Look, RepointEvent::Looked(found)) => match found {
                Ok(Some(kind)) => RepointState::Read(kind),
                Ok(None) => RepointState::Remove(None),
                Err(e) => RepointState::Over(Err(e)),
            },
            (RepointState::Read(kind), RepointEvent::Said(said)) => match said {
                Ok(target) => RepointState::Remove(Some((kind, target))),
                Err(_) => RepointState::Remove(None),
            },
            (RepointState::Remove(old_link), RepointEvent::Tried(f)) => match f {
                None => RepointState::Create(
                    old_link,
                    create_from(target.clone(), link.clone(), preferred),
                ),
                Some(e) => RepointState::Over(Err(e)),
            },
            (RepointState::Create(old_link, run), RepointEvent::Tried(f)) => {
                let more = run.step(f);
                match more.state {
                    CreateState::Over(Ok(k)) => RepointState::Over(Ok(k)),
                    CreateState::Over(Err(e)) => match old_link {
                        Some((kind, said)) => {
                            let wanted = match kind {
                                LinkKind::Junction => LinkType::Junction,
                                LinkKind::Symlink => LinkType::Symlink,
                            };
                            let again = create_from(
                                normalize_dots(&strip_verbatim(&said)),
                                link.clone(),
                                wanted,
                            );
                            RepointState::Restore(e, again)
                        },
                        None => RepointState::Over(Err(e)),
                    },
                    _ => RepointState::Create(old_link, more),
                }
            },
            (RepointState::Restore(e, run), RepointEvent::Tried(f)) => {
                let more = run.step(f);
                match more.state {
                    CreateState::Over(_) => RepointState::Over(Err(e)),
                    _ => RepointState::Restore(e, more),
                }
            },
            (state, _) => state,
        };
        RepointRun { link, target, preferred, state }
    }
}

/// A link: its kind, and what it says.
pub struct LinkView {
    pub kind: LinkKind,
    pub target: PathView,
}

/// What links there are, once something was tried.
pub open spec fn links_after(
    links: Map<PathView, LinkView>,
    action: LinkActionView,
    worked: bool,
) -> Map<PathView, LinkView> {
    if !worked {
        links
    } else {
        match action {
            LinkActionView::RemoveDir { at } => links.remove(at),
            LinkActionView::RemoveFile { at } => links.remove(at),
            LinkActionView::SetMountPoint { at, target } => links.insert(
                at,
                LinkView { kind: LinkKind::Junction, target },
            ),
            LinkActionView::Symlink { target, at } => links.insert(
                at,
                LinkView { kind: LinkKind::Symlink, target },
            ),
            LinkActionView::Replace { from, to } => links.remove(from).insert(to, links[from]),
            _ => links,
        }
    }
}

/// Whether there is a link at `at` that says `target`.
pub open spec fn says(links: Map<PathView, LinkView>, at: PathView, target: PathView) -> bool {
    links.dom().contains(at) && links[at].target == target
}

/// Whether there is a link of the kind `kind` at `at` that says `target`.
pub open spec fn is_link(
    links: Map<PathView, LinkView>,
    at: PathView,
    kind: LinkKind,
    target: PathView,
) -> bool {
    links.dom().contains(at) && links[at] == (LinkView { kind, target })
}

/// What holds of a link that said `before` when it began to be repointed: on Unix
/// it is always there, says `before` until it says where it is to lead, and says
/// `before` again where that failed; on Windows it says `before` until it is
/// removed. Where repointing went well it leads where it is to.
pub open spec fn on_the_way(
    run: RepointRun,
    links: Map<PathView, LinkView>,
    before: PathView,
) -> bool {
    match run.state {
        RepointState::Sweep(tmp) => tmp@ != run.link@ && says(links, run.link@, before),
        RepointState::Temp(tmp) => tmp@ != run.link@ && says(links, run.link@, before),
        RepointState::Replace(tmp) => tmp@ != run.link@ && says(links, run.link@, before)
            && is_link(links, tmp@, LinkKind::Symlink, run.target@),
        RepointState::DropTemp(tmp, _) => tmp@ != run.link@ && says(links, run.link@, before),
        RepointState::Look => says(links, run.link@, before),
        RepointState::Read(_) => says(links, run.link@, before),
        RepointState::Remove(_) => says(links, run.link@, before),
        RepointState::Create(_, making) => making.link@ == run.link@ && making.target@
            == run.target@ && !(making.state is Over),
        RepointState::Restore(_, making) => making.link@ == run.link@ && !(making.state is Over),
        RepointState::Over(Ok(kind)) => is_link(links, run.link@, kind, run.target@),
        RepointState::Over(Err(_)) => run.link@.style == Style::Unix ==> says(
            links,
            run.link@,
            before,
        ),
    }
}

/// Whether the state is one of those that repointing on Unix goes through.
pub open spec fn unix_state(s: RepointState) -> bool {
    s is Sweep || s is Temp || s is Replace || s is DropTemp || s is Over
}

/// A link that is repointed leads where it did or where it is to; on Unix it is
/// there all the time.
pub proof fn law_repoint_on_the_way(
    run: RepointRun,
    links: Map<PathView, LinkView>,
    before: PathView,
    event: RepointEvent,
    next: RepointRun,
)
    requires
        on_the_way(run, links, before),
        run.link@.style == Style::Unix ==> unix_state(run.state),
        run.wants() is Some,
        next.link == run.link,
        next.target == run.target,
        run.leads_to(event, next.state),
    ensures
        run.link@.style == Style::Unix ==> unix_state(next.state),
        event matches RepointEvent::Tried(f) ==> on_the_way(
            next,
            links_after(links, run.wants()->0, f is None),
            before,
        ),
        !(event is Tried) ==> on_the_way(next, links, before),
        run.link@.style == Style::Unix ==> links.dom().contains(run.link@),
{
}

/// Where the link could not be repointed once it was removed, it is made again
/// first, if it was known what it said.
pub proof fn law_repoint_restores(
    run: RepointRun,
    event: RepointEvent,
    next: RepointState,
    kind: LinkKind,
    said: PathBuf,
    making: CreateRun,
)
    requires
        run.state == RepointState::Create(Some((kind, said)), making),
        run.leads_to(event, next),
    ensures
        !(next matches RepointState::Over(Err(_))),
        next matches RepointState::Restore(_, again) ==> again.link@ == run.link@ && again.target@
            == normal(plain(said@)),
{
}

/// That the system answers of links as they are: it removes what is there, makes
/// nothing where something is, and moves nothing that is not there.
pub open spec fn links_allow(
    links: Map<PathView, LinkView>,
    action: LinkActionView,
    fault: Option<FaultView>,
) -> bool {
    match action {
        LinkActionView::RemoveFile { at } => fault is None <==> links.dom().contains(at),
        LinkActionView::Symlink { target, at } => fault is None ==> !links.dom().contains(at),
        LinkActionView::Replace { from, to } => fault is None ==> links.dom().contains(from),
        _ => true,
    }
}

/// That `next` is where a link being repointed is, and `after` what links there are,
/// once what `run` asks for was answered with `event`.
pub open spec fn repoints(
    run: RepointRun,
    links: Map<PathView, LinkView>,
    event: RepointEvent,
    next: RepointRun,
    after: Map<PathView, LinkView>,
) -> bool {
    &&& run.wants() is Some
    &&& next.link == run.link
    &&& next.target == run.target
    &&& run.leads_to(event, next.state)
    &&& event matches RepointEvent::Tried(f) ==> links_allow(
        links,
        run.wants()->0,
        crate::platform::opt_fault(f),
    ) && after == links_after(links, run.wants()->0, f is None)
    &&& !(event is Tried) ==> after == links
}

/// Whatever comes of the steps of repointing a link, on any system: it leads where it did
/// until it is removed or replaced, and where repointing went well there is a link of the
/// kind that is told, which says just where it was to lead.
pub proof fn law_every_repoint(
    runs: Seq<RepointRun>,
    links: Seq<Map<PathView, LinkView>>,
    events: Seq<RepointEvent>,
    before: PathView,
)
    requires
        runs.len() == events.len() + 1,
        links.len() == events.len() + 1,
        runs[0].state is Sweep || runs[0].state is Look,
        runs[0].link@.style == Style::Unix ==> runs[0].state is Sweep,
        on_the_way(runs[0], links[0], before),
        forall|i: int|
            #![trigger events[i]]
            0 <= i < events.len() ==> repoints(
                runs[i],
                links[i],
                events[i],
                runs[i + 1],
                links[i + 1],
            ),
    ensures
        runs.last().link == runs[0].link,
        runs.last().target == runs[0].target,
        runs[0].link@.style == Style::Unix ==> unix_state(runs.last().state),
        on_the_way(runs.last(), links.last(), before),
        runs.last().state matches RepointState::Over(Ok(kind)) ==> is_link(
            links.last(),
            runs[0].link@,
            kind,
            runs[0].target@,
        ),
    decreases events.len(),
{
    if events.len() > 0 {
        let n = events.len() - 1;
        let r = runs.drop_last();
        let l = links.drop_last();
        let e = events.drop_last();
        assert forall|i: int| #![trigger e[i]] 0 <= i < e.len() implies repoints(
            r[i],
            l[i],
            e[i],
            r[i + 1],
            l[i + 1],
        ) by {
            assert(e[i] == events[i]);
        }
        law_every_repoint(r, l, e, before);
        assert(events[n] == events.last());
        assert(r.last() == runs[n] && l.last() == links[n]);
        law_repoint_on_the_way(runs[n], links[n], before, events[n], runs[n + 1]);
    }
}

/// Where the stand-in is, as long as there may be one.
pub open spec fn stands_in(s: RepointState, tmp: PathView) -> bool {
    match s {
        RepointState::Sweep(t) => t@ == tmp,
        RepointState::Temp(t) => t@ == tmp,
        RepointState::Replace(t) => t@ == tmp,
        RepointState::DropTemp(t, _) => t@ == tmp,
        _ => true,
    }
}

/// Whatever comes of the steps of repointing a link on Unix: the link is there at every
/// moment. Once it is over, it is a symbolic link to where it was to lead where that went
/// well, and leads where it did where it did not; no stand-in is left; and every other
/// link is as it was.
pub proof fn law_repoint_on_unix(
    runs: Seq<RepointRun>,
    links: Seq<Map<PathView, LinkView>>,
    events: Seq<RepointEvent>,
    before: LinkView,
    tmp: PathView,
)
    requires
        runs.len() == events.len() + 1,
        links.len() == events.len() + 1,
        runs[0].link@.style == Style::Unix,
        runs[0].state matches RepointState::Sweep(t) && t@ == tmp && tmp != runs[0].link@,
        is_link(links[0], runs[0].link@, before.kind, before.target),
        forall|i: int|
            #![trigger events[i]]
            0 <= i < events.len() ==> repoints(
                runs[i],
                links[i],
                events[i],
                runs[i + 1],
                links[i + 1],
            ),
    ensures
        runs.last().link == runs[0].link,
        runs.last().target == runs[0].target,
        links.last().dom().contains(runs[0].link@),
        unix_state(runs.last().state),
        stands_in(runs.last().state, tmp),
        on_the_way(runs.last(), links.last(), before.target),
        runs.last().state matches RepointState::Over(r) ==> {
            &&& !links.last().dom().contains(tmp)
            &&& r is Ok ==> r->Ok_0 == LinkKind::Symlink && is_link(
                links.last(),
                runs[0].link@,
                LinkKind::Symlink,
                runs[0].target@,
            )
            &&& r is Err ==> is_link(links.last(), runs[0].link@, before.kind, before.target)
        },
        !(runs.last().state is Over) ==> is_link(
            links.last(),
            runs[0].link@,
            before.kind,
            before.target,
        ),
        runs.last().state is Temp ==> !links.last().dom().contains(tmp),
        forall|p: PathView|
            p != tmp && p != runs[0].link@ ==> (#[trigger] links.last().dom().contains(p)
                <==> links[0].dom().contains(p)) && (links[0].dom().contains(p) ==> links.last()[p]
                == links[0][p]),
    decreases events.len(),
{
    if events.len() > 0 {
        let n = events.len() - 1;
        let r = runs.drop_last();
        let l = links.drop_last();
        let e = events.drop_last();
        assert forall|i: int| #![trigger e[i]] 0 <= i < e.len() implies repoints(
            r[i],
            l[i],
            e[i],
            r[i + 1],
            l[i + 1],
        ) by {
            assert(e[i] == events[i]);
        }
        law_repoint_on_unix(r, l, e, before, tmp);
        assert(events[n] == events.last());
        assert(repoints(runs[n], links[n], events[n], runs[n + 1], links[n + 1]));
        assert(r.last() == runs[n] && l.last() == links[n]);
        law_repoint_on_the_way(runs[n], links[n], before.target, events[n], runs[n + 1]);
        assert forall|p: PathView| p != tmp && p != runs[0].link@ implies (
        #[trigger] links.last().dom().contains(p) <==> links[0].dom().contains(p)) && (
        links[0].dom().contains(p) ==> links.last()[p] == links[0][p]) by {
            assert(l.last().dom().contains(p) <==> links[0].dom().contains(p));
            assert(links[n + 1].dom().contains(p) <==> links[n].dom().contains(p));
            assert(links[n].dom().contains(p) ==> links[n + 1][p] == links[n][p]);
        }
    }
}

/// A link that was made reads back as it was to: whatever came of the steps before, it
/// is of the kind that is told, and says just the absolute path that it was made for.
pub proof fn law_made_link_reads_back(
    target: PathView,
    link: PathView,
    states: Seq<CreateView>,
    links: Seq<Map<PathView, LinkView>>,
    faults: Seq<Option<FaultView>>,
)
    requires
        faults.len() > 0,
        states.len() == faults.len() + 1,
        links.len() == faults.len() + 1,
        forall|i: int|
            #![trigger faults[i]]
            0 <= i < faults.len() ==> !(states[i] is Over) && states[i + 1] == create_after(
                states[i],
                faults[i],
            ) && links[i + 1] == links_after(
                links[i],
                create_wants(states[i], target, link)->0,
                faults[i] is None,
            ),
    ensures
        states.last() matches CreateView::Over(Ok(kind)) ==> is_link(
            links.last(),
            link,
            kind,
            target,
        ),
{
    let n = faults.len() - 1;
    assert(states[n + 1] == create_after(states[n], faults[n]));
}

proof fn lemma_undotted_behind(a: Seq<Seq<u8>>, b: Seq<Seq<u8>>, c: Seq<Seq<u8>>, anchored: bool)
    requires
        undotted(a, anchored) == undotted(b, anchored),
    ensures
        undotted(a + c, anchored) == undotted(b + c, anchored),
    decreases c.len(),
{
    if c.len() == 0 {
        assert(a + c =~= a);
        assert(b + c =~= b);
    } else {
        lemma_undotted_behind(a, b, c.drop_last(), anchored);
        assert((a + c).drop_last() =~= a + c.drop_last());
        assert((b + c).drop_last() =~= b + c.drop_last());
    }
}

/// What taking `.` and `..` out of a path is: a path without them stays as it is, `.`
/// means nothing wherever it stands, `..` takes away the name before it, and nothing is
/// above a root.
pub proof fn law_dots(p: PathView, a: Seq<Seq<u8>>, name: Seq<u8>, b: Seq<Seq<u8>>)
    requires
        is_name(name),
    ensures
        (forall|i: int| 0 <= i < a.len() ==> is_name(#[trigger] a[i])) ==> normal(
            PathView { parts: a, ..p },
        ) == (PathView { parts: a, ..p }),
        normal(PathView { parts: a.push(dot()) + b, ..p }) == normal(PathView { parts: a + b, ..p }),
        normal(PathView { parts: a.push(name).push(dot_dot()) + b, ..p }) == normal(
            PathView { parts: a + b, ..p },
        ),
        p.rooted || p.prefix is Some ==> normal(PathView { parts: seq![dot_dot()] + b, ..p })
            == normal(PathView { parts: b, ..p }),
        normal(p).style == p.style && normal(p).prefix == p.prefix && normal(p).rooted == p.rooted,
{
    let anchored = p.rooted || p.prefix is Some;
    if forall|i: int| 0 <= i < a.len() ==> is_name(#[trigger] a[i]) {
        assert(is_normal(a, anchored)) by {
            assert forall|i: int| 0 <= i < a.len() implies #[trigger] a[i] != dot() && a[i]
                != dot_dot() by {
                assert(is_name(a[i]));
            }
        }
        lemma_undotted_same(a, anchored);
    }
    assert(dot_dot() != dot()) by {
        assert(dot_dot().len() == 2);
        assert(dot().len() == 1);
    }
    assert(a.push(dot()).drop_last() =~= a);
    lemma_undotted_behind(a.push(dot()), a, b, anchored);
    let c = a.push(name);
    let d = c.push(dot_dot());
    assert(d.drop_last() =~= c);
    assert(c.drop_last() =~= a);
    let r = undotted(a, anchored);
    assert(undotted(c, anchored) == r.push(name));
    assert(r.push(name).drop_last() =~= r);
    lemma_undotted_behind(d, a, b, anchored);
    if anchored {
        let e = seq![dot_dot()];
        assert(e.drop_last() =~= Seq::<Seq<u8>>::empty());
        assert(undotted(e, anchored) == undotted(Seq::<Seq<u8>>::empty(), anchored));
        lemma_undotted_behind(e, Seq::empty(), b, anchored);
        assert(Seq::<Seq<u8>>::empty() + b =~= b);
    }
}

/// Making a path absolute: one that is absolute needs no working directory, and a relative
/// one stands below it. It fails just where the path is relative and the working
/// directory is not known, with why it is not.
pub proof fn law_absolute(path: PathView, cwd: Result<PathView, FaultView>)
    ensures
        path.is_absolute() ==> absolute(path, cwd) == Ok::<PathView, FaultView>(
            normal(plain(path)),
        ),
        absolute(path, cwd) is Err <==> !path.is_absolute() && cwd is Err,
        absolute(path, cwd) matches Err(e) ==> cwd == Err::<PathView, FaultView>(e),
        !path.is_absolute() && (cwd matches Ok(c) && {
            &&& c.style == path.style && c.is_absolute() && plain(c) == c
            &&& is_normal(c.parts, true)
            &&& path.prefix is None && !path.rooted
            &&& forall|i: int| 0 <= i < path.parts.len() ==> is_name(#[trigger] path.parts[i])
        }) ==> absolute(path, cwd) == Ok::<PathView, FaultView>(
            PathView { parts: cwd->Ok_0.parts + path.parts, ..cwd->Ok_0 },
        ),
{
    if let Ok(c) = cwd {
        if !path.is_absolute() && c.style == path.style && c.is_absolute() && plain(c) == c
            && is_normal(c.parts, true) && path.prefix is None && !path.rooted && (forall|i: int|
            0 <= i < path.parts.len() ==> is_name(#[trigger] path.parts[i])) {
            crate::replica::lemma_join(c, path);
            let whole = c.join(path);
            assert(is_normal(whole.parts, true)) by {
                assert forall|i: int| 0 <= i < whole.parts.len() implies #[trigger] whole.parts[i]
                    != dot() && whole.parts[i] != dot_dot() by {
                    if i < c.parts.len() {
                        assert(whole.parts[i] == c.parts[i]);
                        assert(c.parts[i] != dot() && c.parts[i] != dot_dot());
                    } else {
                        assert(whole.parts[i] == path.parts[i - c.parts.len()]);
                        assert(is_name(path.parts[i - c.parts.len()]));
                    }
                }
            }
            lemma_undotted_same(whole.parts, true);
        }
    }
}

/// The one form of a path stands in what its parent really is, under the name that it has.
/// Where that is not known, or it has none, it is the path itself.
pub proof fn law_key_stands_in_its_parent(abs: PathView, found_at: Option<PathView>)
    ensures
        abs.file_name() is Some && found_at is Some ==> key(abs, found_at).parent() == Some(
            plain(found_at->0),
        ) && key(abs, found_at).file_name() == abs.file_name(),
        abs.file_name() is None || found_at is None ==> key(abs, found_at) == abs,
{
    if let (Some(name), Some(f)) = (abs.file_name(), found_at) {
        let k = key(abs, found_at);
        assert(k.parts.drop_last() =~= plain(f).parts);
        assert(k.parts.last() == name);
    }
}

/// A link is made as it was asked for where that can be: a junction on Windows where one is
/// wanted, and else a symbolic link. Where all goes well it is of that kind.
pub proof fn law_link_as_wanted(style: Style, preferred: LinkType)
    ensures
        ({
            let a = create_start(style, preferred);
            let b = create_after(a, None);
            let c = create_after(b, None);
            let junction = style == Style::Windows && preferred == LinkType::Junction;
            &&& junction ==> a is Dir && b is Point && c == CreateView::Over(Ok(LinkKind::Junction))
            &&& !junction ==> a == CreateView::Symlink(None) && b == CreateView::Over(
                Ok(LinkKind::Symlink),
            )
        }),
        create_start(Style::Windows, type_for(LinkKind::Junction)) is Dir,
        create_start(style, type_for(LinkKind::Symlink)) is Symlink,
{
}

/// Where a junction cannot be made, a symbolic link is tried, once the directory that was
/// made for it is removed. Where that fails as well both faults are told, and where only a
/// symbolic link was tried, its own.
pub proof fn law_link_falls_back(s: CreateView, fault: FaultView)
    ensures
        ({
            let next = create_after(s, Some(fault));
            &&& s is Dir ==> next == CreateView::Symlink(Some(fault))
            &&& s is Point ==> next == CreateView::Undo(fault)
            &&& s matches CreateView::Undo(e) ==> next == CreateView::Symlink(Some(e))
                && create_after(s, None) == CreateView::Symlink(Some(e))
            &&& s == CreateView::Symlink(None) ==> next == CreateView::Over(Err(fault))
            &&& s matches CreateView::Symlink(Some(e)) ==> (next matches CreateView::Over(Err(f))
                && holds(f.text, e.text) && holds(f.text, fault.text))
            &&& s is Symlink ==> create_after(s, None) == CreateView::Over(Ok(LinkKind::Symlink))
            &&& s is Over ==> next == s && create_after(s, None) == s
        }),
{
    if let CreateView::Symlink(Some(e)) = s {
        let a = "创建 junction 失败（"@;
        let b = "），回退符号链接也失败（"@;
        let c = "）。符号链接需要管理员权限或开启开发者模式。"@;
        crate::text::lemma_holds(a, e.text, b + fault.text + c);
        assert(a + e.text + (b + fault.text + c) =~= a + e.text + b + fault.text + c);
        crate::text::lemma_holds(a + e.text + b, fault.text, c);
    }
}

/// What is asked for in making a link is about the place of the link alone, and a link says
/// the target that it is made for.
pub proof fn law_link_asks(s: CreateView, target: PathView, link: PathView)
    ensures
        create_wants(s, target, link) is None <==> s is Over,
        s is Dir ==> create_wants(s, target, link) == Some(LinkActionView::MakeDir { at: link }),
        s is Point ==> create_wants(s, target, link) == Some(
            LinkActionView::SetMountPoint { at: link, target },
        ),
        s is Undo ==> create_wants(s, target, link) == Some(LinkActionView::RemoveDir { at: link }),
        s is Symlink ==> create_wants(s, target, link) == Some(
            LinkActionView::Symlink { target, at: link },
        ),
{
}

/// Repointing a link fails just where something that it needs did: what is left of an
/// earlier try need not be there, a link that cannot be read is replaced all the same, and
/// where there is none, one is made. What is told is what failed first. What a link was and
/// said is kept until there is a new one, to be made again.
pub proof fn law_repoint_goes_well(run: RepointRun, event: RepointEvent, next: RepointRun)
    requires
        run.leads_to(event, next.state),
    ensures
        match (run.state, event) {
            (RepointState::Sweep(t), RepointEvent::Tried(_)) => next.state == RepointState::Temp(t),
            (RepointState::Temp(t), RepointEvent::Tried(f)) => if f is None {
                next.state == RepointState::Replace(t)
            } else {
                next.state == RepointState::Over(Err(f->0))
            },
            (RepointState::Replace(t), RepointEvent::Tried(f)) => if f is None {
                next.state == RepointState::Over(Ok(LinkKind::Symlink))
            } else {
                next.state == RepointState::DropTemp(t, f->0)
            },
            (RepointState::DropTemp(_, e), RepointEvent::Tried(_)) => next.state
                == RepointState::Over(Err(e)),
            (RepointState::Look, RepointEvent::Looked(r)) => {
                &&& r matches Ok(Some(k)) ==> next.state == RepointState::Read(k)
                &&& r matches Ok(None) ==> next.state == RepointState::Remove(None)
                &&& r matches Err(e) ==> next.state == RepointState::Over(Err(e))
            },
            (RepointState::Read(k), RepointEvent::Said(r)) => next.state matches
                RepointState::Remove(kept) && match r {
                Ok(t) => kept == Some((k, t)),
                Err(_) => kept is None,
            },
            (RepointState::Remove(kept), RepointEvent::Tried(f)) => if f is None {
                next.state matches RepointState::Create(k, making) && k == kept && making.link@
                    == run.link@ && making.target@ == run.target@
            } else {
                next.state == RepointState::Over(Err(f->0))
            },
            (RepointState::Create(kept, making), RepointEvent::Tried(f)) => {
                let s = create_after(making.state@, crate::platform::opt_fault(f));
                &&& s matches CreateView::Over(Ok(k)) ==> next.state == RepointState::Over(Ok(k))
                &&& s matches CreateView::Over(Err(e)) ==> match kept {
                    Some((kind, said)) => next.state matches RepointState::Restore(g, again) && g@
                        == e && again.state@ == create_start(run.link@.style, type_for(kind)),
                    None => next.state matches RepointState::Over(Err(g)) && g@ == e,
                }
                &&& !(s is Over) ==> (next.state matches RepointState::Create(k, more) && k == kept
                    && more.state@ == s)
            },
            (RepointState::Restore(e, making), RepointEvent::Tried(f)) => next.state
                == RepointState::Over(Err(e)) || (next.state matches RepointState::Restore(g, _)
                && g == e),
            _ => next.state == run.state,
        },
{
}

/// What is asked for in repointing a link is about the link and what stands in for it, and
/// what stands in says where the link is to lead.
pub proof fn law_repoint_asks(run: RepointRun)
    ensures
        run.state is Over ==> run.wants() is None,
        match run.state {
            RepointState::Sweep(t) => run.wants() == Some(LinkActionView::RemoveFile { at: t@ }),
            RepointState::Temp(t) => run.wants() == Some(
                LinkActionView::Symlink { target: run.target@, at: t@ },
            ),
            RepointState::Replace(t) => run.wants() == Some(
                LinkActionView::Replace { from: t@, to: run.link@ },
            ),
            RepointState::DropTemp(t, _) => run.wants() == Some(
                LinkActionView::RemoveFile { at: t@ },
            ),
            RepointState::Look => run.wants() == Some(LinkActionView::Look { at: run.link@ }),
            RepointState::Read(_) => run.wants() == Some(LinkActionView::Read { at: run.link@ }),
            RepointState::Remove(_) => run.wants() == Some(
                match run.link@.style {
                    Style::Unix => LinkActionView::RemoveFile { at: run.link@ },
                    Style::Windows => LinkActionView::RemoveDir { at: run.link@ },
                },
            ),
            RepointState::Create(_, making) => run.wants() == create_wants(
                making.state@,
                making.target@,
                making.link@,
            ),
            RepointState::Restore(_, making) => run.wants() == create_wants(
                making.state@,
                making.target@,
                making.link@,
            ),
            RepointState::Over(_) => true,
        },
{
}

/// Two processes never make one stand-in.
pub proof fn law_stand_in_is_of_one_process(style: Style, name: Option<Seq<u8>>, a: u32, b: u32)
    requires
        a != b,
    ensures
        relink_name(style, name, a) != relink_name(style, name, b),
{
    let text = match name {
        Some(n) => shown(style, n),
        None => ""@,
    };
    let head = ".cshl-relink-"@;
    crate::text::law_dec_differs(head, a as int, b as int, "-"@ + text);
    assert(head + dec(a as int) + ("-"@ + text) =~= head + dec(a as int) + "-"@ + text);
    assert(head + dec(b as int) + ("-"@ + text) =~= head + dec(b as int) + "-"@ + text);
}

} // verus!
