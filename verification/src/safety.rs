//! What is not to be moved.
//!
//! A link takes the place of what is moved, so moving the wrong directory can
//! leave a machine that does not start. What is always a mistake is refused; what
//! is only dangerous can be forced.

use vstd::prelude::*;

use crate::error::Error;
use crate::error::ErrorView;
use crate::path::is_above;
use crate::path::PathBuf;
use crate::path::PathView;
use crate::path::Prefix;
use crate::path::PrefixView;
use crate::path::Style;
use crate::platform::plain;
use crate::platform::strip_verbatim;
use crate::text::cat;
use crate::text::holds;

verus! {

/// What is to be said of a source.
#[derive(Debug, PartialEq, Eq)]
pub enum Verdict {
    Safe,
    /// Dangerous, but it can be forced.
    Risky(String),
    /// A mistake, which cannot be forced.
    Forbidden(String),
}

/// The contents of a [`Verdict`].
pub enum VerdictView {
    Safe,
    Risky(Seq<char>),
    Forbidden(Seq<char>),
}

impl View for Verdict {
    type V = VerdictView;

    open spec fn view(&self) -> VerdictView {
        match *self {
            Verdict::Safe => VerdictView::Safe,
            Verdict::Risky(r) => VerdictView::Risky(r@),
            Verdict::Forbidden(r) => VerdictView::Forbidden(r@),
        }
    }
}

/// What a path really is, where that could be found out, in the form to be kept.
pub open spec fn canonical(path: PathView, found: Option<PathView>) -> PathView {
    match found {
        Some(p) => plain(p),
        None => plain(path),
    }
}

/// What a path really is, where that could be found out, and else the path
/// itself, in the form to be kept.
pub fn canonical_or_self(path: &PathBuf, found: &Option<PathBuf>) -> (r: PathBuf)
    ensures
        r@ == canonical(path@, crate::ledger::opt_path(*found)),
{
    match found {
        Some(p) => strip_verbatim(p),
        None => strip_verbatim(path),
    }
}

/// Whether a path is that of a directory of this name at the root.
pub open spec fn is_at_root(p: PathView, name: Seq<u8>) -> bool {
    p.prefix is None && p.rooted && p.parts == seq![name]
}

/// Why a path cannot be moved because it is a whole volume.
pub open spec fn volume_root(p: PathView) -> Option<Seq<char>> {
    match p.style {
        Style::Unix => if p.prefix is None && p.rooted && p.parts.len() == 0 {
            Some("这是根目录"@)
        } else if p.parent() matches Some(up) && (is_at_root(
            up,
            vstd::utf8::encode_utf8("Volumes"@),
        ) || is_at_root(up, vstd::utf8::encode_utf8("mnt"@))) {
            Some("'"@ + p.display() + "' 是一个卷的挂载点"@)
        } else {
            None
        },
        Style::Windows => if (p.prefix matches Some(x) && (x is Disk || x is VerbatimDisk))
            && p.rooted && p.parts.len() == 0 {
            Some("这是一个驱动器的根目录"@)
        } else {
            None
        },
    }
}

fn at_root(p: &PathBuf, name: &[u8]) -> (r: bool)
    ensures
        r == is_at_root(p@, name@),
{
    if p.prefix.is_none() && p.rooted && p.parts.len() == 1 {
        let r = crate::path::same_bytes(&p.parts[0], name);
        assert(r ==> p@.parts =~= seq![name@]);
        assert(p@.parts == seq![name@] ==> p@.parts[0] == name@);
        r
    } else {
        assert(p@.parts == seq![name@] ==> p@.parts.len() == 1);
        false
    }
}

fn is_volume_root(p: &PathBuf) -> (r: Option<String>)
    ensures
        match r {
            Some(s) => volume_root(p@) == Some(s@),
            None => volume_root(p@) is None,
        },
{
    match p.style {
        Style::Unix => {
            if p.prefix.is_none() && p.rooted && p.parts.len() == 0 {
                return Some("这是根目录".to_owned());
            }
            match p.parent() {
                Some(up) => {
                    if at_root(&up, "Volumes".as_bytes()) || at_root(&up, "mnt".as_bytes()) {
                        let mut s = cat("'", p.display().as_str());
                        s.append("' 是一个卷的挂载点");
                        Some(s)
                    } else {
                        None
                    }
                },
                None => None,
            }
        },
        Style::Windows => {
            let drive = match &p.prefix {
                Some(Prefix::Disk(_)) => true,
                Some(Prefix::VerbatimDisk(_)) => true,
                _ => false,
            };
            if drive && p.rooted && p.parts.len() == 0 {
                Some("这是一个驱动器的根目录".to_owned())
            } else {
                None
            }
        },
    }
}

/// The directories that the system needs.
pub open spec fn protected(style: Style) -> Seq<Seq<char>> {
    match style {
        Style::Unix => seq![
            "/bin"@,
            "/boot"@,
            "/dev"@,
            "/etc"@,
            "/lib"@,
            "/lib64"@,
            "/proc"@,
            "/root"@,
            "/sbin"@,
            "/sys"@,
            "/usr"@,
            "/var"@,
            "/System"@,
            "/Library"@,
            "/Applications"@,
            "/private"@,
            "/cores"@,
            "/opt"@,
        ],
        Style::Windows => seq![
            "C:\\Windows"@,
            "C:\\Program Files"@,
            "C:\\Program Files (x86)"@,
            "C:\\ProgramData"@,
            "C:\\Users"@,
        ],
    }
}

fn protected_list(style: Style) -> (r: Vec<&'static str>)
    ensures
        r.len() == protected(style).len(),
        forall|i: int| 0 <= i < r.len() ==> (#[trigger] r@[i])@ == protected(style)[i],
{
    let mut v: Vec<&'static str> = Vec::new();
    match style {
        Style::Unix => {
            v.push("/bin");
            v.push("/boot");
            v.push("/dev");
            v.push("/etc");
            v.push("/lib");
            v.push("/lib64");
            v.push("/proc");
            v.push("/root");
            v.push("/sbin");
            v.push("/sys");
            v.push("/usr");
            v.push("/var");
            v.push("/System");
            v.push("/Library");
            v.push("/Applications");
            v.push("/private");
            v.push("/cores");
            v.push("/opt");
        },
        Style::Windows => {
            v.push("C:\\Windows");
            v.push("C:\\Program Files");
            v.push("C:\\Program Files (x86)");
            v.push("C:\\ProgramData");
            v.push("C:\\Users");
        },
    }
    v
}

/// The bytes without any `\\?\` at their start.
pub open spec fn trimmed(b: Seq<u8>) -> Seq<u8>
    decreases b.len(),
{
    if b.len() >= 4 && b[0] == 92 && b[1] == 92 && b[2] == 63 && b[3] == 92 {
        trimmed(b.skip(4))
    } else {
        b
    }
}

/// The lower case of a letter.
pub open spec fn lower(b: u8) -> u8 {
    if 65 <= b <= 90 {
        (b + 32) as u8
    } else {
        b
    }
}

/// Whether two byte strings are one, on Windows but for the case of letters.
pub open spec fn same_place(style: Style, a: Seq<u8>, b: Seq<u8>) -> bool {
    match style {
        Style::Unix => a == b,
        Style::Windows => a.len() == b.len() && forall|i: int|
            0 <= i < a.len() ==> lower(#[trigger] a[i]) == lower(b[i]),
    }
}

/// The first of the directories that the system needs, from `i` on, that `text`
/// is.
pub open spec fn hit(style: Style, text: Seq<u8>, i: int) -> Option<Seq<char>>
    decreases protected(style).len() - i,
{
    if i >= protected(style).len() {
        None
    } else if same_place(style, text, vstd::utf8::encode_utf8(protected(style)[i])) {
        Some(protected(style)[i])
    } else {
        hit(style, text, i + 1)
    }
}

/// Why a path cannot be moved because the system needs it.
pub open spec fn system_directory(p: PathView) -> Option<Seq<char>> {
    match hit(p.style, trimmed(p.render()), 0) {
        Some(name) => Some("'"@ + name + "' 是系统关键目录"@),
        None => None,
    }
}

fn small(b: u8) -> (r: u8)
    ensures
        r == lower(b),
{
    if 65 <= b && b <= 90 {
        b + 32
    } else {
        b
    }
}

fn matches_place(style: Style, text: &Vec<u8>, from: usize, p: &[u8]) -> (r: bool)
    requires
        from <= text.len(),
    ensures
        r == same_place(style, text@.skip(from as int), p@),
{
    let ghost a = text@.skip(from as int);
    if text.len() - from != p.len() {
        return false;
    }
    let mut i: usize = 0;
    while i < p.len()
        invariant
            0 <= i <= p.len(),
            from <= text.len(),
            text.len() - from == p.len(),
            a == text@.skip(from as int),
            style == Style::Unix ==> forall|j: int| 0 <= j < i ==> a[j] == p@[j],
            style == Style::Windows ==> forall|j: int|
                0 <= j < i ==> lower(#[trigger] a[j]) == lower(p@[j]),
        decreases p.len() - i,
    {
        let x: u8 = text[from + i];
        assert(a[i as int] == x);
        let same = match style {
            Style::Unix => x == p[i],
            Style::Windows => small(x) == small(p[i]),
        };
        if !same {
            return false;
        }
        i = i + 1;
    }
    assert(style == Style::Unix ==> a =~= p@);
    true
}

fn is_system_directory(p: &PathBuf) -> (r: Option<String>)
    ensures
        match r {
            Some(s) => system_directory(p@) == Some(s@),
            None => system_directory(p@) is None,
        },
{
    let text = p.render();
    let mut from: usize = 0;
    assert(text@.skip(0) =~= text@);
    while text.len() - from >= 4 && text[from] == 92 && text[from + 1] == 92 && text[from + 2] == 63
        && text[from + 3] == 92
        invariant
            0 <= from <= text.len(),
            trimmed(text@) == trimmed(text@.skip(from as int)),
        decreases text.len() - from,
    {
        let ghost rest = text@.skip(from as int);
        assert(rest[0] == text@[from as int] && rest[1] == text@[from + 1] && rest[2] == text@[from
            + 2] && rest[3] == text@[from + 3]);
        assert(rest.skip(4) =~= text@.skip(from + 4));
        from = from + 4;
    }
    proof {
        let rest = text@.skip(from as int);
        if rest.len() >= 4 {
            assert(rest[0] == text@[from as int] && rest[1] == text@[from + 1] && rest[2]
                == text@[from + 2] && rest[3] == text@[from + 3]);
        }
        assert(trimmed(text@) == rest);
    }
    let list = protected_list(p.style);
    let mut i: usize = 0;
    while i < list.len()
        invariant
            0 <= i <= list.len(),
            from <= text.len(),
            list.len() == protected(p.style).len(),
            forall|k: int| 0 <= k < list.len() ==> (#[trigger] list@[k])@ == protected(p.style)[k],
            trimmed(p@.render()) == text@.skip(from as int),
            p@.style == p.style,
            hit(p.style, text@.skip(from as int), 0) == hit(
                p.style,
                text@.skip(from as int),
                i as int,
            ),
        decreases list.len() - i,
    {
        if matches_place(p.style, &text, from, list[i].as_bytes()) {
            let mut s = cat("'", list[i]);
            s.append("' 是系统关键目录");
            return Some(s);
        }
        i = i + 1;
    }
    None
}

/// What is to be said of a source, by what it, the home directory and the working
/// directory really are.
pub open spec fn verdict(
    source: PathView,
    home: Option<PathView>,
    cwd: Option<PathView>,
) -> VerdictView {
    if volume_root(source) is Some {
        VerdictView::Forbidden(volume_root(source)->0)
    } else if home == Some(source) {
        VerdictView::Risky("这是你的用户主目录"@)
    } else if system_directory(source) is Some {
        VerdictView::Forbidden(system_directory(source)->0)
    } else if cwd matches Some(c) && c.starts_with(source) {
        VerdictView::Risky("'"@ + source.display() + "' 包含你当前所在的工作目录"@)
    } else {
        VerdictView::Safe
    }
}

/// What is to be said of a source, by what it, the home directory and the working
/// directory really are.
pub fn check_source(source: &PathBuf, home: &Option<PathBuf>, cwd: &Option<PathBuf>) -> (r: Verdict)
    ensures
        r@ == verdict(
            source@,
            crate::ledger::opt_path(*home),
            crate::ledger::opt_path(*cwd),
        ),
{
    if let Some(reason) = is_volume_root(source) {
        return Verdict::Forbidden(reason);
    }
    if let Some(h) = home {
        if h.same(source) {
            return Verdict::Risky("这是你的用户主目录".to_owned());
        }
    }
    if let Some(reason) = is_system_directory(source) {
        return Verdict::Forbidden(reason);
    }
    if let Some(c) = cwd {
        if c.starts_with(source) {
            let mut s = cat("'", source.display().as_str());
            s.append("' 包含你当前所在的工作目录");
            return Verdict::Risky(s);
        }
    }
    Verdict::Safe
}

/// What becomes of a source: it is refused, or taken, with a warning where it was
/// forced.
pub open spec fn enforced(
    path: PathView,
    v: VerdictView,
    force: bool,
) -> Result<Option<Seq<char>>, ErrorView> {
    match v {
        VerdictView::Safe => Ok(None),
        VerdictView::Forbidden(reason) => Err(
            ErrorView::Unsafe { path, reason, can_force: false },
        ),
        VerdictView::Risky(reason) => if force {
            Ok(Some("cshl: ⚠️  "@ + reason + "（已被 --force 放行）"@))
        } else {
            Err(ErrorView::Unsafe { path, reason, can_force: true })
        },
    }
}

/// The contents of what became of a source.
pub open spec fn enforced_view(r: Result<Option<String>, Error>) -> Result<
    Option<Seq<char>>,
    ErrorView,
> {
    match r {
        Ok(Some(s)) => Ok(Some(s@)),
        Ok(None) => Ok(None),
        Err(e) => Err(e@),
    }
}

/// Refuses a source, or takes it, with a warning where it was forced.
pub fn enforce(path: &PathBuf, v: Verdict, force: bool) -> (r: Result<Option<String>, Error>)
    ensures
        enforced_view(r) == enforced(path@, v@, force),
{
    match v {
        Verdict::Safe => Ok(None),
        Verdict::Forbidden(reason) => Err(Error::forbidden(path.clone(), reason)),
        Verdict::Risky(reason) => {
            if force {
                let mut s = cat("cshl: ⚠️  ", reason.as_str());
                s.append("（已被 --force 放行）");
                Ok(Some(s))
            } else {
                Err(Error::risky(path.clone(), reason))
            }
        },
    }
}

/// What is forbidden cannot be forced, and everything else can; the error says
/// which of the two it is.
pub proof fn law_force(path: PathView, v: VerdictView)
    ensures
        v is Forbidden ==> enforced(path, v, true) is Err && enforced(path, v, false) is Err,
        !(v is Forbidden) ==> enforced(path, v, true) is Ok,
        forall|force: bool|
            #[trigger] enforced(path, v, force) matches Err(e) ==> (e matches ErrorView::Unsafe {
                can_force,
                ..
            } && can_force == !(v is Forbidden)),
{
}

/// The root of a volume is forbidden, wherever home and the working directory
/// are.
pub proof fn law_roots_forbidden(p: PathView, home: Option<PathView>, cwd: Option<PathView>)
    requires
        p.rooted,
        p.parts.len() == 0,
        p.style == Style::Unix ==> p.prefix is None,
        p.style == Style::Windows ==> (p.prefix matches Some(x) && x is Disk),
    ensures
        verdict(p, home, cwd) is Forbidden,
{
}

/// A directory that the user is in, or that is above it at any depth, is not taken unless
/// it is forced, wherever home is. Nor is home, wherever the user is.
pub proof fn law_where_the_user_is(
    source: PathView,
    home: Option<PathView>,
    cwd: Option<PathView>,
)
    requires
        home == Some(source) || (cwd matches Some(c) && is_above(source, c)),
    ensures
        !(verdict(source, home, cwd) is Safe),
        enforced(source, verdict(source, home, cwd), false) is Err,
        home == Some(source) && source.parts.len() > 2 ==> verdict(source, home, cwd) is Risky,
{
    if let Some(c) = cwd {
        crate::path::law_above(source, c);
    }
    if source.parts.len() > 2 {
        lemma_not_a_mount(source);
    }
}

proof fn lemma_not_a_mount(p: PathView)
    requires
        p.parts.len() > 2,
    ensures
        volume_root(p) is None,
{
    let up = p.parent()->0;
    let a = vstd::utf8::encode_utf8("Volumes"@);
    let b = vstd::utf8::encode_utf8("mnt"@);
    assert(up.parts.len() == p.parts.len() - 1);
    assert(seq![a].len() == 1 && seq![b].len() == 1);
}

/// A source is taken or refused as it was judged. What is safe is taken without a word;
/// what is risky only where it is forced, with a warning that says why; what is forbidden
/// never. What is refused is named, with the reason.
pub proof fn law_as_it_was_judged(path: PathView, v: VerdictView, force: bool)
    ensures
        match enforced(path, v, force) {
            Ok(None) => v is Safe,
            Ok(Some(warning)) => force && (v matches VerdictView::Risky(why) && holds(
                warning,
                why,
            )),
            Err(e) => e matches ErrorView::Unsafe { path: p, reason, can_force } && p == path
                && match v {
                VerdictView::Safe => false,
                VerdictView::Risky(why) => !force && can_force && reason == why,
                VerdictView::Forbidden(why) => !can_force && reason == why,
            },
        },
{
    if let VerdictView::Risky(why) = v {
        crate::text::lemma_holds("cshl: ⚠️  "@, why, "（已被 --force 放行）"@);
    }
}

/// The names of the directories at the root that a Unix system needs.
pub open spec fn root_names() -> Seq<Seq<char>> {
    seq![
        "bin"@,
        "boot"@,
        "dev"@,
        "etc"@,
        "lib"@,
        "lib64"@,
        "proc"@,
        "root"@,
        "sbin"@,
        "sys"@,
        "usr"@,
        "var"@,
        "System"@,
        "Library"@,
        "Applications"@,
        "private"@,
        "cores"@,
        "opt"@,
    ]
}

/// The names of the directories on drive C that Windows needs.
pub open spec fn drive_names() -> Seq<Seq<char>> {
    seq!["Windows"@, "Program Files"@, "Program Files (x86)"@, "ProgramData"@, "Users"@]
}

proof fn lemma_hit(style: Style, text: Seq<u8>, i: int)
    requires
        0 <= i,
    ensures
        hit(style, text, i) is Some <==> exists|k: int|
            i <= k < protected(style).len() && same_place(
                style,
                text,
                vstd::utf8::encode_utf8(#[trigger] protected(style)[k]),
            ),
    decreases protected(style).len() - i,
{
    if i < protected(style).len() {
        lemma_hit(style, text, i + 1);
        if same_place(style, text, vstd::utf8::encode_utf8(protected(style)[i])) {
        } else if exists|k: int|
            i <= k < protected(style).len() && same_place(
                style,
                text,
                vstd::utf8::encode_utf8(#[trigger] protected(style)[k]),
            ) {
            let k = choose|k: int|
                i <= k < protected(style).len() && same_place(
                    style,
                    text,
                    vstd::utf8::encode_utf8(#[trigger] protected(style)[k]),
                );
            assert(k != i);
        }
    }
}

/// How the directories that a Unix system needs are written.
#[verifier::spinoff_prover]
#[verifier::rlimit(40)]
proof fn lemma_root_names(k: int)
    requires
        0 <= k < root_names().len(),
    ensures
        protected(Style::Unix).len() == root_names().len(),
        vstd::utf8::encode_utf8(protected(Style::Unix)[k]) == seq![47u8]
            + vstd::utf8::encode_utf8(root_names()[k]),
        forall|j: int|
            0 <= j < vstd::utf8::encode_utf8(root_names()[k]).len()
                ==> #[trigger] vstd::utf8::encode_utf8(root_names()[k])[j] != 47,
{
    reveal_strlit("/");
    reveal_strlit("bin");
    reveal_strlit("/bin");
    reveal_strlit("boot");
    reveal_strlit("/boot");
    reveal_strlit("dev");
    reveal_strlit("/dev");
    reveal_strlit("etc");
    reveal_strlit("/etc");
    reveal_strlit("lib");
    reveal_strlit("/lib");
    reveal_strlit("lib64");
    reveal_strlit("/lib64");
    reveal_strlit("proc");
    reveal_strlit("/proc");
    reveal_strlit("root");
    reveal_strlit("/root");
    reveal_strlit("sbin");
    reveal_strlit("/sbin");
    reveal_strlit("sys");
    reveal_strlit("/sys");
    reveal_strlit("usr");
    reveal_strlit("/usr");
    reveal_strlit("var");
    reveal_strlit("/var");
    reveal_strlit("System");
    reveal_strlit("/System");
    reveal_strlit("Library");
    reveal_strlit("/Library");
    reveal_strlit("Applications");
    reveal_strlit("/Applications");
    reveal_strlit("private");
    reveal_strlit("/private");
    reveal_strlit("cores");
    reveal_strlit("/cores");
    reveal_strlit("opt");
    reveal_strlit("/opt");
    assert(protected(Style::Unix)[0] =~= "/"@ + root_names()[0]);
    assert(protected(Style::Unix)[1] =~= "/"@ + root_names()[1]);
    assert(protected(Style::Unix)[2] =~= "/"@ + root_names()[2]);
    assert(protected(Style::Unix)[3] =~= "/"@ + root_names()[3]);
    assert(protected(Style::Unix)[4] =~= "/"@ + root_names()[4]);
    assert(protected(Style::Unix)[5] =~= "/"@ + root_names()[5]);
    assert(protected(Style::Unix)[6] =~= "/"@ + root_names()[6]);
    assert(protected(Style::Unix)[7] =~= "/"@ + root_names()[7]);
    assert(protected(Style::Unix)[8] =~= "/"@ + root_names()[8]);
    assert(protected(Style::Unix)[9] =~= "/"@ + root_names()[9]);
    assert(protected(Style::Unix)[10] =~= "/"@ + root_names()[10]);
    assert(protected(Style::Unix)[11] =~= "/"@ + root_names()[11]);
    assert(protected(Style::Unix)[12] =~= "/"@ + root_names()[12]);
    assert(protected(Style::Unix)[13] =~= "/"@ + root_names()[13]);
    assert(protected(Style::Unix)[14] =~= "/"@ + root_names()[14]);
    assert(protected(Style::Unix)[15] =~= "/"@ + root_names()[15]);
    assert(protected(Style::Unix)[16] =~= "/"@ + root_names()[16]);
    assert(protected(Style::Unix)[17] =~= "/"@ + root_names()[17]);
    crate::text::lemma_encode_concat("/"@, root_names()[k]);
    vstd::utf8::is_ascii_chars_encode_utf8("/"@);
    vstd::utf8::is_ascii_chars_encode_utf8(root_names()[k]);
    assert(vstd::utf8::encode_utf8("/"@) =~= seq![47u8]);
}

/// How the directories that Windows needs are written.
#[verifier::spinoff_prover]
#[verifier::rlimit(40)]
proof fn lemma_drive_names(k: int)
    requires
        0 <= k < drive_names().len(),
    ensures
        protected(Style::Windows).len() == drive_names().len(),
        vstd::utf8::encode_utf8(protected(Style::Windows)[k]) == seq![67u8, 58u8, 92u8]
            + vstd::utf8::encode_utf8(drive_names()[k]),
        forall|j: int|
            0 <= j < vstd::utf8::encode_utf8(drive_names()[k]).len()
                ==> #[trigger] vstd::utf8::encode_utf8(drive_names()[k])[j] != 92,
{
    reveal_strlit("C:\\");
    reveal_strlit("Windows");
    reveal_strlit("C:\\Windows");
    reveal_strlit("Program Files");
    reveal_strlit("C:\\Program Files");
    reveal_strlit("Program Files (x86)");
    reveal_strlit("C:\\Program Files (x86)");
    reveal_strlit("ProgramData");
    reveal_strlit("C:\\ProgramData");
    reveal_strlit("Users");
    reveal_strlit("C:\\Users");
    assert(protected(Style::Windows)[0] =~= "C:\\"@ + drive_names()[0]);
    assert(protected(Style::Windows)[1] =~= "C:\\"@ + drive_names()[1]);
    assert(protected(Style::Windows)[2] =~= "C:\\"@ + drive_names()[2]);
    assert(protected(Style::Windows)[3] =~= "C:\\"@ + drive_names()[3]);
    assert(protected(Style::Windows)[4] =~= "C:\\"@ + drive_names()[4]);
    crate::text::lemma_encode_concat("C:\\"@, drive_names()[k]);
    vstd::utf8::is_ascii_chars_encode_utf8("C:\\"@);
    vstd::utf8::is_ascii_chars_encode_utf8(drive_names()[k]);
    assert(vstd::utf8::encode_utf8("C:\\"@) =~= seq![67u8, 58u8, 92u8]);
}

/// A directory that a Unix system needs is not taken, and cannot be forced unless it is
/// home.
pub proof fn law_root_directories(
    p: PathView,
    k: int,
    home: Option<PathView>,
    cwd: Option<PathView>,
)
    requires
        p.style == Style::Unix,
        p.prefix is None,
        p.rooted,
        0 <= k < root_names().len(),
        p.parts == seq![vstd::utf8::encode_utf8(root_names()[k])],
    ensures
        !(verdict(p, home, cwd) is Safe),
        home != Some(p) ==> verdict(p, home, cwd) is Forbidden,
{
    lemma_root_names(k);
    let text = p.render();
    assert(text =~= seq![47u8] + p.parts[0]);
    assert(trimmed(text) == text);
    assert(same_place(p.style, text, vstd::utf8::encode_utf8(protected(p.style)[k])));
    lemma_hit(p.style, text, 0);
}

/// A directory that Windows needs is not taken, in whichever case its name is written and
/// whether or not the path is verbatim, and cannot be forced unless it is home.
pub proof fn law_drive_directories(
    p: PathView,
    k: int,
    home: Option<PathView>,
    cwd: Option<PathView>,
)
    requires
        p.style == Style::Windows,
        p.prefix matches Some(x) && (x == PrefixView::Disk(67) || x == PrefixView::VerbatimDisk(
            67,
        )),
        p.rooted,
        0 <= k < drive_names().len(),
        p.parts.len() == 1,
        p.parts[0].len() == vstd::utf8::encode_utf8(drive_names()[k]).len(),
        forall|i: int|
            0 <= i < p.parts[0].len() ==> lower(#[trigger] p.parts[0][i]) == lower(
                vstd::utf8::encode_utf8(drive_names()[k])[i],
            ),
    ensures
        !(verdict(p, home, cwd) is Safe),
        home != Some(p) ==> verdict(p, home, cwd) is Forbidden,
{
    lemma_drive_names(k);
    let name = vstd::utf8::encode_utf8(drive_names()[k]);
    let text = seq![67u8, 58u8, 92u8] + p.parts[0];
    let full = p.render();
    if p.prefix == Some(PrefixView::Disk(67)) {
        assert(full =~= text);
    } else {
        assert(full =~= seq![92u8, 92u8, 63u8, 92u8] + text);
        assert(full.skip(4) =~= text);
    }
    assert(trimmed(text) == text);
    assert(trimmed(full) == text);
    let place = vstd::utf8::encode_utf8(protected(p.style)[k]);
    assert forall|i: int| 0 <= i < text.len() implies lower(#[trigger] text[i]) == lower(
        place[i],
    ) by {
        if i >= 3 {
            assert(text[i] == p.parts[0][i - 3]);
            assert(place[i] == name[i - 3]);
        }
    }
    assert(same_place(p.style, text, place));
    lemma_hit(p.style, text, 0);
}

proof fn lemma_joined_has_separator(parts: Seq<Seq<u8>>, sep: u8) -> (k: int)
    requires
        parts.len() >= 2,
    ensures
        0 <= k < crate::path::joined(parts, sep).len(),
        crate::path::joined(parts, sep)[k] == sep,
{
    let head = crate::path::joined(parts.drop_last(), sep);
    let k = head.len() as int;
    assert(crate::path::joined(parts, sep) == head.push(sep) + parts.last());
    k
}

/// An ordinary directory is safe: one below the root of a volume that is not one that the
/// system needs nor a place where volumes are mounted, that is not home, and that the
/// user is not in.
#[verifier::spinoff_prover]
#[verifier::rlimit(40)]
pub proof fn law_others_are_safe(p: PathView, home: Option<PathView>, cwd: Option<PathView>)
    requires
        p.rooted,
        p.parts.len() > 0,
        match p.style {
            Style::Unix => p.prefix is None && if p.parts.len() == 1 {
                forall|k: int|
                    0 <= k < root_names().len() ==> p.parts[0] != vstd::utf8::encode_utf8(
                        #[trigger] root_names()[k],
                    )
            } else {
                p.parts.len() == 2 ==> p.parts[0] != vstd::utf8::encode_utf8("Volumes"@)
                    && p.parts[0] != vstd::utf8::encode_utf8("mnt"@)
            },
            Style::Windows => (p.prefix matches Some(x) && x is Disk) && (p.parts.len() > 1
                || lower(p.prefix->0->Disk_0) != 99),
        },
        home != Some(p),
        cwd matches Some(c) ==> !is_above(p, c),
    ensures
        verdict(p, home, cwd) is Safe,
{
    if let Some(c) = cwd {
        crate::path::law_above(p, c);
    }
    let text = p.render();
    let sep = crate::path::separator(p.style);
    let j = crate::path::joined(p.parts, sep);
    match p.style {
        Style::Unix => {
            assert(text =~= seq![47u8] + j);
            assert(trimmed(text) == text);
            if volume_root(p) is Some {
                let up = p.parent()->0;
                let a = vstd::utf8::encode_utf8("Volumes"@);
                let b = vstd::utf8::encode_utf8("mnt"@);
                assert(seq![a].len() == 1 && seq![b].len() == 1);
                assert(up.parts.len() == 1);
                assert(up.parts[0] == p.parts[0]);
                assert(seq![a][0] == a && seq![b][0] == b);
            }
            assert forall|k: int| 0 <= k < protected(p.style).len() implies !same_place(
                p.style,
                text,
                vstd::utf8::encode_utf8(#[trigger] protected(p.style)[k]),
            ) by {
                lemma_root_names(k);
                let name = vstd::utf8::encode_utf8(root_names()[k]);
                let place = seq![47u8] + name;
                if text == place {
                    assert(text.skip(1) =~= j);
                    assert(place.skip(1) =~= name);
                    if p.parts.len() > 1 {
                        let at = lemma_joined_has_separator(p.parts, sep);
                        assert(name[at] == 47);
                    }
                }
            }
        },
        Style::Windows => {
            let d = p.prefix->0->Disk_0;
            assert(text =~= seq![d, 58u8, 92u8] + j);
            assert(trimmed(text) == text);
            assert forall|k: int| 0 <= k < protected(p.style).len() implies !same_place(
                p.style,
                text,
                vstd::utf8::encode_utf8(#[trigger] protected(p.style)[k]),
            ) by {
                lemma_drive_names(k);
                let name = vstd::utf8::encode_utf8(drive_names()[k]);
                let place = seq![67u8, 58u8, 92u8] + name;
                if same_place(p.style, text, place) {
                    assert(lower(text[0]) == lower(place[0]));
                    let at = lemma_joined_has_separator(p.parts, sep);
                    assert(text[3 + at] == 92);
                    assert(lower(text[3 + at]) == lower(place[3 + at]));
                    assert(place[3 + at] == name[at]);
                }
            }
        },
    }
    lemma_hit(p.style, text, 0);
}

/// Places where volumes are mounted, and the roots of drives in either form, cannot be
/// moved at all.
pub proof fn law_volumes_forbidden(p: PathView, home: Option<PathView>, cwd: Option<PathView>)
    requires
        p.rooted,
        match p.style {
            Style::Unix => p.prefix is None && p.parts.len() == 2 && (p.parts[0]
                == vstd::utf8::encode_utf8("Volumes"@) || p.parts[0] == vstd::utf8::encode_utf8(
                "mnt"@,
            )),
            Style::Windows => p.parts.len() == 0 && (p.prefix matches Some(x) && (x is Disk
                || x is VerbatimDisk)),
        },
    ensures
        verdict(p, home, cwd) is Forbidden,
        enforced(p, verdict(p, home, cwd), true) is Err,
{
    if p.style == Style::Unix {
        let up = p.parent()->0;
        assert(up.parts =~= seq![p.parts[0]]);
    }
}

/// What a path really is, is what the system found, and else the path itself, in the form
/// to be kept.
pub proof fn law_canonical(path: PathView, found: Option<PathView>)
    ensures
        found matches Some(p) ==> canonical(path, found) == plain(p),
        found is None ==> canonical(path, found) == plain(path),
{
}

} // verus!
