//! Errors, and what the process answers with.
//!
//! A failed move has to say whether nothing was done, so that it can be tried
//! again, or whether it stopped half way, so that somebody has to look:
//! [`Error::Aborted`] is the former, [`Error::PartialFailure`] and
//! [`Error::Incomplete`] are the latter.

use vstd::prelude::*;

use crate::path::PathBuf;
use crate::path::PathView;
use crate::text::cat;
use crate::text::dec;
use crate::text::holds;
use crate::text::lemma_holds_at;
use crate::text::padded;
use crate::text::show;
use crate::text::show_padded;
use crate::text::show_size;

verus! {

/// What went wrong in a call to the system, as far as the program decides on it.
#[derive(Clone, Copy, PartialEq, Eq, Structural, Debug)]
pub enum FaultKind {
    NotFound,
    AlreadyExists,
    InvalidInput,
    InvalidData,
    Other,
}

/// A failed call to the system.
#[derive(Debug, PartialEq, Eq)]
pub struct IoFault {
    pub kind: FaultKind,
    /// The system's own number for it, where there is one.
    pub code: Option<i32>,
    pub text: String,
}

/// The contents of an [`IoFault`].
pub struct FaultView {
    pub kind: FaultKind,
    pub code: Option<i32>,
    pub text: Seq<char>,
}

impl View for IoFault {
    type V = FaultView;

    open spec fn view(&self) -> FaultView {
        FaultView { kind: self.kind, code: self.code, text: self.text@ }
    }
}

impl Clone for IoFault {
    fn clone(&self) -> (r: Self)
        ensures
            r@ == self@,
    {
        IoFault { kind: self.kind, code: self.code, text: self.text.clone() }
    }
}

/// What is decided on in the outcome of a call.
pub open spec fn outcome(f: Option<IoFault>) -> Option<(FaultKind, Seq<char>)> {
    match f {
        Some(f) => Some((f.kind, f.text@)),
        None => None,
    }
}

/// What is decided on in a list of outcomes.
pub open spec fn outcomes(v: Seq<Option<IoFault>>) -> Seq<Option<(FaultKind, Seq<char>)>> {
    Seq::new(v.len(), |i: int| outcome(v[i]))
}

/// One file or directory that an operation failed on.
#[derive(Debug, PartialEq, Eq)]
pub struct FailedItem {
    pub path: PathBuf,
    pub error: String,
    pub is_dir: bool,
}

/// The contents of a [`FailedItem`].
#[verifier::ext_equal]
pub struct FailedView {
    pub path: PathView,
    pub error: Seq<char>,
    pub is_dir: bool,
}

impl View for FailedItem {
    type V = FailedView;

    open spec fn view(&self) -> FailedView {
        FailedView { path: self.path@, error: self.error@, is_dir: self.is_dir }
    }
}

impl Clone for FailedItem {
    fn clone(&self) -> (r: Self)
        ensures
            r@ == self@,
    {
        FailedItem { path: self.path.clone(), error: self.error.clone(), is_dir: self.is_dir }
    }
}

/// The contents of a list of failures.
pub open spec fn failed_views(v: Seq<FailedItem>) -> Seq<FailedView> {
    Seq::new(v.len(), |i: int| v[i]@)
}

/// Why a command did not do what it was asked for.
#[derive(Debug, PartialEq, Eq)]
#[allow(inconsistent_fields)]
pub enum Error {
    /// A call to the system failed, if possible with the path it failed on.
    Io { path: Option<PathBuf>, source: IoFault },
    /// A path does not do: it is missing, no directory, inside the other one.
    InvalidPath { path: PathBuf, reason: String },
    /// The safety rules refuse the path. `can_force` says whether `--force`
    /// would help.
    Unsafe { path: PathBuf, reason: String, can_force: bool },
    /// The target volume cannot hold the data.
    InsufficientSpace { needed: u64, available: u64, target: PathBuf },
    /// Copying failed and was undone: the source is untouched.
    Aborted { reason: String, failures: Vec<FailedItem> },
    /// The data is at the target, but not all of the source could be removed.
    PartialFailure { total: usize, failed: usize, failures: Vec<FailedItem> },
    /// The data is at its new place, but a step behind that failed: the link or
    /// the ledger does not say so yet.
    Incomplete { path: PathBuf, reason: String },
    /// The ledger is damaged, or has no such entry.
    Ledger(String),
}

/// The contents of an [`Error`].
#[allow(inconsistent_fields)]
pub enum ErrorView {
    Io { path: Option<PathView>, source: FaultView },
    InvalidPath { path: PathView, reason: Seq<char> },
    Unsafe { path: PathView, reason: Seq<char>, can_force: bool },
    InsufficientSpace { needed: u64, available: u64, target: PathView },
    Aborted { reason: Seq<char>, failures: Seq<FailedView> },
    PartialFailure { total: usize, failed: usize, failures: Seq<FailedView> },
    Incomplete { path: PathView, reason: Seq<char> },
    Ledger(Seq<char>),
}

impl View for Error {
    type V = ErrorView;

    open spec fn view(&self) -> ErrorView {
        match *self {
            Error::Io { path, source } => ErrorView::Io {
                path: match path {
                    Some(p) => Some(p@),
                    None => None,
                },
                source: source@,
            },
            Error::InvalidPath { path, reason } => ErrorView::InvalidPath {
                path: path@,
                reason: reason@,
            },
            Error::Unsafe { path, reason, can_force } => ErrorView::Unsafe {
                path: path@,
                reason: reason@,
                can_force,
            },
            Error::InsufficientSpace { needed, available, target } => ErrorView::InsufficientSpace {
                needed,
                available,
                target: target@,
            },
            Error::Aborted { reason, failures } => ErrorView::Aborted {
                reason: reason@,
                failures: failed_views(failures@),
            },
            Error::PartialFailure { total, failed, failures } => ErrorView::PartialFailure {
                total,
                failed,
                failures: failed_views(failures@),
            },
            Error::Incomplete { path, reason } => ErrorView::Incomplete {
                path: path@,
                reason: reason@,
            },
            Error::Ledger(msg) => ErrorView::Ledger(msg@),
        }
    }
}

impl ErrorView {
    /// What the process answers with: 1 for what the user can put right, 2 for a
    /// failure that left the source as it was, 3 for work that stopped half way.
    pub open spec fn exit_code(self) -> i32 {
        match self {
            ErrorView::InvalidPath { .. } => 1,
            ErrorView::Unsafe { .. } => 1,
            ErrorView::InsufficientSpace { .. } => 1,
            ErrorView::Ledger(_) => 1,
            ErrorView::Io { .. } => 2,
            ErrorView::Aborted { .. } => 2,
            ErrorView::PartialFailure { .. } => 3,
            ErrorView::Incomplete { .. } => 3,
        }
    }

    /// The error as one line.
    pub open spec fn message(self) -> Seq<char> {
        match self {
            ErrorView::Io { path, source } => match path {
                Some(p) => "I/O 错误 '"@ + p.display() + "': "@ + source.text,
                None => "I/O 错误: "@ + source.text,
            },
            ErrorView::InvalidPath { path, reason } => "路径无效 '"@ + path.display() + "': "@
                + reason,
            ErrorView::Unsafe { path, reason, .. } => "安全检查拒绝 '"@ + path.display() + "': "@
                + reason,
            ErrorView::InsufficientSpace { needed, available, target } => "目标卷空间不足 '"@
                + target.display() + "': 需要 "@ + human(needed as int) + "，可用 "@ + human(
                available as int,
            ),
            ErrorView::Aborted { reason, failures } => {
                let head = "迁移已中止，源目录未被改动: "@ + reason;
                if failures.len() == 0 {
                    head
                } else {
                    head + "（"@ + dec(failures.len() as int) + " 项失败）"@
                }
            },
            ErrorView::PartialFailure { total, failed, .. } => "源目录清理未完成: "@ + dec(
                failed as int,
            ) + "/"@ + dec(total as int) + " 项删除失败（数据已在目标位置）"@,
            ErrorView::Incomplete { path, reason } => "迁移未收尾 '"@ + path.display() + "': "@
                + reason + "（数据已在目标位置）"@,
            ErrorView::Ledger(msg) => "台账错误: "@ + msg,
        }
    }
}

impl From<IoFault> for Error {
    fn from(source: IoFault) -> (r: Self) {
        Error::Io { path: None, source }
    }
}

impl vstd::std_specs::convert::FromSpecImpl<IoFault> for Error {
    open spec fn obeys_from_spec() -> bool {
        true
    }

    open spec fn from_spec(source: IoFault) -> Self {
        Error::Io { path: None, source }
    }
}

impl Error {
    /// A failed call to the system, with the path it failed on.
    pub fn io(path: PathBuf, source: IoFault) -> (r: Self)
        ensures
            r == (Error::Io { path: Some(path), source }),
    {
        Error::Io { path: Some(path), source }
    }

    pub fn invalid(path: PathBuf, reason: String) -> (r: Self)
        ensures
            r == (Error::InvalidPath { path, reason }),
    {
        Error::InvalidPath { path, reason }
    }

    /// Refused, unless `--force` is given.
    pub fn risky(path: PathBuf, reason: String) -> (r: Self)
        ensures
            r == (Error::Unsafe { path, reason, can_force: true }),
    {
        Error::Unsafe { path, reason, can_force: true }
    }

    /// Refused, `--force` or not.
    pub fn forbidden(path: PathBuf, reason: String) -> (r: Self)
        ensures
            r == (Error::Unsafe { path, reason, can_force: false }),
    {
        Error::Unsafe { path, reason, can_force: false }
    }

    /// What the process answers with.
    pub fn exit_code(&self) -> (r: i32)
        ensures
            r == self@.exit_code(),
    {
        match self {
            Error::InvalidPath { .. } => 1,
            Error::Unsafe { .. } => 1,
            Error::InsufficientSpace { .. } => 1,
            Error::Ledger(_) => 1,
            Error::Io { .. } => 2,
            Error::Aborted { .. } => 2,
            Error::PartialFailure { .. } => 3,
            Error::Incomplete { .. } => 3,
        }
    }

    /// The failed call behind the error, where there is one.
    pub fn source(&self) -> (r: Option<&IoFault>)
        ensures
            match r {
                Some(f) => self matches Error::Io { source, .. } && *f == source,
                None => !(self is Io),
            },
    {
        match self {
            Error::Io { source, .. } => Some(source),
            _ => None,
        }
    }

    /// The error as one line.
    pub fn to_string(&self) -> (r: String)
        ensures
            r@ == self@.message(),
    {
        match self {
            Error::Io { path, source } => match path {
                Some(p) => {
                    let mut r = cat("I/O 错误 '", p.display().as_str());
                    r.append("': ");
                    r.append(source.text.as_str());
                    r
                },
                None => cat("I/O 错误: ", source.text.as_str()),
            },
            Error::InvalidPath { path, reason } => {
                let mut r = cat("路径无效 '", path.display().as_str());
                r.append("': ");
                r.append(reason.as_str());
                r
            },
            Error::Unsafe { path, reason, .. } => {
                let mut r = cat("安全检查拒绝 '", path.display().as_str());
                r.append("': ");
                r.append(reason.as_str());
                r
            },
            Error::InsufficientSpace { needed, available, target } => {
                let mut r = cat("目标卷空间不足 '", target.display().as_str());
                r.append("': 需要 ");
                r.append(human_bytes(*needed).as_str());
                r.append("，可用 ");
                r.append(human_bytes(*available).as_str());
                r
            },
            Error::Aborted { reason, failures } => {
                let mut r = cat("迁移已中止，源目录未被改动: ", reason.as_str());
                if failures.len() > 0 {
                    r.append("（");
                    r.append(show_size(failures.len()).as_str());
                    r.append(" 项失败）");
                }
                r
            },
            Error::PartialFailure { total, failed, .. } => {
                let mut r = cat("源目录清理未完成: ", show_size(*failed).as_str());
                r.append("/");
                r.append(show_size(*total).as_str());
                r.append(" 项删除失败（数据已在目标位置）");
                r
            },
            Error::Incomplete { path, reason } => {
                let mut r = cat("迁移未收尾 '", path.display().as_str());
                r.append("': ");
                r.append(reason.as_str());
                r.append("（数据已在目标位置）");
                r
            },
            Error::Ledger(msg) => cat("台账错误: ", msg.as_str()),
        }
    }
}

/// `a / b` rounded to the nearest integer, and to the even one of two.
pub open spec fn half_even(a: int, b: int) -> int {
    let q = a / b;
    let r = a % b;
    if r > b - r || (r == b - r && q % 2 == 1) {
        q + 1
    } else {
        q
    }
}

/// The distance of two neighbours among the numbers with 53 significant bits,
/// at `n`.
pub open spec fn spacing(n: int) -> int
    decreases n,
{
    if n < 0x20_0000_0000_0000 {
        1
    } else {
        2 * spacing(n / 2)
    }
}

/// `n` to 53 significant bits.
pub open spec fn to_53_bits(n: int) -> int {
    half_even(n, spacing(n)) * spacing(n)
}

/// How often `m` can be divided by 1024, up to five times, with one or more left.
pub open spec fn unit(m: int, most: int) -> int
    decreases most,
{
    if m < 1024 || most <= 0 {
        0
    } else {
        1 + unit(m / 1024, most - 1)
    }
}

/// 1024 to the power of `k`.
pub open spec fn unit_size(k: int) -> int
    decreases k,
{
    if k <= 0 {
        1
    } else {
        1024 * unit_size(k - 1)
    }
}

/// The name of the `k`-th unit.
pub open spec fn unit_name(k: int) -> Seq<char> {
    if k <= 0 {
        "B"@
    } else if k == 1 {
        "KiB"@
    } else if k == 2 {
        "MiB"@
    } else if k == 3 {
        "GiB"@
    } else if k == 4 {
        "TiB"@
    } else {
        "PiB"@
    }
}

/// A number of bytes for people to read: whole bytes below 1024, and else the
/// number to 53 significant bits in the largest unit of which it holds one, to
/// two places.
pub open spec fn human(n: int) -> Seq<char> {
    if n < 1024 {
        dec(n) + " B"@
    } else {
        let m = to_53_bits(n);
        let k = unit(m, 5);
        let h = half_even(m * 100, unit_size(k));
        dec(h / 100) + "."@ + padded(h % 100, 2) + " "@ + unit_name(k)
    }
}

fn round_half_even(a: u128, b: u128) -> (r: u128)
    requires
        b > 0,
        a < u128::MAX,
    ensures
        r == half_even(a as int, b as int),
        r * b <= a + b,
        r <= a + 1,
{
    let q: u128 = a / b;
    let r: u128 = a % b;
    proof {
        vstd::arithmetic::div_mod::lemma_fundamental_div_mod(a as int, b as int);
        vstd::arithmetic::div_mod::lemma_mod_bound(a as int, b as int);
        assert(q <= a) by (nonlinear_arith)
            requires
                a == b * q + r,
                b > 0,
                r >= 0,
        ;
        assert((q + 1) * b <= a + b && q * b <= a + b) by (nonlinear_arith)
            requires
                a == b * q + r,
                b > 0,
                r >= 0,
        ;
    }
    if r > b - r || (r == b - r && q % 2 == 1) {
        q + 1
    } else {
        q
    }
}

fn spacing_at(n: u64) -> (r: u64)
    ensures
        r == spacing(n as int),
        r == 1 || (r > 0 && r * 0x10_0000_0000_0000 <= n),
    decreases n,
{
    if n < 0x20_0000_0000_0000 {
        1
    } else {
        2 * spacing_at(n / 2)
    }
}

fn unit_at(m: u128, most: u64) -> (r: u64)
    ensures
        r == unit(m as int, most as int),
        r <= most,
    decreases most,
{
    if m < 1024 || most == 0 {
        0
    } else {
        1 + unit_at(m / 1024, most - 1)
    }
}

fn unit_size_at(k: u64) -> (r: u64)
    requires
        k <= 5,
    ensures
        r == unit_size(k as int),
        r > 0,
        k == 0 ==> r <= 1,
        k == 1 ==> r <= 1024,
        k == 2 ==> r <= 0x10_0000,
        k == 3 ==> r <= 0x4000_0000,
        k == 4 ==> r <= 0x100_0000_0000,
    decreases k,
{
    if k == 0 {
        1
    } else {
        1024 * unit_size_at(k - 1)
    }
}

fn unit_name_at(k: u64) -> (r: &'static str)
    ensures
        r@ == unit_name(k as int),
{
    if k == 0 {
        "B"
    } else if k == 1 {
        "KiB"
    } else if k == 2 {
        "MiB"
    } else if k == 3 {
        "GiB"
    } else if k == 4 {
        "TiB"
    } else {
        "PiB"
    }
}

/// A number of bytes for people to read.
pub fn human_bytes(n: u64) -> (r: String)
    ensures
        r@ == human(n as int),
{
    if n < 1024 {
        let mut r = show(n);
        r.append(" B");
        return r;
    }
    let gap: u128 = spacing_at(n) as u128;
    let m: u128 = {
        let near: u128 = round_half_even(n as u128, gap);
        near * gap
    };
    let k: u64 = unit_at(m, 5);
    let size: u128 = unit_size_at(k) as u128;
    let h: u128 = round_half_even(m * 100, size);
    proof {
        lemma_hundredths_fit(m as int, k as int);
    }
    let mut r = show((h / 100) as u64);
    r.append(".");
    r.append(show_padded((h % 100) as u64, 2).as_str());
    r.append(" ");
    r.append(unit_name_at(k));
    r
}

proof fn lemma_hundredths_fit(m: int, k: int)
    requires
        0 <= m <= 0x1_0000_0000_0000_0000 + 0x1_0000_0000_0000_0000,
        k == unit(m, 5),
    ensures
        half_even(m * 100, unit_size(k)) < 0x8000_0000,
{
    reveal_with_fuel(unit, 6);
    reveal_with_fuel(unit_size, 6);
    let a = m * 100;
    if k == 0 {
        assert(half_even(a, 1) <= a / 1 + 1);
    } else if k == 1 {
        assert(half_even(a, 1024) <= a / 1024 + 1);
    } else if k == 2 {
        assert(half_even(a, 0x10_0000) <= a / 0x10_0000 + 1);
    } else if k == 3 {
        assert(half_even(a, 0x4000_0000) <= a / 0x4000_0000 + 1);
    } else if k == 4 {
        assert(half_even(a, 0x100_0000_0000) <= a / 0x100_0000_0000 + 1);
    } else {
        assert(k == 5);
        assert(unit_size(5) == 0x4_0000_0000_0000);
        assert(half_even(a, 0x4_0000_0000_0000) <= a / 0x4_0000_0000_0000 + 1);
    }
}

/// What the process answers with: 3 just where the data is at its new place and something
/// behind that failed, 2 where a call or a copy failed before, and 1 for what is refused.
pub proof fn law_exit_codes(e: ErrorView)
    ensures
        e.exit_code() == 3 <==> e is PartialFailure || e is Incomplete,
        e.exit_code() == 2 <==> e is Io || e is Aborted,
        e.exit_code() == 1 <==> e is InvalidPath || e is Unsafe || e is InsufficientSpace
            || e is Ledger,
{
}

/// An error says what it is about: the place, and the reason or the numbers.
#[verifier::spinoff_prover]
#[verifier::rlimit(40)]
pub proof fn law_message_tells(e: ErrorView)
    ensures
        match e {
            ErrorView::Io { path, source } => holds(e.message(), source.text) && (path matches Some(p)
                ==> holds(e.message(), p.display())),
            ErrorView::InvalidPath { path, reason } => holds(e.message(), path.display()) && holds(
                e.message(),
                reason,
            ),
            ErrorView::Unsafe { path, reason, .. } => holds(e.message(), path.display()) && holds(
                e.message(),
                reason,
            ),
            ErrorView::InsufficientSpace { needed, available, target } => holds(
                e.message(),
                target.display(),
            ) && holds(e.message(), human(needed as int)) && holds(
                e.message(),
                human(available as int),
            ),
            ErrorView::Aborted { reason, failures } => holds(e.message(), reason) && (failures.len()
                > 0 ==> holds(e.message(), dec(failures.len() as int))),
            ErrorView::PartialFailure { total, failed, .. } => holds(
                e.message(),
                dec(failed as int) + "/"@ + dec(total as int),
            ),
            ErrorView::Incomplete { path, reason } => holds(e.message(), path.display()) && holds(
                e.message(),
                reason,
            ),
            ErrorView::Ledger(msg) => holds(e.message(), msg),
        },
{
    let m = e.message();
    match e {
        ErrorView::Io { path, source } => {
            lemma_holds_at(m, source.text, m.len() - source.text.len());
            if let Some(p) = path {
                lemma_holds_at(m, p.display(), "I/O 错误 '"@.len() as int);
            }
        },
        ErrorView::InvalidPath { path, reason } => {
            lemma_holds_at(m, path.display(), "路径无效 '"@.len() as int);
            lemma_holds_at(m, reason, m.len() - reason.len());
        },
        ErrorView::Unsafe { path, reason, .. } => {
            lemma_holds_at(m, path.display(), "安全检查拒绝 '"@.len() as int);
            lemma_holds_at(m, reason, m.len() - reason.len());
        },
        ErrorView::InsufficientSpace { needed, available, target } => {
            let a = "目标卷空间不足 '"@;
            let b = "': 需要 "@;
            let x = human(needed as int);
            let y = human(available as int);
            lemma_holds_at(m, target.display(), a.len() as int);
            lemma_holds_at(m, x, (a.len() + target.display().len() + b.len()) as int);
            lemma_holds_at(m, y, m.len() - y.len());
        },
        ErrorView::Aborted { reason, failures } => {
            let a = "迁移已中止，源目录未被改动: "@;
            lemma_holds_at(m, reason, a.len() as int);
            if failures.len() > 0 {
                lemma_holds_at(
                    m,
                    dec(failures.len() as int),
                    (a.len() + reason.len() + "（"@.len()) as int,
                );
            }
        },
        ErrorView::PartialFailure { total, failed, .. } => {
            lemma_holds_at(
                m,
                dec(failed as int) + "/"@ + dec(total as int),
                "源目录清理未完成: "@.len() as int,
            );
        },
        ErrorView::Incomplete { path, reason } => {
            let a = "迁移未收尾 '"@;
            lemma_holds_at(m, path.display(), a.len() as int);
            lemma_holds_at(m, reason, (a.len() + path.display().len() + "': "@.len()) as int);
        },
        ErrorView::Ledger(msg) => {
            lemma_holds_at(m, msg, m.len() - msg.len());
        },
    }
}

/// Rounding goes to the nearest, and to the even one where two are as near.
pub proof fn law_half_even(a: int, b: int)
    requires
        0 <= a,
        0 < b,
    ensures
        2 * (half_even(a, b) * b - a) <= b,
        2 * (a - half_even(a, b) * b) <= b,
        2 * (a - half_even(a, b) * b) == b || 2 * (half_even(a, b) * b - a) == b ==> half_even(a, b)
            % 2 == 0,
{
    vstd::arithmetic::div_mod::lemma_fundamental_div_mod(a, b);
    vstd::arithmetic::div_mod::lemma_mod_bound(a, b);
    let q = a / b;
    let r = a % b;
    assert(q * b == b * q) by (nonlinear_arith);
    assert((q + 1) * b == b * q + b) by (nonlinear_arith);
}

proof fn lemma_unit(m: int, most: int)
    requires
        0 <= m,
        0 <= most,
    ensures
        0 <= unit(m, most) <= most,
        unit(m, most) > 0 ==> unit_size(unit(m, most)) <= m,
        unit(m, most) < most ==> m < unit_size(unit(m, most) + 1),
    decreases most,
{
    if m >= 1024 && most > 0 {
        lemma_unit(m / 1024, most - 1);
        let k = unit(m / 1024, most - 1);
        assert(unit_size(k + 1) == 1024 * unit_size(k));
        assert(unit_size(k + 2) == 1024 * unit_size(k + 1));
        if k == 0 {
            assert(unit_size(0) == 1);
        }
    } else {
        assert(unit_size(1) == 1024 * unit_size(0));
    }
}

/// A size is shown in the largest unit of which it holds one, up to the largest there is,
/// as the nearest number of hundredths. Up to 53 bits nothing else is rounded, and what is
/// below 1024 is shown as it is.
pub proof fn law_human(n: int)
    requires
        0 <= n < 0x20_0000_0000_0000,
    ensures
        n < 1024 ==> human(n) == dec(n) + " B"@,
        n >= 1024 ==> exists|k: int, h: int|
            {
                &&& 1 <= k <= 5
                &&& unit_size(k) <= n
                &&& k < 5 ==> n < 1024 * unit_size(k)
                &&& -unit_size(k) <= 2 * (h * unit_size(k) - 100 * n) <= unit_size(k)
                &&& human(n) == dec(h / 100) + "."@ + #[trigger] padded(h % 100, 2) + " "@
                    + #[trigger] unit_name(k)
            },
{
    if n >= 1024 {
        assert(spacing(n) == 1);
        assert(half_even(n, 1) == n);
        assert(to_53_bits(n) == n);
        let k = unit(n, 5);
        lemma_unit(n, 5);
        lemma_unit(n / 1024, 4);
        assert(k == 1 + unit(n / 1024, 4));
        let u = unit_size(k);
        assert(u > 0) by {
            lemma_unit_size(k);
        }
        let h = half_even(n * 100, u);
        law_half_even(n * 100, u);
        assert(unit_size(k + 1) == 1024 * unit_size(k));
        assert(human(n) == dec(h / 100) + "."@ + padded(h % 100, 2) + " "@ + unit_name(k));
    }
}

proof fn lemma_unit_size(k: int)
    ensures
        unit_size(k) > 0,
    decreases k,
{
    if k > 0 {
        lemma_unit_size(k - 1);
    }
}

/// The units in their order.
pub proof fn law_unit_names()
    ensures
        unit_name(1) == "KiB"@ && unit_size(1) == 1024,
        unit_name(2) == "MiB"@ && unit_size(2) == 1024 * 1024,
        unit_name(3) == "GiB"@ && unit_size(3) == 1024 * 1024 * 1024,
        unit_name(4) == "TiB"@,
        unit_name(5) == "PiB"@,
{
    reveal_with_fuel(unit_size, 4);
}

} // verus!
