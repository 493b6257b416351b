//! What is particular to Unix.

use vstd::prelude::*;

use crate::error::FaultKind;
use crate::error::FaultView;
use crate::error::IoFault;
use crate::path::copy_bytes;
use crate::platform::DirEntryInfo;
use crate::platform::EntryKind;
use crate::platform::InfoView;

verus! {

/// The numbers that the system has for the errors that are decided on. They
/// differ from one system to the next.
#[derive(Debug, Clone, Copy, PartialEq, Eq, Structural)]
pub struct Errnos {
    /// Two paths are not on one volume.
    pub cross_device: i32,
    /// Something is there already.
    pub exists: i32,
    /// An argument makes no sense.
    pub invalid: i32,
    /// There is no such call.
    pub not_implemented: i32,
    /// The call does not do that here.
    pub not_supported: i32,
}

/// Whether some system has this number for the error that two paths are not on one volume.
pub open spec fn means_cross_device(n: i32) -> bool {
    n == 18 || n == 27 || n == 75 || n == 1073741842 || n == -2147459061
}

/// Reads `libc::EXDEV`. Which number it is depends on the system: it is one of those
/// that the crate has for it, and which of them is not said.
#[verifier::external_body]
fn exdev() -> (r: i32)
    ensures
        means_cross_device(r),
{
    libc::EXDEV
}

/// Whether some system has this number for the error that something is there already.
pub open spec fn means_exists(n: i32) -> bool {
    n == 9 || n == 17 || n == 20 || n == 1073741841 || n == -2147459070
}

/// Reads `libc::EEXIST`. Which number it is depends on the system: it is one of those
/// that the crate has for it, and which of them is not said.
#[verifier::external_body]
fn eexist() -> (r: i32)
    ensures
        means_exists(r),
{
    libc::EEXIST
}

/// Whether some system has this number for the error that an argument makes no sense.
pub open spec fn means_invalid(n: i32) -> bool {
    n == 14 || n == 22 || n == 28 || n == 1073741846 || n == -2147483643
}

/// Reads `libc::EINVAL`. Which number it is depends on the system: it is one of those
/// that the crate has for it, and which of them is not said.
#[verifier::external_body]
fn einval() -> (r: i32)
    ensures
        means_invalid(r),
{
    libc::EINVAL
}

/// Whether some system has this number for the error that there is no such call.
pub open spec fn means_not_implemented(n: i32) -> bool {
    n == 38 || n == 40 || n == 52 || n == 71 || n == 78 || n == 88 || n == 89 || n == 90
        || n == 109 || n == 1073741902 || n == -2147454967
}

/// Reads `libc::ENOSYS`. Which number it is depends on the system: it is one of those
/// that the crate has for it, and which of them is not said.
#[verifier::external_body]
fn enosys() -> (r: i32)
    ensures
        means_not_implemented(r),
{
    libc::ENOSYS
}

/// Whether some system has this number for the error that a call does not do that here.
pub open spec fn means_not_supported(n: i32) -> bool {
    n == 11 || n == 35 || n == 45 || n == 48 || n == 58 || n == 86 || n == 91 || n == 95
        || n == 122 || n == 124 || n == 129 || n == 132 || n == 134 || n == 138 || n == 1073741942
        || n == -2147454920
}

/// Reads `libc::ENOTSUP`. Which number it is depends on the system: it is one of those
/// that the crate has for it, and which of them is not said.
#[verifier::external_body]
fn enotsup() -> (r: i32)
    ensures
        means_not_supported(r),
{
    libc::ENOTSUP
}

impl Errnos {
    /// That each number is one that stands for its error.
    pub open spec fn known(self) -> bool {
        &&& means_cross_device(self.cross_device)
        &&& means_exists(self.exists)
        &&& means_invalid(self.invalid)
        &&& means_not_implemented(self.not_implemented)
        &&& means_not_supported(self.not_supported)
    }

    /// That the numbers tell the errors apart.
    pub open spec fn told_apart(self) -> bool {
        &&& self.cross_device != self.exists
        &&& self.cross_device != self.invalid
        &&& self.cross_device != self.not_implemented
        &&& self.cross_device != self.not_supported
        &&& self.exists != self.invalid
        &&& self.exists != self.not_implemented
        &&& self.exists != self.not_supported
        &&& self.invalid != self.not_implemented
        &&& self.invalid != self.not_supported
        &&& self.not_implemented != self.not_supported
    }
}

/// The numbers that this system has for the errors that are decided on. Each stands
/// for its error, and no two are the same.
pub fn errnos() -> (r: Errnos)
    ensures
        r.known(),
        r.told_apart(),
{
    Errnos {
        cross_device: exdev(),
        exists: eexist(),
        invalid: einval(),
        not_implemented: enosys(),
        not_supported: enotsup(),
    }
}

/// Whether a call failed because two paths are not on one volume.
pub fn is_cross_device(e: &IoFault, numbers: &Errnos) -> (r: bool)
    ensures
        r == (e.code == Some(numbers.cross_device)),
{
    match e.code {
        Some(c) => c == numbers.cross_device,
        None => false,
    }
}

/// What a path is handed to the system as: with a zero at the end, which is why
/// it can hold none.
pub fn cpath(path: &[u8]) -> (r: Result<Vec<u8>, IoFault>)
    ensures
        match r {
            Ok(c) => !path@.contains(0u8) && c@ == path@.push(0),
            Err(e) => path@.contains(0u8) && e@ == (FaultView {
                kind: FaultKind::InvalidInput,
                code: None,
                text: "路径中含有 NUL 字节"@,
            }),
        },
{
    let mut i: usize = 0;
    while i < path.len()
        invariant
            0 <= i <= path.len(),
            forall|j: int| 0 <= j < i ==> path@[j] != 0,
        decreases path.len() - i,
    {
        if path[i] == 0 {
            assert(path@.contains(0u8));
            return Err(
                IoFault {
                    kind: FaultKind::InvalidInput,
                    code: None,
                    text: "路径中含有 NUL 字节".to_owned(),
                },
            );
        }
        i = i + 1;
    }
    let mut c = copy_bytes(path);
    c.push(0);
    Ok(c)
}

/// What reading a directory says of the type of an entry.
#[derive(Debug, PartialEq, Eq)]
pub enum TypeProbe {
    Link,
    Dir,
    Other,
    Failed(IoFault),
}

/// What becomes of an entry.
#[derive(Debug, PartialEq, Eq)]
pub enum EntryStep {
    /// All that is needed is known.
    Known(DirEntryInfo),
    /// It has to be looked at.
    Look,
    /// It is gone.
    Skip,
    /// The directory cannot be read.
    Fail(IoFault),
}

/// What becomes of an entry, by its type. Only a file has to be looked at, for
/// its size and its names.
pub fn entry_by_type(name: &[u8], probe: TypeProbe) -> (r: EntryStep)
    ensures
        match probe {
            TypeProbe::Link => r matches EntryStep::Known(i) && i@ == (InfoView {
                name: name@,
                kind: EntryKind::Symlink,
                size: 0,
                hardlink_id: None,
            }),
            TypeProbe::Dir => r matches EntryStep::Known(i) && i@ == (InfoView {
                name: name@,
                kind: EntryKind::Dir,
                size: 0,
                hardlink_id: None,
            }),
            TypeProbe::Other => r is Look,
            TypeProbe::Failed(e) => if e.kind == FaultKind::NotFound {
                r is Skip
            } else {
                r == EntryStep::Fail(e)
            },
        },
{
    match probe {
        TypeProbe::Link => EntryStep::Known(
            DirEntryInfo {
                name: copy_bytes(name),
                kind: EntryKind::Symlink,
                size: 0,
                hardlink_id: None,
            },
        ),
        TypeProbe::Dir => EntryStep::Known(
            DirEntryInfo {
                name: copy_bytes(name),
                kind: EntryKind::Dir,
                size: 0,
                hardlink_id: None,
            },
        ),
        TypeProbe::Other => EntryStep::Look,
        TypeProbe::Failed(e) => {
            if e.kind == FaultKind::NotFound {
                EntryStep::Skip
            } else {
                EntryStep::Fail(e)
            }
        },
    }
}

/// What looking at an entry gives.
#[derive(Debug, Clone, Copy, PartialEq, Eq, Structural)]
pub struct Meta {
    pub is_symlink: bool,
    pub is_dir: bool,
    /// How many names it has.
    pub nlink: u64,
    pub dev: u64,
    pub ino: u64,
    pub len: u64,
}

/// What an entry is, by what looking at it gave. One that is gone by then counts
/// as an empty file: copying it will say so.
pub open spec fn info_of(name: Seq<u8>, meta: Option<Meta>) -> InfoView {
    match meta {
        None => InfoView { name, kind: EntryKind::File, size: 0, hardlink_id: None },
        Some(m) => if m.is_symlink {
            InfoView { name, kind: EntryKind::Symlink, size: 0, hardlink_id: None }
        } else if m.is_dir {
            InfoView { name, kind: EntryKind::Dir, size: 0, hardlink_id: None }
        } else {
            InfoView {
                name,
                kind: EntryKind::File,
                size: m.len,
                hardlink_id: if m.nlink > 1 {
                    Some((m.dev, m.ino))
                } else {
                    None
                },
            }
        },
    }
}

/// What an entry is, by what looking at it gave.
pub fn stat_entry(name: Vec<u8>, looked: Result<Meta, IoFault>) -> (r: Result<DirEntryInfo, IoFault>)
    ensures
        match looked {
            Ok(m) => r matches Ok(i) && i@ == info_of(name@, Some(m)),
            Err(e) => if e.kind == FaultKind::NotFound {
                r matches Ok(i) && i@ == info_of(name@, None)
            } else {
                r == Err::<DirEntryInfo, IoFault>(e)
            },
        },
{
    let m = match looked {
        Ok(m) => m,
        Err(e) => {
            if e.kind == FaultKind::NotFound {
                return Ok(
                    DirEntryInfo { name, kind: EntryKind::File, size: 0, hardlink_id: None },
                );
            }
            return Err(e);
        },
    };
    let kind = if m.is_symlink {
        EntryKind::Symlink
    } else if m.is_dir {
        EntryKind::Dir
    } else {
        EntryKind::File
    };
    let hardlink_id = if kind == EntryKind::File && m.nlink > 1 {
        Some((m.dev, m.ino))
    } else {
        None
    };
    let size: u64 = if kind == EntryKind::File {
        m.len
    } else {
        0
    };
    Ok(DirEntryInfo { name, kind, size, hardlink_id })
}

/// How many bytes are free: the blocks that anybody may use, not those kept back.
pub fn available_space(blocks: u64, block_size: u64) -> (r: u64)
    requires
        blocks * block_size <= u64::MAX,
    ensures
        r == blocks * block_size,
{
    blocks * block_size
}

/// How many bytes to ask the kernel to copy at once, by the size that the file is said
/// to have and by how much was copied: no more than a gigabyte, so that no call takes
/// too long, and never nothing, so that nothing copied means the end of the file.
pub fn range_chunk(size: u64, copied: u64) -> (r: usize)
    ensures
        r == if copied >= size {
            0x1_0000
        } else if size - copied < 0x4000_0000 {
            size - copied
        } else {
            0x4000_0000
        },
        r > 0,
{
    if copied >= size {
        0x1_0000
    } else if size - copied < 0x4000_0000 {
        (size - copied) as usize
    } else {
        0x4000_0000
    }
}

/// How far the bytes of a file have come.
#[derive(Debug, Clone, Copy, PartialEq, Eq, Structural)]
pub enum Fill {
    /// So many were written, and there may be more.
    More(u64),
    /// All were: the new file has to be this long.
    Whole(u64),
    /// The system failed.
    Failed,
}

/// How far the bytes of a file have come once the system has copied some more, or said
/// by a negative number that it failed. Only where it copied none is the file at its
/// end, whatever size it is said to have.
pub open spec fn filled(f: Fill, copied: int) -> Fill {
    match f {
        Fill::More(written) => if copied < 0 {
            Fill::Failed
        } else if copied == 0 {
            Fill::Whole(written)
        } else {
            Fill::More((written + copied) as u64)
        },
        _ => f,
    }
}

/// Goes on with the bytes of a file.
pub fn fill_next(f: Fill, copied: i64) -> (r: Fill)
    requires
        f matches Fill::More(written) ==> written + copied <= u64::MAX,
    ensures
        r == filled(f, copied as int),
{
    match f {
        Fill::More(written) => {
            if copied < 0 {
                Fill::Failed
            } else if copied == 0 {
                Fill::Whole(written)
            } else {
                Fill::More(written + copied as u64)
            }
        },
        f => f,
    }
}

/// How many bytes were copied in all.
pub open spec fn copied_in_all(counts: Seq<int>) -> int
    decreases counts.len(),
{
    if counts.len() == 0 {
        0
    } else {
        copied_in_all(counts.drop_last()) + counts.last()
    }
}

/// How far the bytes of a file have come once the system has answered with all of
/// `counts`.
pub open spec fn filled_by(counts: Seq<int>) -> Fill
    decreases counts.len(),
{
    if counts.len() == 0 {
        Fill::More(0)
    } else {
        filled(filled_by(counts.drop_last()), counts.last())
    }
}

/// That the system answers of a file with `length` bytes as it was asked: it copies no
/// more than is left, and none only where nothing is left.
pub open spec fn answers_for(length: nat, counts: Seq<int>) -> bool {
    forall|i: int|
        0 <= i < counts.len() ==> ({
            let before = copied_in_all(counts.take(i));
            &&& #[trigger] counts[i] > 0 ==> before + counts[i] <= length
            &&& counts[i] == 0 ==> before == length
        })
}

/// What is in a file that was made `size` bytes long and then had the first `n` bytes
/// of `content` written to it from its beginning.
pub open spec fn laid_out(content: Seq<u8>, size: nat, n: nat) -> Seq<u8> {
    Seq::new(
        if size > n {
            size
        } else {
            n
        },
        |i: int|
            if i < n {
                content[i]
            } else {
                0
            },
    )
}

/// The bytes of a file are all there only at its end: whatever the answers were, and
/// whatever size the file was said to have, the new file, cut to the length that was
/// told, holds the whole file and nothing more. An empty file is no other.
pub proof fn law_fill_is_whole(content: Seq<u8>, size: nat, counts: Seq<int>)
    requires
        content.len() <= u64::MAX,
        answers_for(content.len(), counts),
    ensures
        filled_by(counts) matches Fill::Whole(len) ==> {
            &&& len == content.len()
            &&& laid_out(content, size, len as nat).take(len as int) == content
        },
        filled_by(counts) matches Fill::More(n) ==> n == copied_in_all(counts) && n
            <= content.len(),
    decreases counts.len(),
{
    if counts.len() > 0 {
        let rest = counts.drop_last();
        assert forall|i: int| 0 <= i < rest.len() implies ({
            let before = copied_in_all(rest.take(i));
            &&& #[trigger] rest[i] > 0 ==> before + rest[i] <= content.len()
            &&& rest[i] == 0 ==> before == content.len()
        }) by {
            assert(rest[i] == counts[i]);
            assert(rest.take(i) =~= counts.take(i));
        }
        law_fill_is_whole(content, size, rest);
        let last = counts.len() - 1;
        assert(counts.take(last) =~= rest);
        assert(counts[last] == counts.last());
    }
    if let Fill::Whole(len) = filled_by(counts) {
        assert(laid_out(content, size, len as nat).take(len as int) =~= content);
    }
}

/// How much to read at once, by the size of the file.
pub fn buffer_size(size: u64) -> (r: usize)
    ensures
        r == if size < 0x1_0000 {
            0x1_0000
        } else if size > 0x40_0000 {
            0x40_0000
        } else {
            size as int
        },
{
    if size < 0x1_0000 {
        0x1_0000
    } else if size > 0x40_0000 {
        0x40_0000
    } else {
        size as usize
    }
}

/// The bits of a mode that a copy gets.
pub fn mode_bits(mode: u32) -> (r: u32)
    ensures
        r == mode & 0o7777,
        r <= 0o7777,
{
    assert(mode & 0o7777 <= 0o7777) by (bit_vector);
    mode & 0o7777
}

/// What an entry is: what is a link is that, whatever it leads to, and only files have a
/// size. A file has an identity just where it has several names, so that two files that
/// have one are the same just where the system has them as one.
pub proof fn law_entry_is_what_was_seen(name: Seq<u8>, a: Meta, b: Meta)
    ensures
        info_of(name, Some(a)).name == name,
        info_of(name, None) == (InfoView {
            name,
            kind: EntryKind::File,
            size: 0,
            hardlink_id: None,
        }),
        a.is_symlink <==> info_of(name, Some(a)).kind == EntryKind::Symlink,
        !a.is_symlink ==> (a.is_dir <==> info_of(name, Some(a)).kind == EntryKind::Dir),
        info_of(name, Some(a)).kind == EntryKind::File ==> info_of(name, Some(a)).size == a.len,
        info_of(name, Some(a)).kind != EntryKind::File ==> info_of(name, Some(a)).size == 0,
        info_of(name, Some(a)).hardlink_id is Some <==> !a.is_symlink && !a.is_dir && a.nlink > 1,
        info_of(name, Some(a)).hardlink_id is Some && info_of(name, Some(b)).hardlink_id is Some
            ==> (info_of(name, Some(a)).hardlink_id == info_of(name, Some(b)).hardlink_id
            <==> a.dev == b.dev && a.ino == b.ino),
{
}

/// The bytes of a file come to an end: the system saying so ends it, a failure is told, and
/// what was copied is added up until then.
pub proof fn law_fill_goes_on(f: Fill, copied: int)
    ensures
        f matches Fill::More(n) ==> {
            &&& copied < 0 <==> filled(f, copied) is Failed
            &&& copied == 0 <==> filled(f, copied) == Fill::Whole(n)
            &&& 0 < copied && n + copied <= u64::MAX ==> (filled(f, copied) matches Fill::More(m)
                && m == n + copied)
        },
        !(f is More) ==> filled(f, copied) == f,
{
}

} // verus!
