//! What is particular to Windows: the forms that paths take there, reparse
//! points, and the flags that calls are made with.
//!
//! Names are passed to Windows in units of 16 bits.

use vstd::prelude::*;

use crate::error::FaultKind;
use crate::error::FaultView;
use crate::error::IoFault;
use crate::path::copy_bytes;
use crate::path::dot;
use crate::path::is_dot;
use crate::path::texts;
use crate::path::PathBuf;
use crate::path::PathView;
use crate::path::Prefix;
use crate::path::PrefixView;
use crate::platform::EntryKind;
use crate::platform::LinkKind;

verus! {

/// The reparse tag of a junction.
pub const TAG_MOUNT_POINT: u32 = 0xA000_0003;

/// The reparse tag of a symbolic link.
pub const TAG_SYMLINK: u32 = 0xA000_000C;

/// The most bytes that a reparse point can hold.
pub const MAX_REPARSE_BUFFER: usize = 16384;

/// What comes before the names in the reparse data of a junction.
pub const MOUNT_POINT_HEADER: usize = 16;

/// What comes before the names in the reparse data of a symbolic link.
pub const SYMLINK_HEADER: usize = 20;

/// Files of this size or more are copied past the cache.
pub const NO_BUFFERING_THRESHOLD: u64 = 0x100_0000;

/// The number of the error that two paths are not on one volume.
pub const ERROR_NOT_SAME_DEVICE: i32 = 17;

/// Whether a unit is `\` or `/`.
pub open spec fn is_slash(u: u16) -> bool {
    u == 92 || u == 47
}

/// Whether a unit is a letter.
pub open spec fn is_letter_unit(u: u16) -> bool {
    (65 <= u <= 90) || (97 <= u <= 122)
}

/// How many units come before the first slash.
pub open spec fn before_slash(u: Seq<u16>) -> nat
    decreases u.len(),
{
    if u.len() == 0 || is_slash(u[0]) {
        0
    } else {
        1 + before_slash(u.skip(1))
    }
}

/// Whether the units start with `\\?\`.
pub open spec fn is_verbatim(u: Seq<u16>) -> bool {
    u.len() >= 4 && u[0] == 92 && u[1] == 92 && u[2] == 63 && u[3] == 92
}

/// Whether the units, which do not start with `\\?\`, say where they are without
/// a working directory: they start with a drive and a slash, with `\\.\`, or with
/// a server and a share.
pub open spec fn is_wide_absolute(u: Seq<u16>) -> bool {
    ||| u.len() >= 3 && is_letter_unit(u[0]) && u[1] == 58 && is_slash(u[2])
    ||| u.len() >= 2 && is_slash(u[0]) && is_slash(u[1]) && {
        let rest = u.skip(2);
        let n = before_slash(rest);
        ||| rest.len() >= 2 && rest[0] == 46 && is_slash(rest[1])
        ||| n > 0 && n + 1 < rest.len() && !is_slash(rest[n as int + 1])
    }
}

/// The units with `\` for each `/`.
pub open spec fn backslashed(u: Seq<u16>) -> Seq<u16> {
    u.map_values(
        |c: u16|
            if c == 47 {
                92u16
            } else {
                c
            },
    )
}

/// `\\?\`
pub open spec fn verbatim_units() -> Seq<u16> {
    seq![92u16, 92u16, 63u16, 92u16]
}

/// What a path is handed to Windows as: with `\\?\` in front, so that no length
/// is too long, where it is absolute and has none, and with a zero at the end.
pub open spec fn wide(u: Seq<u16>) -> Seq<u16> {
    if is_wide_absolute(u) && !is_verbatim(u) {
        let b = backslashed(u);
        if b[0] == 92 && b[1] == 92 {
            (verbatim_units() + seq![85u16, 78u16, 67u16] + b.skip(1)).push(0)
        } else {
            (verbatim_units() + b).push(0)
        }
    } else {
        u.push(0)
    }
}

fn slash(u: u16) -> (r: bool)
    ensures
        r == is_slash(u),
{
    u == 92 || u == 47
}

fn wide_absolute(u: &[u16]) -> (r: bool)
    ensures
        r == is_wide_absolute(u@),
{
    let n: usize = u.len();
    if n >= 3 && ((65 <= u[0] && u[0] <= 90) || (97 <= u[0] && u[0] <= 122)) && u[1] == 58
        && slash(u[2]) {
        return true;
    }
    if n < 2 || !slash(u[0]) || !slash(u[1]) {
        return false;
    }
    let ghost rest = u@.skip(2);
    if n >= 4 && u[2] == 46 && slash(u[3]) {
        assert(rest[0] == 46 && is_slash(rest[1]));
        return true;
    }
    let mut i: usize = 2;
    assert(rest.skip(0) =~= rest);
    while i < n && !slash(u[i])
        invariant
            2 <= i <= n,
            n == u.len(),
            rest == u@.skip(2),
            before_slash(rest) == (i - 2) + before_slash(rest.skip(i - 2)),
        decreases n - i,
    {
        assert(rest.skip(i - 2)[0] == u@[i as int]);
        assert(rest.skip(i - 2).skip(1) =~= rest.skip(i - 1));
        i = i + 1;
    }
    assert(i < n ==> rest.skip(i - 2)[0] == u@[i as int]);
    assert(before_slash(rest) == i - 2);
    assert(i + 1 < n ==> rest[i - 2 + 1] == u@[i + 1]);
    i > 2 && i < n && n - i > 1 && !slash(u[i + 1])
}

/// What a path is handed to Windows as.
///
/// Behind `\\?\` Windows does not read `/` as a separator, so it is replaced.
pub fn to_wide(path: &[u16]) -> (r: Vec<u16>)
    ensures
        r@ == wide(path@),
{
    let n: usize = path.len();
    let prefixed = n >= 4 && path[0] == 92 && path[1] == 92 && path[2] == 63 && path[3] == 92;
    let absolute = wide_absolute(path);
    let mut out: Vec<u16> = Vec::new();
    let mut i: usize = 0;
    if absolute && !prefixed {
        out.push(92);
        out.push(92);
        out.push(63);
        out.push(92);
        let ghost b = backslashed(path@);
        assert(b[0] == 92 <==> is_slash(path@[0]));
        assert(b[1] == 92 <==> is_slash(path@[1]));
        let unc = slash(path[0]) && slash(path[1]);
        if unc {
            out.push(85);
            out.push(78);
            out.push(67);
            i = 1;
        }
        let ghost head = out@;
        let ghost from: int = i as int;
        assert(head + b.subrange(from, from) =~= head);
        while i < n
            invariant
                0 <= from <= i <= n,
                n == path.len(),
                b == backslashed(path@),
                out@ == head + b.subrange(from, i as int),
            decreases n - i,
        {
            let c: u16 = if path[i] == 47 {
                92
            } else {
                path[i]
            };
            out.push(c);
            i = i + 1;
            assert(b.subrange(from, i as int) =~= b.subrange(from, i - 1).push(b[i - 1]));
            assert(out@ =~= head + b.subrange(from, i as int));
        }
        out.push(0);
        proof {
            if unc {
                assert(head =~= verbatim_units() + seq![85u16, 78u16, 67u16]);
                assert(b.subrange(from, n as int) =~= b.skip(1));
            } else {
                assert(head =~= verbatim_units());
                assert(b.subrange(from, n as int) =~= b);
            }
            assert(out@ =~= wide(path@));
        }
        out
    } else {
        while i < n
            invariant
                0 <= i <= n,
                n == path.len(),
                out@ == path@.take(i as int),
            decreases n - i,
        {
            out.push(path[i]);
            i = i + 1;
            assert(path@.take(i as int) =~= path@.take(i - 1).push(path@[i - 1]));
        }
        assert(path@.take(n as int) =~= path@);
        out.push(0);
        out
    }
}

/// Every absolute path is handed over with `\\?\` in front, and every path with a
/// zero at the end.
pub proof fn law_wide_is_verbatim(u: Seq<u16>)
    ensures
        wide(u).len() > 0,
        wide(u).last() == 0,
        is_wide_absolute(u) ==> is_verbatim(wide(u)),
{
    if is_wide_absolute(u) && !is_verbatim(u) {
        let b = backslashed(u);
        let w = wide(u);
        assert(w[0] == verbatim_units()[0]);
        assert(w[1] == verbatim_units()[1]);
        assert(w[2] == verbatim_units()[2]);
        assert(w[3] == verbatim_units()[3]);
    }
}

/// The components without `.`.
pub open spec fn undotted(parts: Seq<Seq<u8>>) -> Seq<Seq<u8>>
    decreases parts.len(),
{
    if parts.len() == 0 {
        Seq::empty()
    } else if parts.last() == dot() {
        undotted(parts.drop_last())
    } else {
        undotted(parts.drop_last()).push(parts.last())
    }
}

/// The path in its ordinary form, without `\\?\`, where it has one. There `.`
/// means nothing, and a server without a share is an ordinary name.
pub open spec fn stripped(p: PathView) -> PathView {
    match p.prefix {
        Some(PrefixView::VerbatimDisk(d)) => PathView {
            prefix: Some(PrefixView::Disk(d)),
            rooted: true,
            parts: undotted(p.parts),
            ..p
        },
        Some(PrefixView::VerbatimUnc(s, h)) => if s.len() > 0 && h.len() > 0 {
            PathView {
                prefix: Some(PrefixView::Unc(s, h)),
                rooted: true,
                parts: undotted(p.parts),
                ..p
            }
        } else {
            PathView {
                prefix: None,
                rooted: true,
                parts: if s.len() > 0 {
                    seq![s] + undotted(p.parts)
                } else {
                    undotted(p.parts)
                },
                ..p
            }
        },
        _ => p,
    }
}

fn drop_dots(head: Option<Vec<u8>>, parts: &Vec<Vec<u8>>) -> (r: Vec<Vec<u8>>)
    ensures
        texts(r@) == match head {
            Some(h) => seq![h@] + undotted(texts(parts@)),
            None => undotted(texts(parts@)),
        },
{
    let mut r: Vec<Vec<u8>> = Vec::new();
    if let Some(h) = head {
        r.push(h);
    }
    let ghost start = texts(r@);
    assert(start =~= match head {
        Some(h) => seq![h@],
        None => Seq::<Seq<u8>>::empty(),
    });
    let ghost all = texts(parts@);
    let mut i: usize = 0;
    assert(all.take(0) =~= Seq::<Seq<u8>>::empty());
    assert(start + Seq::<Seq<u8>>::empty() =~= start);
    while i < parts.len()
        invariant
            0 <= i <= parts.len(),
            all == texts(parts@),
            texts(r@) == start + undotted(all.take(i as int)),
        decreases parts.len() - i,
    {
        assert(all.take(i + 1).drop_last() =~= all.take(i as int));
        assert(all.take(i + 1).last() == all[i as int]);
        if !is_dot(&parts[i]) {
            let ghost r0 = texts(r@);
            r.push(copy_bytes(&parts[i]));
            assert(texts(r@) =~= r0.push(all[i as int]));
            assert(texts(r@) =~= start + undotted(all.take(i + 1)));
        }
        i = i + 1;
    }
    assert(all.take(i as int) =~= all);
    assert(head is None ==> start + undotted(all) =~= undotted(all));
    r
}

/// Brings a path into its ordinary form, without `\\?\`. A path of a volume that
/// has no other form stays as it is.
pub fn strip_verbatim(path: &PathBuf) -> (r: PathBuf)
    ensures
        r@ == stripped(path@),
{
    match &path.prefix {
        Some(Prefix::VerbatimDisk(d)) => PathBuf {
            style: path.style,
            prefix: Some(Prefix::Disk(*d)),
            rooted: true,
            parts: drop_dots(None, &path.parts),
        },
        Some(Prefix::VerbatimUnc(s, h)) => {
            if s.len() > 0 && h.len() > 0 {
                PathBuf {
                    style: path.style,
                    prefix: Some(Prefix::Unc(copy_bytes(s), copy_bytes(h))),
                    rooted: true,
                    parts: drop_dots(None, &path.parts),
                }
            } else {
                let head: Option<Vec<u8>> = if s.len() > 0 {
                    Some(copy_bytes(s))
                } else {
                    None
                };
                PathBuf {
                    style: path.style,
                    prefix: None,
                    rooted: true,
                    parts: drop_dots(head, &path.parts),
                }
            }
        },
        _ => path.clone(),
    }
}

/// Once in its ordinary form a path stays as it is.
pub proof fn law_strip_once(p: PathView)
    ensures
        stripped(stripped(p)) == stripped(p),
        stripped(p).prefix matches Some(x) ==> !(x is VerbatimDisk) && !(x is VerbatimUnc),
{
}

/// The code of an error of Windows, as the system numbers it.
pub fn win_err(code: i32) -> (r: i32)
    ensures
        r == code & 0xFFFF,
{
    code & 0xFFFF
}

/// Whether a call failed because two paths are not on one volume.
pub fn is_cross_device(e: &IoFault) -> (r: bool)
    ensures
        r == (e.code == Some(ERROR_NOT_SAME_DEVICE)),
{
    match e.code {
        Some(c) => c == ERROR_NOT_SAME_DEVICE,
        None => false,
    }
}

/// The flags that a file is copied with: never over an existing one, and past the
/// cache where it is large.
pub fn copy_flags(size: u64) -> (r: u32)
    ensures
        r == if size >= NO_BUFFERING_THRESHOLD {
            0x1001u32
        } else {
            0x1u32
        },
        r & 1 == 1,
        size >= 0x100_0000 <==> r & 0x1000 != 0,
{
    assert(0x1001u32 & 1 == 1 && 0x1u32 & 1 == 1 && 0x1001u32 & 0x1000 != 0 && 0x1u32 & 0x1000
        == 0) by (bit_vector);
    if size >= NO_BUFFERING_THRESHOLD {
        0x1001
    } else {
        0x1
    }
}

/// How something is opened to be removed, and how it is removed.
#[derive(Debug, Clone, Copy, PartialEq, Eq, Structural)]
pub struct Deletion {
    /// The flags to open it with: itself, not what it leads to.
    pub open: u32,
    /// How it is removed: at once.
    pub disposition: u32,
}

/// How a file or a link is removed, be it read-only.
pub fn remove_file() -> (r: Deletion)
    ensures
        r == (Deletion { open: 0x0020_0000, disposition: 0x13 }),
        r.open & 0x0020_0000 != 0,
        r.disposition & 0x1 != 0 && r.disposition & 0x10 != 0,
{
    assert(0x0020_0000u32 & 0x0020_0000 != 0 && 0x13u32 & 0x1 != 0 && 0x13u32 & 0x10 != 0) by (
    bit_vector);
    Deletion { open: 0x0020_0000, disposition: 0x13 }
}

/// How an empty directory or a link to one is removed.
pub fn remove_dir() -> (r: Deletion)
    ensures
        r == (Deletion { open: 0x0220_0000, disposition: 0x3 }),
        r.open & 0x0020_0000 != 0 && r.open & 0x0200_0000 != 0,
        r.disposition & 0x1 != 0,
{
    assert(0x0220_0000u32 & 0x0020_0000 != 0 && 0x0220_0000u32 & 0x0200_0000 != 0 && 0x3u32 & 0x1
        != 0) by (bit_vector);
    Deletion { open: 0x0220_0000, disposition: 0x3 }
}

/// What an entry is, by its attributes and its reparse tag. Only junctions and
/// symbolic links are links: a placeholder of a cloud drive has a tag as well.
pub open spec fn kind_by_tag(attributes: u32, tag: u32) -> EntryKind {
    if attributes & 0x400 != 0 && (tag == TAG_MOUNT_POINT || tag == TAG_SYMLINK) {
        EntryKind::Symlink
    } else if attributes & 0x10 != 0 {
        EntryKind::Dir
    } else {
        EntryKind::File
    }
}

/// What Windows says of an entry of a directory.
#[derive(Debug, Clone, Copy, PartialEq, Eq, Structural)]
pub struct FindData {
    pub attributes: u32,
    /// The reparse tag, where the attributes say that there is one.
    pub tag: u32,
    pub size_high: u32,
    pub size_low: u32,
}

/// What an entry is, and how large.
pub fn entry_from_find_data(data: &FindData) -> (r: (EntryKind, u64))
    ensures
        r.0 == kind_by_tag(data.attributes, data.tag),
        r.1 == if r.0 == EntryKind::File {
            data.size_high * 0x1_0000_0000 + data.size_low
        } else {
            0
        },
{
    let is_dir = data.attributes & 0x10 != 0;
    let is_reparse = data.attributes & 0x400 != 0;
    let is_link = is_reparse && (data.tag == TAG_MOUNT_POINT || data.tag == TAG_SYMLINK);
    let kind = if is_link {
        EntryKind::Symlink
    } else if is_dir {
        EntryKind::Dir
    } else {
        EntryKind::File
    };
    let size: u64 = if kind == EntryKind::File {
        data.size_high as u64 * 0x1_0000_0000 + data.size_low as u64
    } else {
        0
    };
    (kind, size)
}

/// What kind of link something is, by its attributes and its reparse tag.
pub open spec fn link_by_tag(attributes: u32, tag: u32) -> Option<LinkKind> {
    if attributes & 0x400 == 0 {
        None
    } else if tag == TAG_MOUNT_POINT {
        Some(LinkKind::Junction)
    } else if tag == TAG_SYMLINK {
        Some(LinkKind::Symlink)
    } else {
        None
    }
}

/// What kind of link something is, by its attributes and its reparse tag.
pub fn link_kind(attributes: u32, tag: u32) -> (r: Option<LinkKind>)
    ensures
        r == link_by_tag(attributes, tag),
{
    if attributes & 0x400 == 0 {
        None
    } else if tag == TAG_MOUNT_POINT {
        Some(LinkKind::Junction)
    } else if tag == TAG_SYMLINK {
        Some(LinkKind::Symlink)
    } else {
        None
    }
}

/// Something is a link where its directory is read just if it is one where it is
/// looked at itself.
pub proof fn law_links_agree(attributes: u32, tag: u32)
    ensures
        kind_by_tag(attributes, tag) == EntryKind::Symlink <==> link_by_tag(
            attributes,
            tag,
        ) is Some,
{
}

/// What names a file that has several names.
pub fn hardlink_id(links: u32, volume: u32, index_high: u32, index_low: u32) -> (r: Option<
    (u64, u64),
>)
    ensures
        match r {
            Some(id) => links > 1 && id.0 == volume && id.1 == index_high * 0x1_0000_0000
                + index_low,
            None => links <= 1,
        },
{
    if links <= 1 {
        None
    } else {
        Some((volume as u64, index_high as u64 * 0x1_0000_0000 + index_low as u64))
    }
}

/// What comes before the first zero.
pub open spec fn until_nul(buf: Seq<u16>) -> Seq<u16>
    decreases buf.len(),
{
    if buf.len() == 0 || buf[0] == 0 {
        Seq::empty()
    } else {
        seq![buf[0]] + until_nul(buf.skip(1))
    }
}

/// The name in a buffer that ends at the first zero.
pub fn cut_at_nul(buf: &[u16]) -> (r: Vec<u16>)
    ensures
        r@ == until_nul(buf@),
{
    let mut r: Vec<u16> = Vec::new();
    let mut i: usize = 0;
    assert(buf@.skip(0) =~= buf@);
    assert(Seq::<u16>::empty() + until_nul(buf@) =~= until_nul(buf@));
    while i < buf.len() && buf[i] != 0
        invariant
            0 <= i <= buf.len(),
            until_nul(buf@) == r@ + until_nul(buf@.skip(i as int)),
        decreases buf.len() - i,
    {
        let ghost r0 = r@;
        assert(buf@.skip(i as int)[0] == buf@[i as int]);
        assert(buf@.skip(i as int).skip(1) =~= buf@.skip(i + 1));
        r.push(buf[i]);
        i = i + 1;
        assert(r0 + (seq![buf@[i - 1]] + until_nul(buf@.skip(i as int))) =~= r@ + until_nul(
            buf@.skip(i as int),
        ));
    }
    assert(i < buf.len() ==> buf@.skip(i as int)[0] == buf@[i as int]);
    assert(r@ + Seq::<u16>::empty() =~= r@);
    r
}

/// Whether a name stands for the directory itself or the one above.
pub fn is_dots(name: &[u16]) -> (r: bool)
    ensures
        r == (name@ == seq![46u16] || name@ == seq![46u16, 46u16]),
{
    let r = (name.len() == 1 && name[0] == 46) || (name.len() == 2 && name[0] == 46 && name[1]
        == 46);
    proof {
        if name@.len() == 1 && name@[0] == 46 {
            assert(name@ =~= seq![46u16]);
        }
        if name@.len() == 2 && name@[0] == 46 && name@[1] == 46 {
            assert(name@ =~= seq![46u16, 46u16]);
        }
    }
    r
}

/// A number of 16 bits as bytes, the low one first.
pub open spec fn le16(u: u16) -> Seq<u8> {
    seq![(u % 256) as u8, (u / 256) as u8]
}

/// The number of 16 bits that two bytes make, the low one first.
pub open spec fn from_le16(low: u8, high: u8) -> u16 {
    (low + high * 256) as u16
}

/// Units as bytes.
pub open spec fn units_le(u: Seq<u16>) -> Seq<u8>
    decreases u.len(),
{
    if u.len() == 0 {
        Seq::empty()
    } else {
        units_le(u.drop_last()) + le16(u.last())
    }
}

/// Bytes as units; an odd one at the end is left out.
pub open spec fn le_units(b: Seq<u8>) -> Seq<u16> {
    Seq::new((b.len() / 2) as nat, |i: int| from_le16(b[2 * i], b[2 * i + 1]))
}

/// `\??\`
pub open spec fn nt_units() -> Seq<u16> {
    seq![92u16, 63u16, 63u16, 92u16]
}

/// `\??\UNC\`
pub open spec fn nt_unc_units() -> Seq<u16> {
    seq![92u16, 63u16, 63u16, 92u16, 85u16, 78u16, 67u16, 92u16]
}

/// How many bytes the reparse data of a junction to `target` takes up.
pub open spec fn mount_point_len(target: Seq<u16>) -> int {
    16 + 2 * (4 + target.len() + 1 + target.len() + 1) as int
}

/// The reparse data of a junction to `target`: the tag, the length of what
/// follows, where the two names are and how long, and the names, the first as the
/// kernel reads it and the second as people do.
pub open spec fn mount_point(target: Seq<u16>) -> Seq<u8> {
    let sub = nt_units() + target;
    seq![0x03u8, 0x00u8, 0x00u8, 0xA0u8] + le16((mount_point_len(target) - 8) as u16) + le16(0)
        + le16(0) + le16((2 * sub.len()) as u16) + le16((2 * sub.len() + 2) as u16) + le16(
        (2 * target.len()) as u16,
    ) + units_le(sub.push(0) + target.push(0))
}

fn push_le16(out: &mut Vec<u8>, u: u16)
    ensures
        final(out)@ == old(out)@ + le16(u),
{
    out.push((u % 256) as u8);
    out.push((u / 256) as u8);
    assert(out@ =~= old(out)@ + le16(u));
}

fn push_units(out: &mut Vec<u8>, u: &[u16], Ghost(start): Ghost<Seq<u8>>, Ghost(before): Ghost<Seq<u16>>)
    requires
        old(out)@ == start + units_le(before),
    ensures
        final(out)@ == start + units_le(before + u@),
{
    let mut i: usize = 0;
    assert(before + u@.take(0) =~= before);
    while i < u.len()
        invariant
            0 <= i <= u.len(),
            out@ == start + units_le(before + u@.take(i as int)),
        decreases u.len() - i,
    {
        push_le16(out, u[i]);
        i = i + 1;
        proof {
            let x = before + u@.take(i as int);
            assert(x.drop_last() =~= before + u@.take(i - 1));
            assert(x.last() == u@[i - 1]);
            assert(out@ =~= start + units_le(x));
        }
    }
    assert(u@.take(i as int) =~= u@);
}

/// The fault that reparse data is answered with.
pub open spec fn reparse_fault(kind: FaultKind, text: Seq<char>) -> FaultView {
    FaultView { kind, code: None, text }
}

/// Puts together the reparse data of a junction to `target`, where it is not too
/// long.
pub fn mount_point_buffer(target: &[u16]) -> (r: Result<Vec<u8>, IoFault>)
    ensures
        match r {
            Ok(b) => mount_point_len(target@) <= MAX_REPARSE_BUFFER && b@ == mount_point(target@),
            Err(e) => mount_point_len(target@) > MAX_REPARSE_BUFFER && e@ == reparse_fault(
                FaultKind::InvalidInput,
                "junction 目标路径过长"@,
            ),
        },
{
    if target.len() > 4089 {
        return Err(
            IoFault {
                kind: FaultKind::InvalidInput,
                code: None,
                text: "junction 目标路径过长".to_owned(),
            },
        );
    }
    let n: u16 = target.len() as u16;
    let mut nt: Vec<u16> = Vec::new();
    nt.push(92);
    nt.push(63);
    nt.push(63);
    nt.push(92);
    assert(nt@ =~= nt_units());
    let mut zero: Vec<u16> = Vec::new();
    zero.push(0);
    let mut out: Vec<u8> = Vec::new();
    out.push(0x03);
    out.push(0x00);
    out.push(0x00);
    out.push(0xA0);
    assert(out@ =~= seq![0x03u8, 0x00u8, 0x00u8, 0xA0u8]);
    push_le16(&mut out, 4 * n + 20);
    push_le16(&mut out, 0);
    push_le16(&mut out, 0);
    push_le16(&mut out, 2 * n + 8);
    push_le16(&mut out, 2 * n + 10);
    push_le16(&mut out, 2 * n);
    let ghost head = out@;
    assert(head + units_le(Seq::<u16>::empty()) =~= head);
    push_units(&mut out, &nt, Ghost(head), Ghost(Seq::empty()));
    assert(Seq::<u16>::empty() + nt@ =~= nt@);
    push_units(&mut out, target, Ghost(head), Ghost(nt@));
    push_units(&mut out, &zero, Ghost(head), Ghost(nt@ + target@));
    push_units(&mut out, target, Ghost(head), Ghost(nt@ + target@ + zero@));
    push_units(&mut out, &zero, Ghost(head), Ghost(nt@ + target@ + zero@ + target@));
    proof {
        let sub = nt_units() + target@;
        assert(nt@ + target@ + zero@ + target@ + zero@ =~= sub.push(0) + target@.push(0));
        assert(out@ =~= mount_point(target@));
    }
    Ok(out)
}

/// Whether a unit is the first of a pair that makes one character.
pub open spec fn is_high(u: u16) -> bool {
    0xD800 <= u < 0xDC00
}

/// Whether a unit is the second of a pair that makes one character.
pub open spec fn is_low(u: u16) -> bool {
    0xDC00 <= u < 0xE000
}

/// The units with the replacement character for each that makes no character.
pub open spec fn lossy_units(u: Seq<u16>) -> Seq<u16>
    decreases u.len(),
{
    if u.len() == 0 {
        Seq::empty()
    } else if is_high(u[0]) && u.len() > 1 && is_low(u[1]) {
        seq![u[0], u[1]] + lossy_units(u.skip(2))
    } else if is_high(u[0]) || is_low(u[0]) {
        seq![0xFFFDu16] + lossy_units(u.skip(1))
    } else {
        seq![u[0]] + lossy_units(u.skip(1))
    }
}

/// A name without what the kernel has in front of it.
pub open spec fn without_nt(u: Seq<u16>) -> Seq<u16> {
    if nt_unc_units().is_prefix_of(u) {
        seq![92u16, 92u16] + u.skip(8)
    } else if nt_units().is_prefix_of(u) {
        u.skip(4)
    } else {
        u
    }
}

/// The number of 16 bits at `i`.
pub open spec fn field(data: Seq<u8>, i: int) -> int {
    from_le16(data[i], data[i + 1]) as int
}

/// The reparse tag.
pub open spec fn tag_of(data: Seq<u8>) -> int {
    field(data, 0) + 0x1_0000 * field(data, 2)
}

/// What reparse data says that a link leads to: the name for people, or where
/// there is none the one for the kernel in its ordinary form.
pub open spec fn link_target_of(data: Seq<u8>) -> Result<Seq<u16>, FaultView> {
    if data.len() < MOUNT_POINT_HEADER {
        Err(reparse_fault(FaultKind::InvalidData, "reparse 数据过短"@))
    } else if tag_of(data) != TAG_MOUNT_POINT && tag_of(data) != TAG_SYMLINK {
        Err(reparse_fault(FaultKind::InvalidInput, "不是 junction 或符号链接"@))
    } else {
        let header = if tag_of(data) == TAG_MOUNT_POINT {
            MOUNT_POINT_HEADER as int
        } else {
            SYMLINK_HEADER as int
        };
        let printed = field(data, 14) > 0;
        let offset = if printed {
            field(data, 12)
        } else {
            field(data, 8)
        };
        let len = if printed {
            field(data, 14)
        } else {
            field(data, 10)
        };
        let start = header + offset;
        if start + len > data.len() {
            Err(reparse_fault(FaultKind::InvalidData, "reparse 数据中的路径越界"@))
        } else {
            let name = le_units(data.subrange(start, start + len));
            if printed {
                Ok(name)
            } else {
                Ok(without_nt(lossy_units(name)))
            }
        }
    }
}

fn read_field(data: &[u8], i: usize) -> (r: usize)
    requires
        i < data.len() - 1,
    ensures
        r == field(data@, i as int),
        r <= 0xFFFF,
{
    data[i] as usize + data[i + 1] as usize * 256
}

fn lossy(u: &Vec<u16>) -> (r: Vec<u16>)
    ensures
        r@ == lossy_units(u@),
{
    let mut r: Vec<u16> = Vec::new();
    let mut i: usize = 0;
    assert(u@.skip(0) =~= u@);
    assert(Seq::<u16>::empty() + lossy_units(u@) =~= lossy_units(u@));
    while i < u.len()
        invariant
            0 <= i <= u.len(),
            lossy_units(u@) == r@ + lossy_units(u@.skip(i as int)),
        decreases u.len() - i,
    {
        let ghost r0 = r@;
        let ghost rest = u@.skip(i as int);
        let c: u16 = u[i];
        assert(rest[0] == c);
        if 0xD800 <= c && c < 0xDC00 && u.len() - i > 1 && 0xDC00 <= u[i + 1] && u[i + 1] < 0xE000 {
            assert(rest[1] == u@[i + 1]);
            r.push(c);
            r.push(u[i + 1]);
            assert(rest.skip(2) =~= u@.skip(i + 2));
            i = i + 2;
            assert(r0 + (seq![rest[0], rest[1]] + lossy_units(u@.skip(i as int))) =~= r@
                + lossy_units(u@.skip(i as int)));
        } else {
            assert(u.len() - i > 1 ==> rest[1] == u@[i + 1]);
            let x: u16 = if 0xD800 <= c && c < 0xE000 {
                0xFFFD
            } else {
                c
            };
            r.push(x);
            assert(rest.skip(1) =~= u@.skip(i + 1));
            i = i + 1;
            assert(r0 + (seq![x] + lossy_units(u@.skip(i as int))) =~= r@ + lossy_units(
                u@.skip(i as int),
            ));
        }
    }
    assert(r@ + Seq::<u16>::empty() =~= r@);
    r
}

fn starts(u: &Vec<u16>, head: &Vec<u16>) -> (r: bool)
    ensures
        r == head@.is_prefix_of(u@),
{
    if head.len() > u.len() {
        return false;
    }
    let mut i: usize = 0;
    while i < head.len()
        invariant
            0 <= i <= head.len() <= u.len(),
            forall|j: int| 0 <= j < i ==> head@[j] == u@[j],
        decreases head.len() - i,
    {
        if u[i] != head[i] {
            assert(u@.subrange(0, head@.len() as int)[i as int] == u@[i as int]);
            return false;
        }
        i = i + 1;
    }
    assert(head@ =~= u@.subrange(0, head@.len() as int));
    true
}

fn push_from(out: &mut Vec<u16>, u: &Vec<u16>, from: usize)
    requires
        from <= u.len(),
    ensures
        final(out)@ == old(out)@ + u@.skip(from as int),
{
    let mut i: usize = from;
    assert(old(out)@ + u@.subrange(from as int, from as int) =~= old(out)@);
    while i < u.len()
        invariant
            from <= i <= u.len(),
            out@ == old(out)@ + u@.subrange(from as int, i as int),
        decreases u.len() - i,
    {
        out.push(u[i]);
        i = i + 1;
        assert(u@.subrange(from as int, i as int) =~= u@.subrange(from as int, i - 1).push(
            u@[i - 1],
        ));
        assert(out@ =~= old(out)@ + u@.subrange(from as int, i as int));
    }
    assert(u@.subrange(from as int, i as int) =~= u@.skip(from as int));
}

fn drop_nt(u: Vec<u16>) -> (r: Vec<u16>)
    ensures
        r@ == without_nt(u@),
{
    let mut nt: Vec<u16> = Vec::new();
    nt.push(92);
    nt.push(63);
    nt.push(63);
    nt.push(92);
    assert(nt@ =~= nt_units());
    let mut unc: Vec<u16> = Vec::new();
    unc.push(92);
    unc.push(63);
    unc.push(63);
    unc.push(92);
    unc.push(85);
    unc.push(78);
    unc.push(67);
    unc.push(92);
    assert(unc@ =~= nt_unc_units());
    let mut out: Vec<u16> = Vec::new();
    if starts(&u, &unc) {
        out.push(92);
        out.push(92);
        push_from(&mut out, &u, 8);
        assert(out@ =~= without_nt(u@));
        out
    } else if starts(&u, &nt) {
        push_from(&mut out, &u, 4);
        assert(out@ =~= without_nt(u@));
        out
    } else {
        u
    }
}

/// Reads from reparse data what a link leads to.
pub fn read_link_target(data: &[u8]) -> (r: Result<Vec<u16>, IoFault>)
    ensures
        match r {
            Ok(u) => link_target_of(data@) == Ok::<Seq<u16>, FaultView>(u@),
            Err(e) => link_target_of(data@) == Err::<Seq<u16>, FaultView>(e@),
        },
{
    if data.len() < MOUNT_POINT_HEADER {
        return Err(
            IoFault {
                kind: FaultKind::InvalidData,
                code: None,
                text: "reparse 数据过短".to_owned(),
            },
        );
    }
    let tag: u32 = read_field(data, 0) as u32 + 0x1_0000 * read_field(data, 2) as u32;
    let header: usize = if tag == TAG_MOUNT_POINT {
        MOUNT_POINT_HEADER
    } else if tag == TAG_SYMLINK {
        SYMLINK_HEADER
    } else {
        return Err(
            IoFault {
                kind: FaultKind::InvalidInput,
                code: None,
                text: "不是 junction 或符号链接".to_owned(),
            },
        );
    };
    let print_len: usize = read_field(data, 14);
    let printed = print_len > 0;
    let offset: usize = if printed {
        read_field(data, 12)
    } else {
        read_field(data, 8)
    };
    let len: usize = if printed {
        print_len
    } else {
        read_field(data, 10)
    };
    let start: usize = header + offset;
    let end: usize = start + len;
    if end > data.len() {
        return Err(
            IoFault {
                kind: FaultKind::InvalidData,
                code: None,
                text: "reparse 数据中的路径越界".to_owned(),
            },
        );
    }
    let ghost part = data@.subrange(start as int, end as int);
    let mut name: Vec<u16> = Vec::new();
    let mut i: usize = 0;
    while i < len / 2
        invariant
            0 <= i <= len / 2,
            start + len == end,
            end <= data.len(),
            part == data@.subrange(start as int, end as int),
            name@ == le_units(part).take(i as int),
        decreases len / 2 - i,
    {
        let at: usize = start + 2 * i;
        assert(part[2 * i] == data@[at as int]);
        assert(part[2 * i + 1] == data@[at + 1]);
        name.push(data[at] as u16 + data[at + 1] as u16 * 256);
        i = i + 1;
        assert(le_units(part).take(i as int) =~= le_units(part).take(i - 1).push(
            le_units(part)[i - 1],
        ));
    }
    assert(le_units(part).take(i as int) =~= le_units(part));
    if printed {
        Ok(name)
    } else {
        Ok(drop_nt(lossy(&name)))
    }
}

proof fn lemma_units_le(u: Seq<u16>)
    ensures
        units_le(u).len() == 2 * u.len(),
        forall|i: int|
            0 <= i < u.len() ==> units_le(u)[2 * i] == (#[trigger] u[i] % 256) as u8 && units_le(
                u,
            )[2 * i + 1] == (u[i] / 256) as u8,
    decreases u.len(),
{
    if u.len() > 0 {
        let rest = u.drop_last();
        lemma_units_le(rest);
        assert forall|i: int| 0 <= i < u.len() implies units_le(u)[2 * i] == (#[trigger] u[i]
            % 256) as u8 && units_le(u)[2 * i + 1] == (u[i] / 256) as u8 by {
            if i < rest.len() {
                assert(rest[i] == u[i]);
            }
        }
    }
}

/// What a junction was made to lead to is what is read from it.
#[verifier::spinoff_prover]
#[verifier::rlimit(40)]
pub proof fn law_junction_reads_back(target: Seq<u16>)
    requires
        mount_point_len(target) <= MAX_REPARSE_BUFFER,
    ensures
        link_target_of(mount_point(target)) == Ok::<Seq<u16>, FaultView>(target),
{
    let data = mount_point(target);
    let n = target.len() as int;
    let sub = nt_units() + target;
    let all = sub.push(0) + target.push(0);
    lemma_units_le(all);
    assert(data.len() == mount_point_len(target));
    assert(data[0] == 0x03 && data[1] == 0 && data[2] == 0 && data[3] == 0xA0);
    assert(tag_of(data) == TAG_MOUNT_POINT);
    assert(field(data, 8) == 0) by {
        assert(data[8] == le16(0)[0] && data[9] == le16(0)[1]);
    }
    assert(field(data, 10) == 2 * sub.len()) by {
        let x = (2 * sub.len()) as u16;
        assert(data[10] == le16(x)[0] && data[11] == le16(x)[1]);
    }
    assert(field(data, 12) == 2 * sub.len() + 2) by {
        let x = (2 * sub.len() + 2) as u16;
        assert(data[12] == le16(x)[0] && data[13] == le16(x)[1]);
    }
    assert(field(data, 14) == 2 * n) by {
        let x = (2 * n) as u16;
        assert(data[14] == le16(x)[0] && data[15] == le16(x)[1]);
    }
    assert forall|i: int| 0 <= i < 2 * all.len() implies data[16 + i] == units_le(all)[i] by {}
    if n > 0 {
        let start: int = 16 + 2 * sub.len() as int + 2;
        let part = data.subrange(start, start + 2 * n);
        assert forall|i: int| 0 <= i < n implies #[trigger] le_units(part)[i] == target[i] by {
            let k = sub.len() + 1 + i;
            assert(all[k] == target[i]);
            assert(part[2 * i] == units_le(all)[2 * k]);
            assert(part[2 * i + 1] == units_le(all)[2 * k + 1]);
        }
        assert(le_units(part) =~= target);
    } else {
        let part = data.subrange(16, 16 + 2 * sub.len() as int);
        assert forall|i: int| 0 <= i < sub.len() implies #[trigger] le_units(part)[i] == sub[i] by {
            assert(all[i] == sub[i]);
            assert(part[2 * i] == units_le(all)[2 * i]);
            assert(part[2 * i + 1] == units_le(all)[2 * i + 1]);
        }
        assert(le_units(part) =~= sub);
        assert(sub =~= nt_units());
        reveal_with_fuel(lossy_units, 5);
        assert(sub.skip(1).skip(1) =~= sub.skip(2));
        assert(sub.skip(2).skip(1) =~= sub.skip(3));
        assert(sub.skip(3).skip(1) =~= Seq::<u16>::empty());
        assert(lossy_units(sub) =~= sub);
        assert(nt_units() =~= sub.subrange(0, 4));
        assert(sub.skip(4) =~= target);
    }
}

/// A junction and a symbolic link are told by their tags, and nothing else is a link: what
/// has another tag, or no reparse point, is what its attributes say.
pub proof fn law_tags(attributes: u32, tag: u32)
    ensures
        link_by_tag(attributes, tag) == Some(LinkKind::Junction) <==> attributes & 0x400 != 0 && tag
            == 0xA000_0003,
        link_by_tag(attributes, tag) == Some(LinkKind::Symlink) <==> attributes & 0x400 != 0 && tag
            == 0xA000_000C,
        link_by_tag(attributes, tag) is None ==> (kind_by_tag(attributes, tag) == EntryKind::Dir
            <==> attributes & 0x10 != 0) && kind_by_tag(attributes, tag) != EntryKind::Symlink,
{
}

/// The ordinary form of a path leads where the path does: the drive, or the server and the
/// share, and the names below stay as they are. What has no `\\?\`, or no other form, is
/// not touched.
pub proof fn law_strip_keeps_the_place(p: PathView)
    ensures
        stripped(p).style == p.style,
        !(p.prefix matches Some(x) && (x is VerbatimDisk || x is VerbatimUnc)) ==> stripped(p) == p,
        p.prefix matches Some(PrefixView::VerbatimDisk(d)) ==> stripped(p).prefix == Some(
            PrefixView::Disk(d),
        ) && stripped(p).rooted,
        p.prefix matches Some(PrefixView::VerbatimUnc(s, h)) ==> s.len() > 0 && h.len() > 0
            ==> stripped(p).prefix == Some(PrefixView::Unc(s, h)) && stripped(p).rooted,
        (p.prefix matches Some(PrefixView::VerbatimUnc(s, h)) ==> s.len() > 0 && h.len() > 0) && (
        forall|i: int| 0 <= i < p.parts.len() ==> #[trigger] p.parts[i] != dot()) ==> stripped(
            p,
        ).parts == p.parts,
{
    if forall|i: int| 0 <= i < p.parts.len() ==> #[trigger] p.parts[i] != dot() {
        lemma_undotted_whole(p.parts);
    }
}

proof fn lemma_undotted_whole(parts: Seq<Seq<u8>>)
    requires
        forall|i: int| 0 <= i < parts.len() ==> #[trigger] parts[i] != dot(),
    ensures
        undotted(parts) == parts,
    decreases parts.len(),
{
    if parts.len() > 0 {
        let rest = parts.drop_last();
        assert forall|i: int| 0 <= i < rest.len() implies #[trigger] rest[i] != dot() by {
            assert(parts[i] != dot());
        }
        lemma_undotted_whole(rest);
        assert(parts[parts.len() - 1] != dot());
        assert(rest.push(parts.last()) =~= parts);
    } else {
        assert(parts =~= Seq::<Seq<u8>>::empty());
    }
}

/// What a path is handed to Windows as names the same place: behind what is put in front,
/// each unit is that of the path, but that `\` stands for `/`. A path that is relative, or
/// has `\\?\` already, is handed over as it is.
pub proof fn law_wide_names_the_path(u: Seq<u16>)
    ensures
        !is_wide_absolute(u) || is_verbatim(u) ==> wide(u) == u.push(0),
        is_wide_absolute(u) && !is_verbatim(u) && !is_slash(u[0]) ==> wide(u).len() == u.len() + 5
            && forall|i: int|
            0 <= i < u.len() ==> #[trigger] wide(u)[4 + i] == if u[i] == 47 {
                92
            } else {
                u[i]
            },
        is_wide_absolute(u) && !is_verbatim(u) && is_slash(u[0]) ==> wide(u).len() == u.len() + 7
            && wide(u)[4] == 85 && wide(u)[5] == 78 && wide(u)[6] == 67 && forall|i: int|
            1 <= i < u.len() ==> #[trigger] wide(u)[6 + i] == if u[i] == 47 {
                92
            } else {
                u[i]
            },
{
    if is_wide_absolute(u) && !is_verbatim(u) {
        let b = backslashed(u);
        let w = wide(u);
        if is_slash(u[0]) {
            assert(b[0] == 92 && b[1] == 92);
            let head = verbatim_units() + seq![85u16, 78u16, 67u16];
            assert(w == (head + b.skip(1)).push(0));
            assert(head[4] == 85 && head[5] == 78 && head[6] == 67);
            assert forall|i: int| 1 <= i < u.len() implies #[trigger] w[6 + i] == if u[i] == 47 {
                92
            } else {
                u[i]
            } by {
                assert(w[6 + i] == b.skip(1)[i - 1]);
                assert(b.skip(1)[i - 1] == b[i]);
            }
        } else {
            assert(b[0] != 92);
            assert(w == (verbatim_units() + b).push(0));
            assert forall|i: int| 0 <= i < u.len() implies #[trigger] w[4 + i] == if u[i] == 47 {
                92
            } else {
                u[i]
            } by {
                assert(w[4 + i] == b[i]);
            }
        }
    }
}

/// Paths with a drive and a slash, of whatever drive, and those with a server and a share,
/// are absolute; those that start with neither are not.
pub proof fn law_wide_absolute(u: Seq<u16>)
    ensures
        u.len() >= 3 && ((65 <= u[0] <= 90) || (97 <= u[0] <= 122)) && u[1] == 58 && (u[2] == 92
            || u[2] == 47) ==> is_wide_absolute(u),
        u.len() == 0 ==> !is_wide_absolute(u),
        u.len() > 0 && u[0] != 92 && u[0] != 47 && is_wide_absolute(u) ==> u.len() >= 3 && u[1]
            == 58 && (u[2] == 92 || u[2] == 47),
        u.len() > 1 && (u[0] == 92 || u[0] == 47) && u[1] != 92 && u[1] != 47
            ==> !is_wide_absolute(u),
{
}

/// A name in a buffer is what stands there before the first zero, or all of it.
pub proof fn law_name_until_nul(buf: Seq<u16>)
    ensures
        until_nul(buf).len() <= buf.len(),
        forall|i: int|
            0 <= i < until_nul(buf).len() ==> #[trigger] until_nul(buf)[i] == buf[i] && buf[i] != 0,
        until_nul(buf).len() < buf.len() ==> buf[until_nul(buf).len() as int] == 0,
    decreases buf.len(),
{
    if buf.len() > 0 && buf[0] != 0 {
        let rest = buf.skip(1);
        law_name_until_nul(rest);
        assert forall|i: int| 0 <= i < until_nul(buf).len() implies #[trigger] until_nul(buf)[i]
            == buf[i] && buf[i] != 0 by {
            if i > 0 {
                assert(until_nul(buf)[i] == until_nul(rest)[i - 1]);
                assert(rest[i - 1] == buf[i]);
            }
        }
        if until_nul(buf).len() < buf.len() {
            assert(rest[until_nul(rest).len() as int] == buf[until_nul(buf).len() as int]);
        }
    }
}

/// A name that is text is kept as it is.
pub proof fn law_text_is_not_replaced(u: Seq<u16>)
    requires
        forall|i: int| 0 <= i < u.len() ==> !is_high(#[trigger] u[i]) && !is_low(u[i]),
    ensures
        lossy_units(u) == u,
    decreases u.len(),
{
    if u.len() > 0 {
        let rest = u.skip(1);
        assert forall|i: int| 0 <= i < rest.len() implies !is_high(#[trigger] rest[i]) && !is_low(
            rest[i],
        ) by {
            assert(rest[i] == u[i + 1]);
        }
        law_text_is_not_replaced(rest);
        assert(seq![u[0]] + rest =~= u);
    } else {
        assert(u =~= Seq::<u16>::empty());
    }
}

/// The name for the kernel without what it has in front of it: `\??\UNC\` stands for the
/// two that a share begins with, and `\??\` for nothing.
pub proof fn law_without_nt(name: Seq<u16>)
    ensures
        without_nt(nt_unc_units() + name) == seq![92u16, 92u16] + name,
        !nt_unc_units().is_prefix_of(nt_units() + name) ==> without_nt(nt_units() + name) == name,
        !nt_units().is_prefix_of(name) ==> without_nt(name) == name,
{
    let a = nt_unc_units() + name;
    assert(nt_unc_units() =~= a.subrange(0, 8));
    assert(a.skip(8) =~= name);
    let b = nt_units() + name;
    assert(nt_units() =~= b.subrange(0, 4));
    assert(b.skip(4) =~= name);
    if nt_unc_units().is_prefix_of(name) {
        assert(nt_units() =~= name.subrange(0, 4)) by {
            let c = name.subrange(0, 8);
            assert(c == nt_unc_units());
            assert(c[0] == name[0] && c[1] == name[1] && c[2] == name[2] && c[3] == name[3]);
        }
    }
}

/// What reparse data says that a link leads to is read from where the data says that it
/// is: behind 16 bytes for a junction and behind 20 for a symbolic link, at the offset and
/// of the length that stand there for the name for people, or, where that is empty, for
/// the kernel. Data that is too short, of another kind, or says that the name is beyond its
/// end gives a fault and nothing else does.
#[verifier::spinoff_prover]
#[verifier::rlimit(40)]
pub proof fn law_target_is_where_the_data_says(data: Seq<u8>)
    requires
        data.len() >= 16,
    ensures
        ({
            let tag = data[0] + 256 * data[1] + 65536 * data[2] + 16777216 * data[3];
            let header: int = if tag == 0xA000_0003 {
                16
            } else {
                20
            };
            let people = data[14] + 256 * data[15];
            let kernel = data[10] + 256 * data[11];
            let at_people = header + data[12] + 256 * data[13];
            let at_kernel = header + data[8] + 256 * data[9];
            let known = tag == 0xA000_0003 || tag == 0xA000_000C;
            let inside = if people > 0 {
                at_people + people <= data.len()
            } else {
                at_kernel + kernel <= data.len()
            };
            &&& link_target_of(data) is Ok <==> known && inside
            &&& known && inside && people > 0 ==> link_target_of(data) == Ok::<
                Seq<u16>,
                FaultView,
            >(le_units(data.subrange(at_people, at_people + people)))
            &&& known && inside && people == 0 ==> link_target_of(data) == Ok::<
                Seq<u16>,
                FaultView,
            >(without_nt(lossy_units(le_units(data.subrange(at_kernel, at_kernel + kernel)))))
            &&& !known ==> (link_target_of(data)->Err_0).kind == FaultKind::InvalidInput
            &&& known && !inside ==> (link_target_of(data)->Err_0).kind == FaultKind::InvalidData
        }),
{
    assert(field(data, 0) == data[0] + 256 * data[1]);
    assert(field(data, 2) == data[2] + 256 * data[3]);
}

/// What the kernel follows a junction by is its target behind `\??\`, which stands first
/// in the data, and the data says how long it is.
#[verifier::spinoff_prover]
#[verifier::rlimit(40)]
pub proof fn law_junction_is_followed(target: Seq<u16>)
    requires
        mount_point_len(target) <= MAX_REPARSE_BUFFER,
    ensures
        ({
            let data = mount_point(target);
            let n = 2 * (4 + target.len()) as int;
            &&& data.len() == 28 + 4 * target.len()
            &&& data[0] == 3 && data[1] == 0 && data[2] == 0 && data[3] == 0xA0
            &&& field(data, 4) == data.len() - 8
            &&& field(data, 8) == 0
            &&& field(data, 10) == n
            &&& le_units(data.subrange(16, 16 + n)) == seq![92u16, 63u16, 63u16, 92u16] + target
        }),
{
    let data = mount_point(target);
    let sub = nt_units() + target;
    let all = sub.push(0) + target.push(0);
    lemma_units_le(all);
    assert(data.len() == mount_point_len(target));
    assert(field(data, 4) == data.len() - 8) by {
        let x = (mount_point_len(target) - 8) as u16;
        assert(data[4] == le16(x)[0] && data[5] == le16(x)[1]);
    }
    assert(field(data, 8) == 0) by {
        assert(data[8] == le16(0)[0] && data[9] == le16(0)[1]);
    }
    assert(field(data, 10) == 2 * sub.len()) by {
        let x = (2 * sub.len()) as u16;
        assert(data[10] == le16(x)[0] && data[11] == le16(x)[1]);
    }
    assert forall|i: int| 0 <= i < 2 * all.len() implies data[16 + i] == units_le(all)[i] by {}
    let part = data.subrange(16, 16 + 2 * sub.len() as int);
    assert forall|i: int| 0 <= i < sub.len() implies #[trigger] le_units(part)[i] == sub[i] by {
        assert(all[i] == sub[i]);
        assert(part[2 * i] == units_le(all)[2 * i]);
        assert(part[2 * i + 1] == units_le(all)[2 * i + 1]);
    }
    assert(le_units(part) =~= sub);
}

/// Units are read as they are written.
pub proof fn law_units_read_back(u: Seq<u16>)
    ensures
        le_units(units_le(u)) == u,
{
    lemma_units_le(u);
    assert forall|i: int| 0 <= i < u.len() implies #[trigger] le_units(units_le(u))[i] == u[i] by {}
    assert(le_units(units_le(u)) =~= u);
}

} // verus!
