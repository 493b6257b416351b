//! Paths as lists of components.
//!
//! Two spellings of a path that differ only in repeated separators, inner `.`
//! components or a trailing separator are the same path, so a path is kept as
//! what remains once that is read off: an optional prefix, whether it starts at
//! a root, and the components below. Names are bytes: a name need not be text.
//!
//! A path is therefore shown and stored in one spelling, whichever it was given in: one
//! separator between components, that of the system, and a drive by its capital letter.

use vstd::prelude::*;

use crate::text::from_utf8_lossy;
use crate::text::lemma_mended_same;
use crate::text::mend;
use crate::text::mended;
use crate::text::utf8_lossy;

verus! {

/// The rules a path is written by.
#[derive(Clone, Copy, PartialEq, Eq, Structural, Debug)]
pub enum Style {
    /// `/` separates, and there are no prefixes.
    Unix,
    /// `\` and `/` separate, and a path may start with a drive or a share.
    Windows,
}

/// What a Windows path may start with.
#[derive(Debug, PartialEq, Eq)]
pub enum Prefix {
    /// `\\?\name`
    Verbatim(Vec<u8>),
    /// `\\?\UNC\server\share`
    VerbatimUnc(Vec<u8>, Vec<u8>),
    /// `\\?\C:`
    VerbatimDisk(u8),
    /// `\\.\name`
    Device(Vec<u8>),
    /// `\\server\share`
    Unc(Vec<u8>, Vec<u8>),
    /// `C:`
    Disk(u8),
}

/// The contents of a [`Prefix`].
pub enum PrefixView {
    Verbatim(Seq<u8>),
    VerbatimUnc(Seq<u8>, Seq<u8>),
    VerbatimDisk(u8),
    Device(Seq<u8>),
    Unc(Seq<u8>, Seq<u8>),
    Disk(u8),
}

impl View for Prefix {
    type V = PrefixView;

    open spec fn view(&self) -> PrefixView {
        match *self {
            Prefix::Verbatim(n) => PrefixView::Verbatim(n@),
            Prefix::VerbatimUnc(s, h) => PrefixView::VerbatimUnc(s@, h@),
            Prefix::VerbatimDisk(d) => PrefixView::VerbatimDisk(d),
            Prefix::Device(n) => PrefixView::Device(n@),
            Prefix::Unc(s, h) => PrefixView::Unc(s@, h@),
            Prefix::Disk(d) => PrefixView::Disk(d),
        }
    }
}

impl PrefixView {
    /// Whether nothing behind the prefix is rewritten by the system.
    pub open spec fn verbatim(self) -> bool {
        self is Verbatim || self is VerbatimUnc || self is VerbatimDisk
    }
}

/// A path.
#[derive(Debug, PartialEq, Eq)]
pub struct PathBuf {
    pub style: Style,
    pub prefix: Option<Prefix>,
    pub rooted: bool,
    pub parts: Vec<Vec<u8>>,
}

/// The contents of a [`PathBuf`].
#[verifier::ext_equal]
pub struct PathView {
    pub style: Style,
    pub prefix: Option<PrefixView>,
    pub rooted: bool,
    pub parts: Seq<Seq<u8>>,
}

/// The byte strings held by a list of them.
pub open spec fn texts(v: Seq<Vec<u8>>) -> Seq<Seq<u8>> {
    Seq::new(v.len(), |i: int| v[i]@)
}

impl View for PathBuf {
    type V = PathView;

    open spec fn view(&self) -> PathView {
        PathView {
            style: self.style,
            prefix: match self.prefix {
                Some(p) => Some(p@),
                None => None,
            },
            rooted: self.rooted,
            parts: texts(self.parts@),
        }
    }
}

/// How bytes of a path are shown: what is no text is replaced, and on Windows half of a
/// pair that stands alone as one.
pub open spec fn shown(style: Style, bytes: Seq<u8>) -> Seq<char> {
    match style {
        Style::Unix => utf8_lossy(bytes),
        Style::Windows => utf8_lossy(mended(bytes)),
    }
}

/// How bytes of a path are shown.
pub fn show_bytes(style: Style, bytes: &[u8]) -> (r: String)
    ensures
        r@ == shown(style, bytes@),
        vstd::utf8::valid_utf8(bytes@) ==> r@ == vstd::utf8::decode_utf8(bytes@),
{
    match style {
        Style::Unix => from_utf8_lossy(bytes),
        Style::Windows => {
            proof {
                if vstd::utf8::valid_utf8(bytes@) {
                    lemma_mended_same(bytes@);
                }
            }
            from_utf8_lossy(&mend(bytes))
        },
    }
}

/// The component `.`.
pub open spec fn dot() -> Seq<u8> {
    seq![46u8]
}

/// The component `..`.
pub open spec fn dot_dot() -> Seq<u8> {
    seq![46u8, 46u8]
}

/// Whether a component is the name of something, neither `.` nor `..`.
pub open spec fn is_name(part: Seq<u8>) -> bool {
    part != dot() && part != dot_dot()
}

impl PathView {
    /// The path without its last component, where it has one.
    pub open spec fn parent(self) -> Option<PathView> {
        if self.parts.len() > 0 {
            Some(PathView { parts: self.parts.drop_last(), ..self })
        } else {
            None
        }
    }

    /// The last component, where it is a name.
    pub open spec fn file_name(self) -> Option<Seq<u8>> {
        if self.parts.len() > 0 && is_name(self.parts.last()) {
            Some(self.parts.last())
        } else {
            None
        }
    }

    /// The path with one more component.
    pub open spec fn child(self, name: Seq<u8>) -> PathView {
        PathView { parts: self.parts.push(name), ..self }
    }

    /// The path with a separator at its end, where it has none: it is written with an
    /// empty last component.
    pub open spec fn closed_off(self) -> PathView {
        if self.parts.len() > 0 {
            self.child(Seq::empty())
        } else {
            self
        }
    }

    /// Whether the path holds nothing at all.
    pub open spec fn is_empty(self) -> bool {
        self.prefix is None && !self.rooted && self.parts.len() == 0
    }

    /// Whether `base` is this path or one of the paths above it.
    pub open spec fn starts_with(self, base: PathView) -> bool {
        &&& self.style == base.style
        &&& {
            ||| base.is_empty()
            ||| base.parts.len() == 0 && !base.rooted && self.prefix == base.prefix
            ||| {
                &&& self.prefix == base.prefix
                &&& self.rooted == base.rooted
                &&& base.parts.is_prefix_of(self.parts)
            }
        }
    }

    /// What `rel` means when read from this path.
    pub open spec fn join(self, rel: PathView) -> PathView {
        if rel.prefix is Some {
            rel
        } else if rel.rooted {
            PathView { prefix: self.prefix, ..rel }
        } else if self.is_empty() {
            rel
        } else if rel.parts.len() > 0 && rel.parts[0] == dot() {
            PathView { parts: self.parts + rel.parts.drop_first(), ..self }
        } else {
            PathView { parts: self.parts + rel.parts, ..self }
        }
    }

    /// Whether the path says where it is without a working directory.
    pub open spec fn is_absolute(self) -> bool {
        match self.style {
            Style::Unix => self.rooted,
            Style::Windows => match self.prefix {
                Some(PrefixView::Disk(_)) => self.rooted,
                Some(_) => true,
                None => false,
            },
        }
    }
}

/// Compares two byte strings.
pub fn same_bytes(a: &[u8], b: &[u8]) -> (r: bool)
    ensures
        r == (a@ == b@),
{
    if a.len() != b.len() {
        return false;
    }
    let mut i: usize = 0;
    while i < a.len()
        invariant
            a.len() == b.len(),
            0 <= i <= a.len(),
            forall|j: int| 0 <= j < i ==> a@[j] == b@[j],
        decreases a.len() - i,
    {
        if a[i] != b[i] {
            return false;
        }
        i = i + 1;
    }
    assert(a@ =~= b@);
    true
}

/// A copy of a byte string.
pub fn copy_bytes(a: &[u8]) -> (r: Vec<u8>)
    ensures
        r@ == a@,
{
    let mut r: Vec<u8> = Vec::new();
    let mut i: usize = 0;
    while i < a.len()
        invariant
            0 <= i <= a.len(),
            r@ == a@.take(i as int),
        decreases a.len() - i,
    {
        r.push(a[i]);
        i = i + 1;
        assert(a@.take(i as int) =~= a@.take(i - 1).push(a@[i - 1]));
    }
    assert(a@.take(i as int) =~= a@);
    r
}

impl Prefix {
    /// Compares two prefixes.
    pub fn same(&self, other: &Prefix) -> (r: bool)
        ensures
            r == (self@ == other@),
    {
        match (self, other) {
            (Prefix::Verbatim(a), Prefix::Verbatim(b)) => same_bytes(a, b),
            (Prefix::VerbatimUnc(a, c), Prefix::VerbatimUnc(b, d)) => same_bytes(a, b)
                && same_bytes(c, d),
            (Prefix::VerbatimDisk(a), Prefix::VerbatimDisk(b)) => *a == *b,
            (Prefix::Device(a), Prefix::Device(b)) => same_bytes(a, b),
            (Prefix::Unc(a, c), Prefix::Unc(b, d)) => same_bytes(a, b) && same_bytes(c, d),
            (Prefix::Disk(a), Prefix::Disk(b)) => *a == *b,
            _ => false,
        }
    }
}

impl Clone for Prefix {
    fn clone(&self) -> (r: Self)
        ensures
            r@ == self@,
    {
        match self {
            Prefix::Verbatim(n) => Prefix::Verbatim(copy_bytes(n)),
            Prefix::VerbatimUnc(s, h) => Prefix::VerbatimUnc(copy_bytes(s), copy_bytes(h)),
            Prefix::VerbatimDisk(d) => Prefix::VerbatimDisk(*d),
            Prefix::Device(n) => Prefix::Device(copy_bytes(n)),
            Prefix::Unc(s, h) => Prefix::Unc(copy_bytes(s), copy_bytes(h)),
            Prefix::Disk(d) => Prefix::Disk(*d),
        }
    }
}

fn copy_parts(parts: &Vec<Vec<u8>>, n: usize) -> (r: Vec<Vec<u8>>)
    requires
        n <= parts.len(),
    ensures
        texts(r@) == texts(parts@).take(n as int),
{
    let mut r: Vec<Vec<u8>> = Vec::new();
    let mut i: usize = 0;
    while i < n
        invariant
            0 <= i <= n <= parts.len(),
            r.len() == i,
            forall|j: int| 0 <= j < i ==> r@[j]@ == parts@[j]@,
        decreases n - i,
    {
        r.push(copy_bytes(&parts[i]));
        i = i + 1;
    }
    assert(texts(r@) =~= texts(parts@).take(n as int));
    r
}

impl Clone for PathBuf {
    fn clone(&self) -> (r: Self)
        ensures
            r@ == self@,
    {
        let prefix = match &self.prefix {
            Some(p) => Some(p.clone()),
            None => None,
        };
        let parts = copy_parts(&self.parts, self.parts.len());
        assert(texts(self.parts@).take(self.parts.len() as int) =~= texts(self.parts@));
        PathBuf { style: self.style, prefix, rooted: self.rooted, parts }
    }
}

impl PathBuf {
    /// The path that holds nothing.
    pub fn new(style: Style) -> (r: PathBuf)
        ensures
            r@ == (PathView { style, prefix: None, rooted: false, parts: Seq::empty() }),
    {
        let r = PathBuf { style, prefix: None, rooted: false, parts: Vec::new() };
        assert(r@.parts =~= Seq::<Seq<u8>>::empty());
        r
    }

    fn same_prefix(&self, other: &PathBuf) -> (r: bool)
        ensures
            r == (self@.prefix == other@.prefix),
    {
        match (&self.prefix, &other.prefix) {
            (Some(a), Some(b)) => a.same(b),
            (None, None) => true,
            _ => false,
        }
    }

    /// Whether the first components of `self` are those of `other`.
    fn parts_start_with(&self, other: &PathBuf) -> (r: bool)
        ensures
            r == other@.parts.is_prefix_of(self@.parts),
    {
        if other.parts.len() > self.parts.len() {
            return false;
        }
        let mut i: usize = 0;
        while i < other.parts.len()
            invariant
                0 <= i <= other.parts.len() <= self.parts.len(),
                forall|j: int| 0 <= j < i ==> self@.parts[j] == other@.parts[j],
            decreases other.parts.len() - i,
        {
            if !same_bytes(&self.parts[i], &other.parts[i]) {
                assert(self@.parts[i as int] != other@.parts[i as int]);
                assert(self@.parts.subrange(0, other@.parts.len() as int)[i as int]
                    == self@.parts[i as int]);
                return false;
            }
            i = i + 1;
        }
        assert(other@.parts =~= self@.parts.subrange(0, other@.parts.len() as int));
        true
    }

    /// Compares two paths.
    pub fn same(&self, other: &PathBuf) -> (r: bool)
        ensures
            r == (self@ == other@),
    {
        if self.style == other.style && self.rooted == other.rooted && self.same_prefix(other)
            && self.parts.len() == other.parts.len() && self.parts_start_with(other) {
            assert(other@.parts =~= self@.parts);
            assert(self@ =~= other@);
            true
        } else {
            assert(self@ == other@ ==> other@.parts =~= self@.parts.subrange(
                0,
                other@.parts.len() as int,
            ));
            false
        }
    }

    /// The path without its last component.
    pub fn parent(&self) -> (r: Option<PathBuf>)
        ensures
            match r {
                Some(p) => self@.parent() == Some(p@),
                None => self@.parent() is None,
            },
    {
        let n: usize = self.parts.len();
        if n == 0 {
            return None;
        }
        let prefix = match &self.prefix {
            Some(p) => Some(p.clone()),
            None => None,
        };
        let parts = copy_parts(&self.parts, n - 1);
        assert(texts(self.parts@).take(n - 1) =~= self@.parts.drop_last());
        Some(PathBuf { style: self.style, prefix, rooted: self.rooted, parts })
    }

    /// The last component, where it is a name.
    pub fn file_name(&self) -> (r: Option<Vec<u8>>)
        ensures
            match r {
                Some(n) => self@.file_name() == Some(n@),
                None => self@.file_name() is None,
            },
    {
        let n: usize = self.parts.len();
        if n == 0 {
            return None;
        }
        let last: &Vec<u8> = &self.parts[n - 1];
        if is_dot(last) || is_dot_dot(last) {
            None
        } else {
            Some(copy_bytes(last))
        }
    }

    /// Adds a component.
    pub fn push(&mut self, name: Vec<u8>)
        ensures
            final(self)@ == old(self)@.child(name@),
    {
        self.parts.push(name);
        assert(self@.parts =~= old(self)@.parts.push(name@));
    }

    /// The path with one more component.
    pub fn child(&self, name: &[u8]) -> (r: PathBuf)
        ensures
            r@ == self@.child(name@),
    {
        let mut r = self.clone();
        r.push(copy_bytes(name));
        r
    }

    /// The path with a separator at its end, where it has none.
    pub fn closed_off(&self) -> (r: PathBuf)
        ensures
            r@ == self@.closed_off(),
    {
        let mut r = self.clone();
        if self.parts.len() > 0 {
            let nothing: Vec<u8> = Vec::new();
            assert(nothing@ =~= Seq::<u8>::empty());
            r.push(nothing);
        }
        r
    }

    /// Whether the path holds nothing at all.
    pub fn is_empty(&self) -> (r: bool)
        ensures
            r == self@.is_empty(),
    {
        self.prefix.is_none() && !self.rooted && self.parts.len() == 0
    }

    /// Whether `base` is this path or one of the paths above it.
    pub fn starts_with(&self, base: &PathBuf) -> (r: bool)
        ensures
            r == self@.starts_with(base@),
    {
        if self.style != base.style {
            return false;
        }
        if base.is_empty() {
            return true;
        }
        if !self.same_prefix(base) {
            return false;
        }
        if base.parts.len() == 0 && !base.rooted {
            return true;
        }
        self.rooted == base.rooted && self.parts_start_with(base)
    }

    /// What `rel` means when read from this path.
    pub fn join(&self, rel: &PathBuf) -> (r: PathBuf)
        ensures
            r@ == self@.join(rel@),
    {
        if rel.prefix.is_some() {
            return rel.clone();
        }
        if rel.rooted {
            let prefix = match &self.prefix {
                Some(p) => Some(p.clone()),
                None => None,
            };
            let parts = copy_parts(&rel.parts, rel.parts.len());
            assert(texts(rel.parts@).take(rel.parts.len() as int) =~= rel@.parts);
            return PathBuf { style: rel.style, prefix, rooted: true, parts };
        }
        if self.is_empty() {
            return rel.clone();
        }
        let mut r = self.clone();
        let skip: usize = if rel.parts.len() > 0 && is_dot(&rel.parts[0]) {
            1
        } else {
            0
        };
        let mut i: usize = skip;
        assert(r@.parts =~= self@.parts + rel@.parts.subrange(skip as int, i as int));
        while i < rel.parts.len()
            invariant
                skip <= i <= rel.parts.len(),
                r@ == (PathView {
                    parts: self@.parts + rel@.parts.subrange(skip as int, i as int),
                    ..self@
                }),
            decreases rel.parts.len() - i,
        {
            r.push(copy_bytes(&rel.parts[i]));
            i = i + 1;
            assert(self@.parts + rel@.parts.subrange(skip as int, i as int) =~= (self@.parts
                + rel@.parts.subrange(skip as int, i - 1)).push(rel@.parts[i - 1]));
        }
        assert(rel@.parts.subrange(skip as int, i as int) =~= if skip == 1 {
            rel@.parts.drop_first()
        } else {
            rel@.parts
        });
        r
    }

    /// Whether the path says where it is without a working directory.
    pub fn is_absolute(&self) -> (r: bool)
        ensures
            r == self@.is_absolute(),
    {
        match self.style {
            Style::Unix => self.rooted,
            Style::Windows => match &self.prefix {
                Some(Prefix::Disk(_)) => self.rooted,
                Some(_) => true,
                None => false,
            },
        }
    }
}

/// Whether a component is `.`.
pub fn is_dot(part: &[u8]) -> (r: bool)
    ensures
        r == (part@ == dot()),
{
    let r = part.len() == 1 && part[0] == 46;
    assert(r ==> part@ =~= dot());
    assert(part@ == dot() ==> part@[0] == dot()[0]);
    r
}

/// Whether a component is `..`.
pub fn is_dot_dot(part: &[u8]) -> (r: bool)
    ensures
        r == (part@ == dot_dot()),
{
    let r = part.len() == 2 && part[0] == 46 && part[1] == 46;
    assert(r ==> part@ =~= dot_dot());
    assert(part@ == dot_dot() ==> part@[0] == dot_dot()[0] && part@[1] == dot_dot()[1]);
    r
}

/// The byte that separates components when a path is written.
pub open spec fn separator(style: Style) -> u8 {
    match style {
        Style::Unix => 47u8,
        Style::Windows => 92u8,
    }
}

/// Whether a byte separates components. Behind a verbatim prefix `/` does not.
pub open spec fn is_separator(style: Style, verbatim: bool, b: u8) -> bool {
    match style {
        Style::Unix => b == 47,
        Style::Windows => b == 92 || (!verbatim && b == 47),
    }
}

/// The pieces of `text` between separators, empty ones as well.
pub open spec fn segments(text: Seq<u8>, style: Style, verbatim: bool) -> Seq<Seq<u8>>
    decreases text.len(),
{
    if text.len() == 0 {
        seq![Seq::<u8>::empty()]
    } else {
        let s = segments(text.drop_last(), style, verbatim);
        if is_separator(style, verbatim, text.last()) {
            s.push(Seq::<u8>::empty())
        } else {
            s.drop_last().push(s.last().push(text.last()))
        }
    }
}

/// The segments that are components: neither empty, nor `.` other than at the
/// start of a path that may start so, or behind a verbatim prefix.
pub open spec fn kept(segs: Seq<Seq<u8>>, verbatim: bool, lead: bool) -> Seq<Seq<u8>>
    decreases segs.len(),
{
    if segs.len() == 0 {
        Seq::empty()
    } else {
        let r = kept(segs.drop_last(), verbatim, lead);
        let x = segs.last();
        if x.len() > 0 && (x != dot() || verbatim || (lead && segs.len() == 1)) {
            r.push(x)
        } else {
            r
        }
    }
}

/// Whether a byte is a letter that can name a drive.
pub open spec fn is_letter(b: u8) -> bool {
    (65 <= b <= 90) || (97 <= b <= 122)
}

/// The upper case of a letter.
pub open spec fn upper(b: u8) -> u8 {
    if 97 <= b <= 122 {
        (b - 32) as u8
    } else {
        b
    }
}

/// How many bytes come before the first separator.
pub open spec fn first_len(text: Seq<u8>, style: Style, verbatim: bool) -> nat
    decreases text.len(),
{
    if text.len() == 0 || is_separator(style, verbatim, text[0]) {
        0
    } else {
        1 + first_len(text.skip(1), style, verbatim)
    }
}

/// What comes before the first separator.
pub open spec fn first_of(text: Seq<u8>, style: Style, verbatim: bool) -> Seq<u8> {
    text.take(first_len(text, style, verbatim) as int)
}

/// What comes behind the first separator.
pub open spec fn behind_first(text: Seq<u8>, style: Style, verbatim: bool) -> Seq<u8> {
    let n = first_len(text, style, verbatim);
    if n < text.len() {
        text.skip(n as int + 1)
    } else {
        Seq::empty()
    }
}

/// The prefix that a Windows path starts with.
pub open spec fn windows_prefix(t: Seq<u8>) -> Option<PrefixView> {
    let w = Style::Windows;
    if t.len() >= 2 && is_separator(w, false, t[0]) && is_separator(w, false, t[1]) {
        if t.len() >= 4 && t[0] == 92 && t[1] == 92 && t[2] == 63 && t[3] == 92 {
            if t.len() >= 8 && t[4] == 85 && t[5] == 78 && t[6] == 67 && is_separator(
                w,
                false,
                t[7],
            ) {
                let rest = t.skip(8);
                Some(
                    PrefixView::VerbatimUnc(
                        first_of(rest, w, true),
                        first_of(behind_first(rest, w, true), w, true),
                    ),
                )
            } else if t.len() >= 6 && is_letter(t[4]) && t[5] == 58 && (t.len() == 6
                || is_separator(w, false, t[6])) {
                Some(PrefixView::VerbatimDisk(upper(t[4])))
            } else {
                Some(PrefixView::Verbatim(first_of(t.skip(4), w, true)))
            }
        } else if t.len() >= 4 && t[2] == 46 && is_separator(w, false, t[3]) {
            Some(PrefixView::Device(first_of(t.skip(4), w, false)))
        } else {
            let rest = t.skip(2);
            let server = first_of(rest, w, false);
            let share = first_of(behind_first(rest, w, false), w, false);
            if server.len() > 0 && share.len() > 0 {
                Some(PrefixView::Unc(server, share))
            } else {
                None
            }
        }
    } else if t.len() >= 2 && is_letter(t[0]) && t[1] == 58 {
        Some(PrefixView::Disk(upper(t[0])))
    } else {
        None
    }
}

impl PrefixView {
    /// How many bytes of a path the prefix takes up.
    pub open spec fn width(self) -> nat {
        match self {
            PrefixView::Verbatim(n) => 4 + n.len(),
            PrefixView::VerbatimUnc(s, h) => 8 + s.len() + if h.len() > 0 {
                1 + h.len()
            } else {
                0
            },
            PrefixView::VerbatimDisk(_) => 6,
            PrefixView::Device(n) => 4 + n.len(),
            PrefixView::Unc(s, h) => 2 + s.len() + if h.len() > 0 {
                1 + h.len()
            } else {
                0
            },
            PrefixView::Disk(_) => 2,
        }
    }

    /// The prefix as it is written.
    pub open spec fn render(self) -> Seq<u8> {
        match self {
            PrefixView::Verbatim(n) => seq![92u8, 92u8, 63u8, 92u8] + n,
            PrefixView::VerbatimUnc(s, h) => seq![92u8, 92u8, 63u8, 92u8, 85u8, 78u8, 67u8, 92u8]
                + s + seq![92u8] + h,
            PrefixView::VerbatimDisk(d) => seq![92u8, 92u8, 63u8, 92u8, d, 58u8],
            PrefixView::Device(n) => seq![92u8, 92u8, 46u8, 92u8] + n,
            PrefixView::Unc(s, h) => seq![92u8, 92u8] + s + seq![92u8] + h,
            PrefixView::Disk(d) => seq![d, 58u8],
        }
    }
}

/// The path that `text` spells.
pub open spec fn parsed(style: Style, text: Seq<u8>) -> PathView {
    let prefix = match style {
        Style::Unix => None,
        Style::Windows => windows_prefix(text),
    };
    let rest = match prefix {
        Some(p) => text.skip(p.width() as int),
        None => text,
    };
    let verbatim = match prefix {
        Some(p) => p.verbatim(),
        None => false,
    };
    let slash = rest.len() > 0 && is_separator(style, false, rest[0]);
    let body = if slash {
        rest.skip(1)
    } else {
        rest
    };
    PathView {
        style,
        prefix,
        rooted: slash || (prefix matches Some(p) && (p is Device || p is Unc)),
        parts: kept(segments(body, style, verbatim), verbatim, prefix is None && !slash),
    }
}

/// `parts` with a separator between each two.
pub open spec fn joined(parts: Seq<Seq<u8>>, sep: u8) -> Seq<u8>
    decreases parts.len(),
{
    if parts.len() == 0 {
        Seq::empty()
    } else if parts.len() == 1 {
        parts[0]
    } else {
        joined(parts.drop_last(), sep).push(sep) + parts.last()
    }
}

impl PathView {
    /// The path as it is written.
    pub open spec fn render(self) -> Seq<u8> {
        let head = match self.prefix {
            Some(p) => p.render(),
            None => Seq::empty(),
        };
        let root = if self.rooted {
            seq![separator(self.style)]
        } else {
            Seq::empty()
        };
        head + root + joined(self.parts, separator(self.style))
    }

    /// The path as it is shown to the user.
    pub open spec fn display(self) -> Seq<char> {
        shown(self.style, self.render())
    }
}

/// Whether a byte separates components.
pub fn separates(style: Style, verbatim: bool, b: u8) -> (r: bool)
    ensures
        r == is_separator(style, verbatim, b),
{
    match style {
        Style::Unix => b == 47,
        Style::Windows => b == 92 || (!verbatim && b == 47),
    }
}

proof fn lemma_segments_nonempty(text: Seq<u8>, style: Style, verbatim: bool)
    ensures
        segments(text, style, verbatim).len() > 0,
    decreases text.len(),
{
    if text.len() > 0 {
        lemma_segments_nonempty(text.drop_last(), style, verbatim);
    }
}

fn keeps(x: &[u8], verbatim: bool, first: bool) -> (r: bool)
    ensures
        r == (x@.len() > 0 && (x@ != dot() || verbatim || first)),
{
    x.len() > 0 && (!is_dot(x) || verbatim || first)
}

/// Reads the components off `text`.
fn split_parts(text: &[u8], style: Style, verbatim: bool, lead: bool) -> (r: Vec<Vec<u8>>)
    ensures
        texts(r@) == kept(segments(text@, style, verbatim), verbatim, lead),
{
    let mut out: Vec<Vec<u8>> = Vec::new();
    let mut cur: Vec<u8> = Vec::new();
    let mut first: bool = true;
    let mut i: usize = 0;
    assert(text@.take(0) =~= Seq::<u8>::empty());
    assert(segments(text@.take(0), style, verbatim).drop_last() =~= Seq::<Seq<u8>>::empty());
    assert(texts(out@) =~= Seq::<Seq<u8>>::empty());
    while i < text.len()
        invariant
            0 <= i <= text.len(),
            segments(text@.take(i as int), style, verbatim).len() > 0,
            segments(text@.take(i as int), style, verbatim).last() == cur@,
            texts(out@) == kept(
                segments(text@.take(i as int), style, verbatim).drop_last(),
                verbatim,
                lead,
            ),
            first == (segments(text@.take(i as int), style, verbatim).len() == 1),
        decreases text.len() - i,
    {
        let b: u8 = text[i];
        let ghost before = segments(text@.take(i as int), style, verbatim);
        assert(text@.take(i + 1).drop_last() =~= text@.take(i as int));
        let ghost after = segments(text@.take(i + 1), style, verbatim);
        if separates(style, verbatim, b) {
            assert(after == before.push(Seq::<u8>::empty()));
            assert(after.drop_last() =~= before);
            if keeps(&cur, verbatim, lead && first) {
                let ghost old_out = out@;
                out.push(cur);
                assert(texts(out@) =~= texts(old_out).push(before.last()));
            }
            cur = Vec::new();
            first = false;
        } else {
            cur.push(b);
            assert(after.drop_last() =~= before.drop_last());
        }
        i = i + 1;
    }
    assert(text@.take(i as int) =~= text@);
    if keeps(&cur, verbatim, lead && first) {
        let ghost old_out = out@;
        let ghost last = cur@;
        out.push(cur);
        assert(texts(out@) =~= texts(old_out).push(last));
    }
    out
}

/// Takes off what comes before the first separator.
fn take_first(text: &[u8], from: usize, verbatim: bool) -> (r: Vec<u8>)
    requires
        from <= text.len(),
    ensures
        r@ == first_of(text@.skip(from as int), Style::Windows, verbatim),
        r.len() == first_len(text@.skip(from as int), Style::Windows, verbatim),
        r.len() <= text.len() - from,
        r.len() == text.len() - from || is_separator(
            Style::Windows,
            verbatim,
            text@[from + r.len()],
        ),
{
    let mut r: Vec<u8> = Vec::new();
    let mut i: usize = from;
    let ghost all = text@.skip(from as int);
    assert(all.skip(0) =~= all);
    while i < text.len() && !separates(Style::Windows, verbatim, text[i])
        invariant
            from <= i <= text.len(),
            all == text@.skip(from as int),
            r@ == all.take(i - from),
            first_len(all, Style::Windows, verbatim) == (i - from) + first_len(
                all.skip(i - from),
                Style::Windows,
                verbatim,
            ),
        decreases text.len() - i,
    {
        r.push(text[i]);
        assert(all.skip(i - from)[0] == text@[i as int]);
        assert(all.skip(i - from).skip(1) =~= all.skip(i + 1 - from));
        assert(all.take(i + 1 - from) =~= all.take(i - from).push(text@[i as int]));
        i = i + 1;
    }
    assert(i < text.len() ==> all.skip(i - from)[0] == text@[i as int]);
    r
}

/// What a Windows path starts with, and how many bytes that takes up.
fn take_prefix(t: &[u8]) -> (r: Option<(Prefix, usize)>)
    ensures
        match r {
            Some((p, n)) => windows_prefix(t@) == Some(p@) && n == p@.width() && n <= t.len(),
            None => windows_prefix(t@) is None,
        },
{
    let w = Style::Windows;
    if t.len() >= 2 && separates(w, false, t[0]) && separates(w, false, t[1]) {
        if t.len() >= 4 && t[0] == 92 && t[1] == 92 && t[2] == 63 && t[3] == 92 {
            if t.len() >= 8 && t[4] == 85 && t[5] == 78 && t[6] == 67 && separates(
                w,
                false,
                t[7],
            ) {
                let server = take_first(t, 8, true);
                let n: usize = server.len();
                if n < t.len() - 8 {
                    let share = take_first(t, 8 + n + 1, true);
                    assert(behind_first(t@.skip(8), w, true) =~= t@.skip(8 + n + 1));
                    let m: usize = share.len();
                    let width: usize = if m > 0 {
                        8 + n + 1 + m
                    } else {
                        8 + n
                    };
                    Some((Prefix::VerbatimUnc(server, share), width))
                } else {
                    assert(behind_first(t@.skip(8), w, true) =~= Seq::<u8>::empty());
                    assert(first_of(Seq::<u8>::empty(), w, true) =~= Seq::<u8>::empty());
                    Some((Prefix::VerbatimUnc(server, Vec::new()), 8 + n))
                }
            } else if t.len() >= 6 && drive(t[4]) && t[5] == 58 && (t.len() == 6 || separates(
                w,
                false,
                t[6],
            )) {
                Some((Prefix::VerbatimDisk(to_upper(t[4])), 6))
            } else {
                let name = take_first(t, 4, true);
                let n: usize = name.len();
                Some((Prefix::Verbatim(name), 4 + n))
            }
        } else if t.len() >= 4 && t[2] == 46 && separates(w, false, t[3]) {
            let name = take_first(t, 4, false);
            let n: usize = name.len();
            Some((Prefix::Device(name), 4 + n))
        } else {
            let server = take_first(t, 2, false);
            let n: usize = server.len();
            if n < t.len() - 2 {
                let share = take_first(t, 2 + n + 1, false);
                assert(behind_first(t@.skip(2), w, false) =~= t@.skip(2 + n + 1));
                let m: usize = share.len();
                if n > 0 && m > 0 {
                    Some((Prefix::Unc(server, share), 2 + n + 1 + m))
                } else {
                    None
                }
            } else {
                assert(behind_first(t@.skip(2), w, false) =~= Seq::<u8>::empty());
                assert(first_of(Seq::<u8>::empty(), w, false) =~= Seq::<u8>::empty());
                None
            }
        }
    } else if t.len() >= 2 && drive(t[0]) && t[1] == 58 {
        Some((Prefix::Disk(to_upper(t[0])), 2))
    } else {
        None
    }
}

fn drive(b: u8) -> (r: bool)
    ensures
        r == is_letter(b),
{
    (65 <= b && b <= 90) || (97 <= b && b <= 122)
}

fn to_upper(b: u8) -> (r: u8)
    ensures
        r == upper(b),
{
    if 97 <= b && b <= 122 {
        b - 32
    } else {
        b
    }
}

fn drop_bytes(text: &[u8], n: usize) -> (r: Vec<u8>)
    requires
        n <= text.len(),
    ensures
        r@ == text@.skip(n as int),
{
    let mut r: Vec<u8> = Vec::new();
    let mut i: usize = n;
    while i < text.len()
        invariant
            n <= i <= text.len(),
            r@ == text@.subrange(n as int, i as int),
        decreases text.len() - i,
    {
        r.push(text[i]);
        i = i + 1;
        assert(text@.subrange(n as int, i as int) =~= text@.subrange(n as int, i - 1).push(
            text@[i - 1],
        ));
    }
    assert(text@.subrange(n as int, i as int) =~= text@.skip(n as int));
    r
}

impl Prefix {
    fn is_verbatim(&self) -> (r: bool)
        ensures
            r == self@.verbatim(),
    {
        match self {
            Prefix::Verbatim(_) => true,
            Prefix::VerbatimUnc(_, _) => true,
            Prefix::VerbatimDisk(_) => true,
            _ => false,
        }
    }

    /// The prefix as it is written.
    pub fn render(&self) -> (r: Vec<u8>)
        ensures
            r@ == self@.render(),
    {
        let mut r: Vec<u8> = Vec::new();
        match self {
            Prefix::Verbatim(n) => {
                r.push(92);
                r.push(92);
                r.push(63);
                r.push(92);
                add_bytes(&mut r, n);
            },
            Prefix::VerbatimUnc(s, h) => {
                r.push(92);
                r.push(92);
                r.push(63);
                r.push(92);
                r.push(85);
                r.push(78);
                r.push(67);
                r.push(92);
                add_bytes(&mut r, s);
                r.push(92);
                add_bytes(&mut r, h);
            },
            Prefix::VerbatimDisk(d) => {
                r.push(92);
                r.push(92);
                r.push(63);
                r.push(92);
                r.push(*d);
                r.push(58);
            },
            Prefix::Device(n) => {
                r.push(92);
                r.push(92);
                r.push(46);
                r.push(92);
                add_bytes(&mut r, n);
            },
            Prefix::Unc(s, h) => {
                r.push(92);
                r.push(92);
                add_bytes(&mut r, s);
                r.push(92);
                add_bytes(&mut r, h);
            },
            Prefix::Disk(d) => {
                r.push(*d);
                r.push(58);
            },
        }
        assert(r@ =~= self@.render());
        r
    }
}

/// Adds a byte string to another.
pub fn add_bytes(to: &mut Vec<u8>, from: &[u8])
    ensures
        final(to)@ == old(to)@ + from@,
{
    let mut i: usize = 0;
    assert(old(to)@ + from@.take(0) =~= old(to)@);
    while i < from.len()
        invariant
            0 <= i <= from.len(),
            to@ == old(to)@ + from@.take(i as int),
        decreases from.len() - i,
    {
        to.push(from[i]);
        i = i + 1;
        assert(old(to)@ + from@.take(i as int) =~= (old(to)@ + from@.take(i - 1)).push(
            from@[i - 1],
        ));
    }
    assert(from@.take(i as int) =~= from@);
}

impl PathBuf {
    /// Reads a path.
    pub fn parse(style: Style, text: &[u8]) -> (r: PathBuf)
        ensures
            r@ == parsed(style, text@),
    {
        let found = match style {
            Style::Unix => None,
            Style::Windows => take_prefix(text),
        };
        let width: usize = match &found {
            Some((_, n)) => *n,
            None => 0,
        };
        let rest = drop_bytes(text, width);
        assert(text@.skip(0) =~= text@);
        let slash = rest.len() > 0 && separates(style, false, rest[0]);
        let body = if slash {
            drop_bytes(&rest, 1)
        } else {
            rest
        };
        match found {
            Some((p, _)) => {
                let verbatim = p.is_verbatim();
                let implied = match &p {
                    Prefix::Device(_) => true,
                    Prefix::Unc(_, _) => true,
                    _ => false,
                };
                let parts = split_parts(&body, style, verbatim, false);
                PathBuf { style, prefix: Some(p), rooted: slash || implied, parts }
            },
            None => {
                let parts = split_parts(&body, style, false, !slash);
                PathBuf { style, prefix: None, rooted: slash, parts }
            },
        }
    }

    /// The path as it is written.
    pub fn render(&self) -> (r: Vec<u8>)
        ensures
            r@ == self@.render(),
    {
        let sep: u8 = match self.style {
            Style::Unix => 47,
            Style::Windows => 92,
        };
        let mut r = match &self.prefix {
            Some(p) => p.render(),
            None => Vec::new(),
        };
        let ghost head = r@;
        if self.rooted {
            r.push(sep);
        }
        let ghost start = r@;
        assert(start =~= head + if self.rooted {
            seq![sep]
        } else {
            Seq::<u8>::empty()
        });
        let mut i: usize = 0;
        assert(self@.parts.take(0) =~= Seq::<Seq<u8>>::empty());
        assert(start =~= start + Seq::<u8>::empty());
        while i < self.parts.len()
            invariant
                0 <= i <= self.parts.len(),
                r@ == start + joined(self@.parts.take(i as int), sep),
            decreases self.parts.len() - i,
        {
            let ghost so_far = joined(self@.parts.take(i as int), sep);
            if i > 0 {
                r.push(sep);
            }
            add_bytes(&mut r, &self.parts[i]);
            i = i + 1;
            assert(self@.parts.take(i as int).drop_last() =~= self@.parts.take(i - 1));
            if i > 1 {
                assert(r@ =~= start + (so_far.push(sep) + self@.parts[i - 1]));
            } else {
                assert(r@ =~= start + self@.parts[0]);
            }
        }
        assert(self@.parts.take(i as int) =~= self@.parts);
        r
    }

    /// The path as it is shown to the user.
    pub fn display(&self) -> (r: String)
        ensures
            r@ == self@.display(),
    {
        show_bytes(self.style, &self.render())
    }
}

/// Whether a Unix path has only components that can be written and read back.
pub open spec fn unix_wf(p: PathView) -> bool {
    &&& p.style == Style::Unix
    &&& p.prefix is None
    &&& forall|i: int|
        0 <= i < p.parts.len() ==> {
            &&& (#[trigger] p.parts[i]).len() > 0
            &&& !p.parts[i].contains(47u8)
            &&& p.parts[i] == dot() ==> i == 0 && !p.rooted
        }
}

proof fn lemma_segments_append(a: Seq<u8>, b: Seq<u8>)
    requires
        !b.contains(47u8),
    ensures
        segments(a.push(47u8) + b, Style::Unix, false) == segments(a, Style::Unix, false).push(b),
    decreases b.len(),
{
    let s = segments(a, Style::Unix, false);
    if b.len() == 0 {
        assert(a.push(47u8) + b =~= a.push(47u8));
        assert(a.push(47u8).drop_last() =~= a);
        assert(b =~= Seq::<u8>::empty());
    } else {
        let c = b.drop_last();
        assert forall|x: u8| c.contains(x) implies b.contains(x) by {
            let i = choose|i: int| 0 <= i < c.len() && c[i] == x;
            assert(b[i] == x);
        }
        lemma_segments_append(a, c);
        assert((a.push(47u8) + b).drop_last() =~= a.push(47u8) + c);
        assert(b.contains(b.last()));
        let t = segments(a.push(47u8) + c, Style::Unix, false);
        assert(t.drop_last() =~= s);
        assert(c.push(b.last()) =~= b);
    }
}

proof fn lemma_segments_plain(b: Seq<u8>)
    requires
        !b.contains(47u8),
    ensures
        segments(b, Style::Unix, false) == seq![b],
    decreases b.len(),
{
    if b.len() > 0 {
        let c = b.drop_last();
        assert forall|x: u8| c.contains(x) implies b.contains(x) by {
            let i = choose|i: int| 0 <= i < c.len() && c[i] == x;
            assert(b[i] == x);
        }
        lemma_segments_plain(c);
        assert(b.contains(b.last()));
        assert(c.push(b.last()) =~= b);
        assert(segments(b, Style::Unix, false) =~= seq![b]);
    } else {
        assert(b =~= Seq::<u8>::empty());
    }
}

proof fn lemma_segments_joined(parts: Seq<Seq<u8>>)
    requires
        parts.len() > 0,
        forall|i: int| 0 <= i < parts.len() ==> !(#[trigger] parts[i]).contains(47u8),
    ensures
        segments(joined(parts, 47u8), Style::Unix, false) == parts,
    decreases parts.len(),
{
    if parts.len() == 1 {
        lemma_segments_plain(parts[0]);
        assert(seq![parts[0]] =~= parts);
    } else {
        lemma_segments_joined(parts.drop_last());
        lemma_segments_append(joined(parts.drop_last(), 47u8), parts.last());
        assert(parts.drop_last().push(parts.last()) =~= parts);
    }
}

proof fn lemma_kept_all(parts: Seq<Seq<u8>>, lead: bool)
    requires
        forall|i: int|
            0 <= i < parts.len() ==> (#[trigger] parts[i]).len() > 0 && (parts[i] == dot() ==> i
                == 0 && lead),
    ensures
        kept(parts, false, lead) == parts,
    decreases parts.len(),
{
    if parts.len() > 0 {
        lemma_kept_all(parts.drop_last(), lead);
        assert(parts.drop_last().push(parts.last()) =~= parts);
    }
}

/// Reading back a Unix path as it was written gives the same path.
pub proof fn law_parse_reads_back(p: PathView)
    requires
        unix_wf(p),
    ensures
        parsed(Style::Unix, p.render()) == p,
{
    let t = joined(p.parts, 47u8);
    if p.rooted {
        assert(p.render() =~= seq![47u8] + t);
        assert(p.render().skip(1) =~= t);
    } else {
        assert(p.render() =~= t);
    }
    if p.parts.len() == 0 {
        assert(t.len() == 0);
        assert(p.parts =~= Seq::<Seq<u8>>::empty());
        let s = segments(t, Style::Unix, false);
        assert(s =~= seq![Seq::<u8>::empty()]);
        assert(s.drop_last() =~= Seq::<Seq<u8>>::empty());
        assert(kept(s.drop_last(), false, !p.rooted) =~= Seq::<Seq<u8>>::empty());
        assert(kept(s, false, !p.rooted) =~= Seq::<Seq<u8>>::empty());
    } else {
        lemma_segments_joined(p.parts);
        lemma_kept_all(p.parts, !p.rooted);
        lemma_joined_first(p.parts);
    }
    assert(parsed(Style::Unix, p.render()) =~= p);
}

proof fn lemma_joined_first(parts: Seq<Seq<u8>>)
    requires
        parts.len() > 0,
        parts[0].len() > 0,
        !parts[0].contains(47u8),
    ensures
        joined(parts, 47u8).len() > 0,
        joined(parts, 47u8)[0] != 47u8,
    decreases parts.len(),
{
    if parts.len() == 1 {
        assert(parts[0].contains(parts[0][0]));
    } else {
        lemma_joined_first(parts.drop_last());
    }
}

/// Where the last `.` of a name is, or -1.
pub open spec fn last_dot(name: Seq<u8>) -> int
    decreases name.len(),
{
    if name.len() == 0 {
        -1
    } else if name.last() == 46 {
        name.len() - 1
    } else {
        last_dot(name.drop_last())
    }
}

/// A name with what is behind its last `.` replaced, or with something added
/// where there is no `.` but at the start.
pub open spec fn renamed(name: Seq<u8>, extension: Seq<u8>) -> Seq<u8> {
    let n = last_dot(name);
    if n > 0 {
        name.take(n).push(46u8) + extension
    } else {
        name.push(46u8) + extension
    }
}

proof fn lemma_last_dot(name: Seq<u8>, k: int)
    requires
        0 <= k < name.len(),
        name[k] == 46,
    ensures
        k <= last_dot(name) < name.len(),
    decreases name.len(),
{
    if name.last() != 46 {
        assert(name.drop_last()[k] == 46);
        lemma_last_dot(name.drop_last(), k);
    }
}

/// An extension with a `.` in it gives a name that is not the one that it was put on.
pub proof fn law_renamed_differs(name: Seq<u8>, extension: Seq<u8>, k: int)
    requires
        0 <= k < extension.len(),
        extension[k] == 46,
    ensures
        renamed(name, extension) != name,
{
    let n = last_dot(name);
    if n > 0 && renamed(name, extension) == name {
        lemma_dot_within(name);
        let at = n + 1 + k;
        assert(renamed(name, extension)[at] == 46);
        lemma_last_dot(name, at);
    }
}

proof fn lemma_dot_within(name: Seq<u8>)
    ensures
        -1 <= last_dot(name) < name.len(),
    decreases name.len(),
{
    if name.len() > 0 {
        lemma_dot_within(name.drop_last());
    }
}

impl PathView {
    /// The path with the extension of its name replaced, where it has a name.
    pub open spec fn with_extension(self, extension: Seq<u8>) -> PathView {
        match self.file_name() {
            Some(name) => PathView {
                parts: self.parts.drop_last().push(renamed(name, extension)),
                ..self
            },
            None => self,
        }
    }
}

impl PathBuf {
    /// The path with the extension of its name replaced, where it has a name.
    pub fn with_extension(&self, extension: &[u8]) -> (r: PathBuf)
        ensures
            r@ == self@.with_extension(extension@),
    {
        match (self.parent(), self.file_name()) {
            (Some(up), Some(name)) => {
                let mut n: usize = name.len();
                assert(name@.take(n as int) =~= name@);
                while n > 0 && name[n - 1] != 46
                    invariant
                        0 <= n <= name.len(),
                        last_dot(name@) == last_dot(name@.take(n as int)),
                    decreases n,
                {
                    assert(name@.take(n as int).drop_last() =~= name@.take(n - 1));
                    assert(name@.take(n as int).last() == name@[n - 1]);
                    n = n - 1;
                }
                assert(n > 0 ==> name@.take(n as int).last() == name@[n - 1]);
                let keep: usize = if n > 1 {
                    n - 1
                } else {
                    name.len()
                };
                assert(n == 0 ==> last_dot(name@) == -1);
                let mut new: Vec<u8> = Vec::new();
                let mut i: usize = 0;
                while i < keep
                    invariant
                        0 <= i <= keep <= name.len(),
                        new@ == name@.take(i as int),
                    decreases keep - i,
                {
                    new.push(name[i]);
                    i = i + 1;
                    assert(name@.take(i as int) =~= name@.take(i - 1).push(name@[i - 1]));
                }
                assert(name@.take(name.len() as int) =~= name@);
                new.push(46);
                add_bytes(&mut new, extension);
                assert(new@ =~= renamed(name@, extension@));
                let mut r = up;
                r.push(new);
                assert(r@ =~= self@.with_extension(extension@));
                r
            },
            _ => self.clone(),
        }
    }
}

/// Whether a path is another one, or one of those above it: it starts where that does,
/// and its components are the first of that.
pub open spec fn is_above(a: PathView, b: PathView) -> bool {
    &&& a.style == b.style && a.prefix == b.prefix && a.rooted == b.rooted
    &&& a.parts.len() <= b.parts.len()
    &&& forall|i: int| 0 <= i < a.parts.len() ==> #[trigger] a.parts[i] == b.parts[i]
}

/// A path starts with all that is above it. From a root on, it starts with nothing else.
pub proof fn law_above(a: PathView, b: PathView)
    ensures
        is_above(a, b) ==> b.starts_with(a),
        a.rooted && b.starts_with(a) ==> is_above(a, b),
{
    if is_above(a, b) {
        assert(a.parts =~= b.parts.subrange(0, a.parts.len() as int));
    }
    if b.starts_with(a) && a.rooted {
        assert forall|i: int| 0 <= i < a.parts.len() implies #[trigger] a.parts[i]
            == b.parts[i] by {
            assert(b.parts.subrange(0, a.parts.len() as int)[i] == b.parts[i]);
        }
    }
}

/// A component that is added is the last one, and what is above it is what it was added
/// to. A path is below its parent and below itself.
pub proof fn law_parent_and_child(p: PathView, name: Seq<u8>)
    ensures
        p.child(name).parent() == Some(p),
        is_name(name) ==> p.child(name).file_name() == Some(name),
        is_name(name) <==> name != seq![46u8] && name != seq![46u8, 46u8],
        p.parent() is None <==> p.parts.len() == 0,
        p.parent() matches Some(q) ==> is_above(q, p) && q.child(p.parts.last()) == p,
        is_above(p, p),
{
    assert(p.child(name).parts.drop_last() =~= p.parts);
    if p.parts.len() > 0 {
        assert(p.parts.drop_last().push(p.parts.last()) =~= p.parts);
    }
}

/// What a path means from another one: a relative one of names stands below it, name by
/// name, and one from the root, or with a drive of its own, leaves it.
pub proof fn law_join(base: PathView, rel: PathView)
    ensures
        rel.prefix is Some ==> base.join(rel) == rel,
        rel.prefix is None && rel.rooted ==> base.join(rel).parts == rel.parts && base.join(
            rel,
        ).rooted && base.join(rel).prefix == base.prefix,
        rel.prefix is None && !rel.rooted && !base.is_empty() && (rel.parts.len() == 0
            || rel.parts[0] != dot()) ==> base.join(rel) == (PathView {
            parts: base.parts + rel.parts,
            ..base
        }) && is_above(base, base.join(rel)),
        base.is_empty() && !rel.rooted ==> base.join(rel) == rel,
{
}

/// On Unix a path from the root is absolute, and no other; on Windows it takes a drive as
/// well, or a server, a device or the like.
pub proof fn law_absolute_by_the_rules(p: PathView)
    ensures
        p.style == Style::Unix ==> (p.is_absolute() <==> p.rooted),
        p.style == Style::Windows && p.prefix is None ==> !p.is_absolute(),
        p.style == Style::Windows && (p.prefix matches Some(x) && x is Disk) ==> (p.is_absolute()
            <==> p.rooted),
        p.style == Style::Windows && (p.prefix matches Some(x) && !(x is Disk)) ==> p.is_absolute(),
{
}

proof fn lemma_segments_split(x: Seq<u8>, sep: u8, y: Seq<u8>, style: Style, verbatim: bool)
    requires
        is_separator(style, verbatim, sep),
    ensures
        segments(x.push(sep) + y, style, verbatim) == segments(x, style, verbatim) + segments(
            y,
            style,
            verbatim,
        ),
        segments(y, style, verbatim).len() > 0,
    decreases y.len(),
{
    let a = segments(x, style, verbatim);
    let t = x.push(sep) + y;
    if y.len() == 0 {
        assert(t =~= x.push(sep));
        assert(t.drop_last() =~= x);
        assert(segments(t, style, verbatim) =~= a + segments(y, style, verbatim));
    } else {
        let z = y.drop_last();
        lemma_segments_split(x, sep, z, style, verbatim);
        let b = segments(z, style, verbatim);
        assert(t.drop_last() =~= x.push(sep) + z);
        assert(t.last() == y.last());
        let s = a + b;
        assert(s.last() == b.last());
        assert(s.drop_last() =~= a + b.drop_last());
        assert(segments(t, style, verbatim) =~= a + segments(y, style, verbatim));
    }
}

proof fn lemma_kept_split(a: Seq<Seq<u8>>, b: Seq<Seq<u8>>, verbatim: bool, lead: bool)
    requires
        a.len() > 0,
    ensures
        kept(a + b, verbatim, lead) == kept(a, verbatim, lead) + kept(b, verbatim, false),
    decreases b.len(),
{
    if b.len() == 0 {
        assert(a + b =~= a);
        assert(kept(a, verbatim, lead) + kept(b, verbatim, false) =~= kept(a, verbatim, lead));
    } else {
        lemma_kept_split(a, b.drop_last(), verbatim, lead);
        assert((a + b).drop_last() =~= a + b.drop_last());
        assert((a + b).last() == b.last());
        assert(kept(a + b, verbatim, lead) =~= kept(a, verbatim, lead) + kept(b, verbatim, false));
    }
}

proof fn lemma_segments_one(text: Seq<u8>, style: Style, verbatim: bool)
    requires
        forall|i: int| 0 <= i < text.len() ==> !is_separator(style, verbatim, #[trigger] text[i]),
    ensures
        segments(text, style, verbatim) == seq![text],
    decreases text.len(),
{
    if text.len() > 0 {
        let rest = text.drop_last();
        assert forall|i: int| 0 <= i < rest.len() implies !is_separator(
            style,
            verbatim,
            #[trigger] rest[i],
        ) by {
            assert(!is_separator(style, verbatim, text[i]));
        }
        lemma_segments_one(rest, style, verbatim);
        assert(!is_separator(style, verbatim, text[text.len() - 1]));
        let s = seq![rest];
        assert(s.drop_last() =~= Seq::<Seq<u8>>::empty());
        assert(rest.push(text.last()) =~= text);
        assert(segments(text, style, verbatim) =~= seq![text]);
    } else {
        assert(text =~= Seq::<u8>::empty());
    }
}

proof fn lemma_kept_none(x: Seq<u8>)
    requires
        x.len() == 0 || x == dot(),
    ensures
        kept(seq![x], false, false) == Seq::<Seq<u8>>::empty(),
{
    let s = seq![x];
    assert(s.drop_last() =~= Seq::<Seq<u8>>::empty());
    assert(kept(s.drop_last(), false, false) == Seq::<Seq<u8>>::empty());
    assert(s.last() == x);
}

/// The components behind a separator do not depend on what nothing or `.` stands before
/// it.
proof fn lemma_at_first(x: Seq<u8>, b: Seq<u8>)
    requires
        x.len() == 0 || x == dot(),
    ensures
        kept(segments(x.push(47) + b, Style::Unix, false), false, false) == kept(
            segments(b, Style::Unix, false),
            false,
            false,
        ),
{
    let u = Style::Unix;
    lemma_segments_split(x, 47, b, u, false);
    lemma_segments_one(x, u, false);
    lemma_kept_none(x);
    let sb = segments(b, u, false);
    lemma_kept_split(seq![x], sb, false, false);
    assert(Seq::<Seq<u8>>::empty() + kept(sb, false, false) =~= kept(sb, false, false));
}

/// The components of what stands before and behind a separator that is not the first byte
/// are those of both, whatever nothing or `.` stands between.
proof fn lemma_between(a: Seq<u8>, x: Seq<u8>, b: Seq<u8>, lead: bool)
    requires
        x.len() == 0 || x == dot(),
    ensures
        ({
            let u = Style::Unix;
            kept(segments(a.push(47) + x.push(47) + b, u, false), false, lead) == kept(
                segments(a.push(47) + b, u, false),
                false,
                lead,
            )
        }),
{
    let u = Style::Unix;
    let y = x.push(47) + b;
    assert(a.push(47) + x.push(47) + b =~= a.push(47) + y);
    lemma_segments_split(a, 47, y, u, false);
    lemma_segments_split(x, 47, b, u, false);
    lemma_segments_split(a, 47, b, u, false);
    lemma_segments_split(a, 47, a, u, false);
    let sa = segments(a, u, false);
    let sx = segments(x, u, false);
    let sb = segments(b, u, false);
    lemma_segments_one(x, u, false);
    lemma_kept_none(x);
    lemma_kept_split(sa, sx + sb, false, lead);
    lemma_kept_split(sx, sb, false, false);
    lemma_kept_split(sa, sb, false, lead);
    assert(Seq::<Seq<u8>>::empty() + kept(sb, false, false) =~= kept(sb, false, false));
}

/// On Unix a separator that is doubled, and a `.` between two, mean nothing in a path,
/// wherever they stand; a path starts at the root just where its first byte is a separator.
#[verifier::spinoff_prover]
#[verifier::rlimit(40)]
pub proof fn law_spellings_of_one_path(a: Seq<u8>, b: Seq<u8>)
    ensures
        parsed(Style::Unix, a + seq![47u8, 47u8] + b) == parsed(Style::Unix, a + seq![47u8] + b),
        parsed(Style::Unix, a + seq![47u8, 46u8, 47u8] + b) == parsed(
            Style::Unix,
            a + seq![47u8] + b,
        ),
        parsed(Style::Unix, a).rooted <==> a.len() > 0 && a[0] == 47,
        parsed(Style::Unix, a).prefix is None,
{
    let none = Seq::<u8>::empty();
    let one = a + seq![47u8] + b;
    let two = a + seq![47u8, 47u8] + b;
    let three = a + seq![47u8, 46u8, 47u8] + b;
    let rooted = a.len() == 0 || a[0] == 47;
    assert(one[0] == two[0] && one[0] == three[0]);
    if a.len() == 0 {
        assert(one.skip(1) =~= b);
        assert(two.skip(1) =~= none.push(47) + b);
        assert(three.skip(1) =~= dot().push(47) + b);
        lemma_at_first(none, b);
        lemma_at_first(dot(), b);
    } else {
        let body = if rooted {
            a.skip(1)
        } else {
            a
        };
        let cut: int = if rooted {
            1
        } else {
            0
        };
        assert(one.skip(cut) =~= body.push(47) + b);
        assert(two.skip(cut) =~= body.push(47) + none.push(47) + b);
        assert(three.skip(cut) =~= body.push(47) + dot().push(47) + b);
        assert(one.skip(0) =~= one && two.skip(0) =~= two && three.skip(0) =~= three);
        lemma_between(body, none, b, !rooted);
        lemma_between(body, dot(), b, !rooted);
    }
}

proof fn lemma_segments_of_joined(parts: Seq<Seq<u8>>, style: Style, verbatim: bool)
    requires
        parts.len() > 0,
        is_separator(style, verbatim, separator(style)),
        forall|i: int, j: int|
            0 <= i < parts.len() && 0 <= j < parts[i].len() ==> !is_separator(
                style,
                verbatim,
                #[trigger] parts[i][j],
            ),
    ensures
        segments(joined(parts, separator(style)), style, verbatim) == parts,
    decreases parts.len(),
{
    let sep = separator(style);
    let last = parts.len() - 1;
    assert forall|j: int| 0 <= j < parts[last].len() implies !is_separator(
        style,
        verbatim,
        #[trigger] parts[last][j],
    ) by {}
    lemma_segments_one(parts[last], style, verbatim);
    if parts.len() == 1 {
        assert(seq![parts[0]] =~= parts);
    } else {
        let rest = parts.drop_last();
        assert forall|i: int, j: int| 0 <= i < rest.len() && 0 <= j < rest[i].len() implies !is_separator(
            style,
            verbatim,
            #[trigger] rest[i][j],
        ) by {
            assert(!is_separator(style, verbatim, parts[i][j]));
        }
        lemma_segments_of_joined(rest, style, verbatim);
        lemma_segments_split(joined(rest, sep), sep, parts[last], style, verbatim);
        assert(rest + seq![parts[last]] =~= parts);
    }
}

proof fn lemma_kept_names(parts: Seq<Seq<u8>>, verbatim: bool, lead: bool)
    requires
        forall|i: int|
            0 <= i < parts.len() ==> (#[trigger] parts[i]).len() > 0 && parts[i] != dot(),
    ensures
        kept(parts, verbatim, lead) == parts,
    decreases parts.len(),
{
    if parts.len() > 0 {
        let rest = parts.drop_last();
        assert forall|i: int| 0 <= i < rest.len() implies (#[trigger] rest[i]).len() > 0 && rest[i]
            != dot() by {
            assert(parts[i].len() > 0);
        }
        lemma_kept_names(rest, verbatim, lead);
        assert(parts[parts.len() - 1].len() > 0);
        assert(rest.push(parts.last()) =~= parts);
    } else {
        assert(parts =~= Seq::<Seq<u8>>::empty());
    }
}

/// Reading back a Windows path with a drive as it was written gives the same path, and the
/// small letter of a drive is read as the capital one.
pub proof fn law_drives_read_back(p: PathView)
    requires
        p.style == Style::Windows,
        p.rooted,
        p.prefix matches Some(PrefixView::Disk(d)) && 65 <= d <= 90,
        forall|i: int|
            0 <= i < p.parts.len() ==> (#[trigger] p.parts[i]).len() > 0 && p.parts[i] != dot(),
        forall|i: int, j: int|
            0 <= i < p.parts.len() && 0 <= j < p.parts[i].len() ==> #[trigger] p.parts[i][j] != 92
                && p.parts[i][j] != 47,
    ensures
        parsed(Style::Windows, p.render()) == p,
        parsed(Style::Windows, p.render().update(0, (p.render()[0] + 32) as u8)) == p,
{
    let w = Style::Windows;
    let d = p.prefix->0->Disk_0;
    let j = joined(p.parts, 92);
    let text = p.render();
    assert(text =~= seq![d, 58u8, 92u8] + j);
    let small = text.update(0, (d + 32) as u8);
    assert(text.skip(2).skip(1) =~= j);
    assert(small.skip(2) =~= text.skip(2));
    assert(upper((d + 32) as u8) == d);
    if p.parts.len() == 0 {
        assert(j =~= Seq::<u8>::empty());
        let s = segments(j, w, false);
        assert(s =~= seq![Seq::<u8>::empty()]);
        lemma_kept_none(Seq::empty());
        assert(p.parts =~= Seq::<Seq<u8>>::empty());
    } else {
        lemma_segments_of_joined(p.parts, w, false);
        lemma_kept_names(p.parts, false, false);
    }
    assert(parsed(w, text) =~= p);
    assert(parsed(w, small) =~= p);
}

/// An extension takes the place of what is behind the last `.` of a name, is put behind a
/// name that has none but at its start, and changes nothing else of the path.
pub proof fn law_with_extension(p: PathView, stem: Seq<u8>, was: Seq<u8>, extension: Seq<u8>)
    requires
        forall|i: int| 0 <= i < was.len() ==> #[trigger] was[i] != 46,
        stem.len() > 0,
        is_name(stem.push(46) + was),
    ensures
        p.child(stem.push(46) + was).with_extension(extension) == p.child(
            stem.push(46) + extension,
        ),
        is_name(was) ==> p.child(was).with_extension(extension) == p.child(was.push(46) + extension),
        p.file_name() is None ==> p.with_extension(extension) == p,
{
    let name = stem.push(46) + was;
    lemma_last_dot_is(name, stem.len() as int);
    assert(name.take(stem.len() as int) =~= stem);
    assert(p.child(name).parts.drop_last() =~= p.parts);
    assert(p.child(was).parts.drop_last() =~= p.parts);
    lemma_no_dot(was);
}

proof fn lemma_no_dot(name: Seq<u8>)
    requires
        forall|i: int| 0 <= i < name.len() ==> #[trigger] name[i] != 46,
    ensures
        last_dot(name) == -1,
    decreases name.len(),
{
    if name.len() > 0 {
        let rest = name.drop_last();
        assert(name[name.len() - 1] != 46);
        assert forall|i: int| 0 <= i < rest.len() implies #[trigger] rest[i] != 46 by {
            assert(name[i] != 46);
        }
        lemma_no_dot(rest);
    }
}

proof fn lemma_last_dot_is(name: Seq<u8>, k: int)
    requires
        0 <= k < name.len(),
        name[k] == 46,
        forall|i: int| k < i < name.len() ==> #[trigger] name[i] != 46,
    ensures
        last_dot(name) == k,
    decreases name.len(),
{
    if k < name.len() - 1 {
        let rest = name.drop_last();
        assert(name[name.len() - 1] != 46);
        assert forall|i: int| k < i < rest.len() implies #[trigger] rest[i] != 46 by {
            assert(name[i] != 46);
        }
        lemma_last_dot_is(rest, k);
    }
}

proof fn lemma_first_len(text: Seq<u8>, n: int, style: Style, verbatim: bool)
    requires
        0 <= n <= text.len(),
        forall|i: int| 0 <= i < n ==> !is_separator(style, verbatim, #[trigger] text[i]),
        n < text.len() ==> is_separator(style, verbatim, text[n]),
    ensures
        first_len(text, style, verbatim) == n,
    decreases n,
{
    if n > 0 {
        let rest = text.skip(1);
        assert(!is_separator(style, verbatim, text[0]));
        assert forall|i: int| 0 <= i < n - 1 implies !is_separator(
            style,
            verbatim,
            #[trigger] rest[i],
        ) by {
            assert(!is_separator(style, verbatim, text[i + 1]));
        }
        lemma_first_len(rest, n - 1, style, verbatim);
    }
}

/// Whether a name can be that of a server or a share.
pub open spec fn is_plain_name(name: Seq<u8>) -> bool {
    &&& name.len() > 0
    &&& name != seq![46u8] && name != seq![63u8]
    &&& forall|i: int| 0 <= i < name.len() ==> #[trigger] name[i] != 92 && name[i] != 47
}

/// Reading back a path on a share as it was written gives the same path: the server, the
/// share and what is below.
pub proof fn law_shares_read_back(p: PathView, server: Seq<u8>, share: Seq<u8>)
    requires
        p.style == Style::Windows,
        p.rooted,
        p.prefix == Some(PrefixView::Unc(server, share)),
        is_plain_name(server),
        is_plain_name(share),
        forall|i: int|
            0 <= i < p.parts.len() ==> (#[trigger] p.parts[i]).len() > 0 && p.parts[i] != dot(),
        forall|i: int, j: int|
            0 <= i < p.parts.len() && 0 <= j < p.parts[i].len() ==> #[trigger] p.parts[i][j] != 92
                && p.parts[i][j] != 47,
    ensures
        parsed(Style::Windows, p.render()) == p,
{
    let w = Style::Windows;
    let j = joined(p.parts, 92);
    let text = p.render();
    let n = server.len() as int;
    let m = share.len() as int;
    assert(text =~= seq![92u8, 92u8] + server + seq![92u8] + share + seq![92u8] + j);
    let rest = text.skip(2);
    assert forall|i: int| 0 <= i < n implies #[trigger] rest[i] == server[i] by {}
    assert(rest[n] == 92);
    lemma_first_len(rest, n, w, false);
    assert(rest.take(n) =~= server);
    let behind = rest.skip(n + 1);
    assert forall|i: int| 0 <= i < m implies #[trigger] behind[i] == share[i] by {}
    assert(behind[m] == 92);
    lemma_first_len(behind, m, w, false);
    assert(behind.take(m) =~= share);
    assert(text[2] == server[0]);
    assert(!(text[2] == 63 && text[3] == 92)) by {
        if text[2] == 63 && text[3] == 92 {
            if n > 1 {
                assert(text[3] == server[1]);
            } else {
                assert(server =~= seq![63u8]);
            }
        }
    }
    assert(!(text[2] == 46 && is_separator(w, false, text[3]))) by {
        if text[2] == 46 && is_separator(w, false, text[3]) {
            if n > 1 {
                assert(text[3] == server[1]);
            } else {
                assert(server =~= seq![46u8]);
            }
        }
    }
    assert(windows_prefix(text) == Some(PrefixView::Unc(server, share)));
    let tail = text.skip(3 + n + m);
    assert(tail =~= seq![92u8] + j);
    assert(tail.skip(1) =~= j);
    if p.parts.len() == 0 {
        assert(j =~= Seq::<u8>::empty());
        assert(segments(j, w, false) =~= seq![Seq::<u8>::empty()]);
        lemma_kept_none(Seq::empty());
        assert(p.parts =~= Seq::<Seq<u8>>::empty());
    } else {
        lemma_segments_of_joined(p.parts, w, false);
        lemma_kept_names(p.parts, false, false);
    }
    assert(parsed(w, text) =~= p);
}

} // verus!
