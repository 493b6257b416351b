//! The ledger: what was moved where.
//!
//! An entry is written before anything is moved, and marked done when all is.
//! One that is still in flight says that the program stopped half way.

use vstd::prelude::*;

use crate::calendar::civil_from_unix;
use crate::calendar::day_number;
use crate::calendar::is_date;
use crate::error::human;
use crate::error::human_bytes;
use crate::error::Error;
use crate::error::ErrorView;
use crate::error::FaultKind;
use crate::error::FaultView;
use crate::error::IoFault;
use crate::home::home_dir;
use crate::path::is_name;
use crate::path::law_renamed_differs;
use crate::path::renamed;
use crate::path::PathBuf;
use crate::path::PathView;
use crate::path::Style;
use crate::platform::plain;
use crate::platform::strip_verbatim;
use crate::platform::LinkKind;
use crate::text::cat;
use crate::text::dec;
use crate::text::holds;
use crate::text::lemma_encode_concat;
use crate::text::lemma_holds_at;
use crate::text::lines_view;
use crate::text::padded;
use crate::text::push_line;
use crate::text::show;
use crate::text::show_padded;
use crate::text::show_size;

verus! {

/// How far a move has got.
#[derive(Debug, Clone, Copy, PartialEq, Eq, Structural)]
pub enum State {
    /// It was begun. Where this is found, the program stopped half way.
    Inflight,
    Done,
}

/// One move.
#[derive(Debug, PartialEq, Eq)]
pub struct Entry {
    /// What was moved. There is a link now.
    pub source: PathBuf,
    /// Where the data is.
    pub target: PathBuf,
    /// Where the data was, where the source was a link already.
    pub original_real_path: Option<PathBuf>,
    /// The kind of link that was made.
    pub link_kind: String,
    pub state: State,
    pub moved_at: String,
    pub bytes: u64,
    pub files: usize,
    pub dirs: usize,
    /// Whether it was one rename.
    pub same_volume: bool,
}

/// The contents of an [`Entry`].
#[verifier::ext_equal]
pub struct EntryView {
    pub source: PathView,
    pub target: PathView,
    pub original_real_path: Option<PathView>,
    pub link_kind: Seq<char>,
    pub state: State,
    pub moved_at: Seq<char>,
    pub bytes: u64,
    pub files: usize,
    pub dirs: usize,
    pub same_volume: bool,
}

/// The contents of a path that need not be there.
pub open spec fn opt_path(p: Option<PathBuf>) -> Option<PathView> {
    match p {
        Some(p) => Some(p@),
        None => None,
    }
}

impl View for Entry {
    type V = EntryView;

    open spec fn view(&self) -> EntryView {
        EntryView {
            source: self.source@,
            target: self.target@,
            original_real_path: opt_path(self.original_real_path),
            link_kind: self.link_kind@,
            state: self.state,
            moved_at: self.moved_at@,
            bytes: self.bytes,
            files: self.files,
            dirs: self.dirs,
            same_volume: self.same_volume,
        }
    }
}

impl Clone for Entry {
    fn clone(&self) -> (r: Self)
        ensures
            r@ == self@,
    {
        let original_real_path = match &self.original_real_path {
            Some(p) => Some(p.clone()),
            None => None,
        };
        Entry {
            source: self.source.clone(),
            target: self.target.clone(),
            original_real_path,
            link_kind: self.link_kind.clone(),
            state: self.state,
            moved_at: self.moved_at.clone(),
            bytes: self.bytes,
            files: self.files,
            dirs: self.dirs,
            same_volume: self.same_volume,
        }
    }
}

impl Entry {
    /// Whether there still is a link at the source, and one that leads somewhere, by
    /// the kind of link found there and by whether what it leads to is there.
    pub fn link_exists(
        &self,
        kind: &Result<Option<LinkKind>, IoFault>,
        leads_somewhere: bool,
    ) -> (r: bool)
        ensures
            r == (kind matches Ok(Some(_)) && leads_somewhere),
    {
        match kind {
            Ok(Some(_)) => leads_somewhere,
            _ => false,
        }
    }
}

/// All moves.
#[derive(Debug, PartialEq, Eq)]
pub struct Ledger {
    pub version: u32,
    pub entries: Vec<Entry>,
}

/// The contents of a [`Ledger`].
#[verifier::ext_equal]
pub struct LedgerView {
    pub version: u32,
    pub entries: Seq<EntryView>,
}

/// The contents of a list of entries.
pub open spec fn entry_views(v: Seq<Entry>) -> Seq<EntryView> {
    Seq::new(v.len(), |i: int| v[i]@)
}

impl View for Ledger {
    type V = LedgerView;

    open spec fn view(&self) -> LedgerView {
        LedgerView { version: self.version, entries: entry_views(self.entries@) }
    }
}

impl Default for Ledger {
    fn default() -> (r: Self)
        ensures
            r@ == (LedgerView { version: 0, entries: Seq::empty() }),
    {
        let r = Ledger { version: 0, entries: Vec::new() };
        assert(r@.entries =~= Seq::<EntryView>::empty());
        r
    }
}

/// What a move came to, for its entry.
#[derive(Debug, PartialEq, Eq)]
pub struct Completion {
    pub bytes: u64,
    pub files: usize,
    pub dirs: usize,
    pub same_volume: bool,
    pub link_kind: String,
}

/// The contents of a [`Completion`].
pub struct CompletionView {
    pub bytes: u64,
    pub files: usize,
    pub dirs: usize,
    pub same_volume: bool,
    pub link_kind: Seq<char>,
}

impl View for Completion {
    type V = CompletionView;

    open spec fn view(&self) -> CompletionView {
        CompletionView {
            bytes: self.bytes,
            files: self.files,
            dirs: self.dirs,
            same_volume: self.same_volume,
            link_kind: self.link_kind@,
        }
    }
}

impl EntryView {
    /// The entry once its move is done.
    pub open spec fn completed(self, c: CompletionView) -> EntryView {
        EntryView {
            state: State::Done,
            bytes: c.bytes,
            files: c.files,
            dirs: c.dirs,
            same_volume: c.same_volume,
            link_kind: c.link_kind,
            ..self
        }
    }

    /// The entry with its paths in the form to be kept.
    pub open spec fn plained(self) -> EntryView {
        EntryView {
            source: plain(self.source),
            target: plain(self.target),
            original_real_path: match self.original_real_path {
                Some(p) => Some(plain(p)),
                None => None,
            },
            ..self
        }
    }
}

/// The entries but those of `source`.
pub open spec fn without(es: Seq<EntryView>, source: PathView) -> Seq<EntryView>
    decreases es.len(),
{
    if es.len() == 0 {
        Seq::empty()
    } else if es.last().source == source {
        without(es.drop_last(), source)
    } else {
        without(es.drop_last(), source).push(es.last())
    }
}

/// Where the first entry of `source` is, from `i` on; the number of entries where
/// there is none.
pub open spec fn place(es: Seq<EntryView>, source: PathView, i: int) -> int
    decreases es.len() - i,
{
    if i >= es.len() || es[i].source == source {
        i
    } else {
        place(es, source, i + 1)
    }
}

impl LedgerView {
    /// Whether there is an entry of `source`.
    pub open spec fn has(self, source: PathView) -> bool {
        place(self.entries, source, 0) < self.entries.len()
    }

    /// The first entry of `source`.
    pub open spec fn found(self, source: PathView) -> Option<EntryView> {
        if self.has(source) {
            Some(self.entries[place(self.entries, source, 0)])
        } else {
            None
        }
    }

    /// The ledger once a move was begun: its entry takes the place of any older
    /// one.
    pub open spec fn begun(self, e: EntryView) -> LedgerView {
        LedgerView { entries: without(self.entries, e.source).push(e), ..self }
    }

    /// The ledger once a move is done.
    pub open spec fn completed(self, source: PathView, c: CompletionView) -> LedgerView {
        let i = place(self.entries, source, 0);
        LedgerView { entries: self.entries.update(i, self.entries[i].completed(c)), ..self }
    }

    /// The ledger without the entries of `source`.
    pub open spec fn removed(self, source: PathView) -> LedgerView {
        LedgerView { entries: without(self.entries, source), ..self }
    }
}

proof fn lemma_place(es: Seq<EntryView>, source: PathView, i: int)
    requires
        0 <= i <= es.len(),
    ensures
        i <= place(es, source, i) <= es.len(),
        place(es, source, i) < es.len() ==> es[place(es, source, i)].source == source,
        forall|k: int| i <= k < place(es, source, i) ==> (#[trigger] es[k]).source != source,
    decreases es.len() - i,
{
    if i < es.len() && es[i].source != source {
        lemma_place(es, source, i + 1);
    }
}

proof fn lemma_place_is(es: Seq<EntryView>, source: PathView, i: int, j: int)
    requires
        0 <= i <= j <= es.len(),
        j < es.len() ==> es[j].source == source,
        forall|k: int| i <= k < j ==> (#[trigger] es[k]).source != source,
    ensures
        place(es, source, i) == j,
    decreases es.len() - i,
{
    if i < j {
        lemma_place_is(es, source, i + 1, j);
    }
}

proof fn lemma_without(es: Seq<EntryView>, source: PathView)
    ensures
        forall|k: int|
            0 <= k < without(es, source).len() ==> (#[trigger] without(es, source)[k]).source
                != source && es.contains(without(es, source)[k]),
        forall|e: EntryView| es.contains(e) && e.source != source ==> #[trigger] without(
            es,
            source,
        ).contains(e),
        without(es, source).len() <= es.len(),
        without(es, source).len() == es.len() <==> place(es, source, 0) == es.len(),
    decreases es.len(),
{
    lemma_place(es, source, 0);
    if es.len() > 0 {
        let rest = es.drop_last();
        lemma_without(rest, source);
        lemma_place(rest, source, 0);
        let r = without(es, source);
        let a = without(rest, source);
        assert forall|k: int| 0 <= k < r.len() implies (#[trigger] r[k]).source != source
            && es.contains(r[k]) by {
            if k < a.len() {
                assert(r[k] == a[k]);
                let x = choose|x: int| 0 <= x < rest.len() && rest[x] == a[k];
                assert(es[x] == a[k]);
            } else {
                assert(es[es.len() - 1] == r[k]);
            }
        }
        assert forall|e: EntryView| es.contains(e) && e.source != source implies #[trigger] r.contains(
            e,
        ) by {
            let x = choose|x: int| 0 <= x < es.len() && es[x] == e;
            if x < rest.len() {
                assert(rest[x] == e);
                assert(a.contains(e));
                let y = choose|y: int| 0 <= y < a.len() && a[y] == e;
                assert(r[y] == e);
            } else {
                assert(r[a.len() as int] == e);
            }
        }
        let p = place(es, source, 0);
        let q = place(rest, source, 0);
        if q < rest.len() {
            assert(es[q].source == source);
            assert forall|k: int| 0 <= k < q implies (#[trigger] es[k]).source != source by {
                assert(rest[k].source != source);
            }
            lemma_place_is(es, source, 0, q);
        } else {
            assert forall|k: int| 0 <= k < rest.len() implies (#[trigger] es[k]).source != source by {
                assert(rest[k].source != source);
            }
            if es.last().source == source {
                lemma_place_is(es, source, 0, es.len() - 1);
            } else {
                lemma_place_is(es, source, 0, es.len() as int);
            }
        }
    }
}

fn find_place(entries: &Vec<Entry>, source: &PathBuf) -> (r: usize)
    ensures
        r == place(entry_views(entries@), source@, 0),
        r <= entries.len(),
{
    let ghost es = entry_views(entries@);
    let mut i: usize = 0;
    while i < entries.len() && !entries[i].source.same(source)
        invariant
            0 <= i <= entries.len(),
            es == entry_views(entries@),
            place(es, source@, 0) == place(es, source@, i as int),
        decreases entries.len() - i,
    {
        assert(es[i as int].source != source@);
        i = i + 1;
    }
    assert(i < entries.len() ==> es[i as int].source == source@);
    i
}

fn drop_source(entries: Vec<Entry>, source: &PathBuf) -> (r: Vec<Entry>)
    ensures
        entry_views(r@) == without(entry_views(entries@), source@),
{
    let ghost es = entry_views(entries@);
    let mut r: Vec<Entry> = Vec::new();
    let mut i: usize = 0;
    assert(es.take(0) =~= Seq::<EntryView>::empty());
    assert(entry_views(r@) =~= Seq::<EntryView>::empty());
    while i < entries.len()
        invariant
            0 <= i <= entries.len(),
            es == entry_views(entries@),
            entry_views(r@) == without(es.take(i as int), source@),
        decreases entries.len() - i,
    {
        assert(es.take(i + 1).drop_last() =~= es.take(i as int));
        assert(es.take(i + 1).last() == es[i as int]);
        if !entries[i].source.same(source) {
            let ghost r0 = entry_views(r@);
            r.push(entries[i].clone());
            assert(entry_views(r@) =~= r0.push(es[i as int]));
        }
        i = i + 1;
    }
    assert(es.take(i as int) =~= es);
    r
}

/// The error that there is no entry of `source`.
pub open spec fn missing(source: PathView) -> ErrorView {
    ErrorView::Ledger("台账里找不到 "@ + source.display() + " 的记录"@)
}

fn missing_error(source: &PathBuf) -> (r: Error)
    ensures
        r@ == missing(source@),
{
    let mut text = cat("台账里找不到 ", source.display().as_str());
    text.append(" 的记录");
    Error::Ledger(text)
}

/// Enters a move that is about to begin. An older entry of its source is dropped.
pub fn begin(ledger: Ledger, entry: Entry) -> (r: Ledger)
    ensures
        r@ == ledger@.begun(entry@),
{
    let Ledger { version, entries } = ledger;
    let mut entries = drop_source(entries, &entry.source);
    let ghost before = entry_views(entries@);
    entries.push(entry);
    assert(entry_views(entries@) =~= before.push(entry@));
    Ledger { version, entries }
}

/// Marks a move as done.
pub fn complete(ledger: Ledger, source: &PathBuf, done: Completion) -> (r: Result<Ledger, Error>)
    ensures
        match r {
            Ok(l) => ledger@.has(source@) && l@ == ledger@.completed(source@, done@),
            Err(e) => !ledger@.has(source@) && e@ == missing(source@),
        },
{
    let i: usize = find_place(&ledger.entries, source);
    if i >= ledger.entries.len() {
        return Err(missing_error(source));
    }
    let Ledger { version, entries } = ledger;
    let mut entries = entries;
    let ghost before = entry_views(entries@);
    let mut e = entries[i].clone();
    e.state = State::Done;
    e.bytes = done.bytes;
    e.files = done.files;
    e.dirs = done.dirs;
    e.same_volume = done.same_volume;
    e.link_kind = done.link_kind;
    assert(e@ == before[i as int].completed(done@));
    entries.set(i, e);
    assert(entry_views(entries@) =~= before.update(i as int, e@));
    Ok(Ledger { version, entries })
}

/// Drops the entries of `source`.
pub fn remove(ledger: Ledger, source: &PathBuf) -> (r: Result<Ledger, Error>)
    ensures
        match r {
            Ok(l) => ledger@.has(source@) && l@ == ledger@.removed(source@),
            Err(e) => !ledger@.has(source@) && e@ == missing(source@),
        },
{
    proof {
        lemma_without(ledger@.entries, source@);
        lemma_place(ledger@.entries, source@, 0);
    }
    let n: usize = ledger.entries.len();
    let Ledger { version, entries } = ledger;
    let entries = drop_source(entries, source);
    assert(entry_views(entries@).len() == entries.len());
    if entries.len() == n {
        return Err(missing_error(source));
    }
    Ok(Ledger { version, entries })
}

/// Looks up the entry of `source`.
pub fn find(ledger: &Ledger, source: &PathBuf) -> (r: Option<Entry>)
    ensures
        match r {
            Some(e) => ledger@.found(source@) == Some(e@),
            None => ledger@.found(source@) is None,
        },
{
    let i: usize = find_place(&ledger.entries, source);
    if i < ledger.entries.len() {
        Some(ledger.entries[i].clone())
    } else {
        None
    }
}

/// Whether no source has two entries.
pub open spec fn sources_differ(l: LedgerView) -> bool {
    forall|i: int, j: int|
        0 <= i < j < l.entries.len() ==> (#[trigger] l.entries[i]).source != (
        #[trigger] l.entries[j]).source
}

/// What was begun is found, and no longer in flight once it was completed; once
/// it was removed it is not found.
pub proof fn law_entry_life(l: LedgerView, e: EntryView, c: CompletionView)
    ensures
        l.begun(e).found(e.source) == Some(e),
        l.begun(e).completed(e.source, c).found(e.source) == Some(e.completed(c)),
        l.begun(e).removed(e.source).found(e.source) is None,
{
    lemma_without(l.entries, e.source);
    let b = l.begun(e);
    let n = without(l.entries, e.source).len() as int;
    assert(b.entries[n] == e);
    lemma_place_is(b.entries, e.source, 0, n);
    let d = b.completed(e.source, c);
    assert(d.entries[n] == e.completed(c));
    assert forall|k: int| 0 <= k < n implies (#[trigger] d.entries[k]).source != e.source by {
        assert(d.entries[k] == b.entries[k]);
    }
    lemma_place_is(d.entries, e.source, 0, n);
    lemma_without(b.entries, e.source);
    let r = b.removed(e.source);
    lemma_place_is(r.entries, e.source, 0, r.entries.len() as int);
}

/// What is done with the entry of one source leaves those of all others alone.
pub proof fn law_others_untouched(
    l: LedgerView,
    e: EntryView,
    c: CompletionView,
    other: EntryView,
)
    requires
        other.source != e.source,
    ensures
        l.entries.contains(other) <==> l.begun(e).entries.contains(other),
        l.entries.contains(other) <==> l.removed(e.source).entries.contains(other),
        l.has(e.source) ==> (l.entries.contains(other) <==> l.completed(
            e.source,
            c,
        ).entries.contains(other)),
{
    lemma_without(l.entries, e.source);
    let w = without(l.entries, e.source);
    if l.entries.contains(other) {
        assert(w.contains(other));
        let k = choose|k: int| 0 <= k < w.len() && w[k] == other;
        assert(l.begun(e).entries[k] == other);
    }
    if w.contains(other) {
        let k = choose|k: int| 0 <= k < w.len() && w[k] == other;
        assert(l.entries.contains(w[k]));
    }
    if l.begun(e).entries.contains(other) {
        let k = choose|k: int|
            0 <= k < l.begun(e).entries.len() && l.begun(e).entries[k] == other;
        assert(w[k] == other);
        assert(w.contains(other));
    }
    if l.has(e.source) {
        let i = place(l.entries, e.source, 0);
        lemma_place(l.entries, e.source, 0);
        let d = l.completed(e.source, c);
        if l.entries.contains(other) {
            let k = choose|k: int| 0 <= k < l.entries.len() && l.entries[k] == other;
            assert(d.entries[k] == other);
        }
        if d.entries.contains(other) {
            let k = choose|k: int| 0 <= k < d.entries.len() && d.entries[k] == other;
            assert(l.entries[k] == other);
        }
    }
}

/// What is in the ledger once a move was begun is that move, or was there before.
pub proof fn law_begun_keeps(l: LedgerView, e: EntryView, k: int)
    requires
        0 <= k < l.begun(e).entries.len(),
    ensures
        l.begun(e).entries[k] == e || l.entries.contains(l.begun(e).entries[k]),
{
    lemma_without(l.entries, e.source);
    let w = without(l.entries, e.source);
    if k < w.len() {
        assert(l.entries.contains(w[k]));
    }
}

/// To begin a move does not change what is found for another source.
pub proof fn law_begun_leaves_others(l: LedgerView, e: EntryView, other: PathView)
    requires
        other != e.source,
    ensures
        l.begun(e).found(other) == l.found(other),
{
    let b = l.begun(e);
    let w = without(l.entries, e.source);
    lemma_without_found(l.entries, e.source, other);
    lemma_place(w, other, 0);
    lemma_place(l.entries, other, 0);
    let i = place(w, other, 0);
    assert forall|k: int| 0 <= k < i implies (#[trigger] b.entries[k]).source != other by {
        assert(b.entries[k] == w[k]);
    }
    if i < w.len() {
        lemma_place_is(b.entries, other, 0, i);
    } else {
        assert forall|k: int| 0 <= k < b.entries.len() implies (#[trigger] b.entries[k]).source
            != other by {
            if k < w.len() {
                assert(b.entries[k] == w[k]);
            }
        }
        lemma_place_is(b.entries, other, 0, b.entries.len() as int);
    }
}

proof fn lemma_without_found(es: Seq<EntryView>, source: PathView, other: PathView)
    requires
        other != source,
    ensures
        place(es, other, 0) < es.len() <==> place(without(es, source), other, 0) < without(
            es,
            source,
        ).len(),
        place(es, other, 0) < es.len() ==> es[place(es, other, 0)] == without(es, source)[place(
            without(es, source),
            other,
            0,
        )],
    decreases es.len(),
{
    if es.len() > 0 {
        let rest = es.drop_last();
        let w = without(rest, source);
        let x = es.last();
        lemma_without_found(rest, source, other);
        lemma_place_push(rest, x, other);
        lemma_place(rest, other, 0);
        lemma_place(w, other, 0);
        assert(rest.push(x) =~= es);
        if x.source != source {
            lemma_place_push(w, x, other);
        }
    }
}

proof fn lemma_place_push(es: Seq<EntryView>, x: EntryView, source: PathView)
    ensures
        place(es.push(x), source, 0) == if place(es, source, 0) < es.len() {
            place(es, source, 0)
        } else if x.source == source {
            es.len() as int
        } else {
            es.len() as int + 1
        },
{
    lemma_place(es, source, 0);
    let i = place(es, source, 0);
    let all = es.push(x);
    assert forall|k: int| 0 <= k < i implies (#[trigger] all[k]).source != source by {
        assert(all[k] == es[k]);
    }
    if i < es.len() {
        lemma_place_is(all, source, 0, i);
    } else if x.source == source {
        lemma_place_is(all, source, 0, es.len() as int);
    } else {
        assert forall|k: int| 0 <= k < all.len() implies (#[trigger] all[k]).source != source by {
            if k < es.len() {
                assert(all[k] == es[k]);
            }
        }
        lemma_place_is(all, source, 0, all.len() as int);
    }
}

proof fn lemma_without_differ(es: Seq<EntryView>, source: PathView)
    requires
        forall|i: int, j: int|
            0 <= i < j < es.len() ==> (#[trigger] es[i]).source != (#[trigger] es[j]).source,
    ensures
        forall|i: int, j: int|
            0 <= i < j < without(es, source).len() ==> (#[trigger] without(es, source)[i]).source
                != (#[trigger] without(es, source)[j]).source,
    decreases es.len(),
{
    if es.len() > 0 {
        let rest = es.drop_last();
        lemma_without_differ(rest, source);
        lemma_without(rest, source);
        let a = without(rest, source);
        let r = without(es, source);
        assert forall|i: int, j: int| 0 <= i < j < r.len() implies (#[trigger] r[i]).source != (
        #[trigger] r[j]).source by {
            if j < a.len() {
                assert(a[i].source != a[j].source);
            } else {
                assert(r[i] == a[i]);
                let x = choose|x: int| 0 <= x < rest.len() && rest[x] == a[i];
                assert(es[x].source != es[es.len() - 1].source);
            }
        }
    }
}

/// No source ever gets two entries.
pub proof fn law_sources_differ(l: LedgerView, e: EntryView, c: CompletionView)
    requires
        sources_differ(l),
    ensures
        sources_differ(l.begun(e)),
        sources_differ(l.removed(e.source)),
        l.has(e.source) ==> sources_differ(l.completed(e.source, c)),
{
    lemma_without_differ(l.entries, e.source);
    lemma_without(l.entries, e.source);
    let w = without(l.entries, e.source);
    assert(sources_differ(l.begun(e))) by {
        let b = l.begun(e).entries;
        assert forall|i: int, j: int| 0 <= i < j < b.len() implies (#[trigger] b[i]).source != (
        #[trigger] b[j]).source by {
            if j < w.len() {
                assert(w[i].source != w[j].source);
            } else {
                assert(w[i].source != e.source);
            }
        }
    }
    if l.has(e.source) {
        lemma_place(l.entries, e.source, 0);
        let d = l.completed(e.source, c).entries;
        assert forall|i: int, j: int| 0 <= i < j < d.len() implies (#[trigger] d[i]).source != (
        #[trigger] d[j]).source by {
            assert(d[i].source == l.entries[i].source);
            assert(d[j].source == l.entries[j].source);
        }
    }
}

/// The ledger's place below a directory of the program's own.
pub open spec fn ledger_in(dir: PathView) -> PathView {
    dir.child(vstd::utf8::encode_utf8("ledger.json"@))
}

/// The ledger's place: where the environment says, or else in the home directory.
pub open spec fn ledger_place(
    style: Style,
    env: Option<Seq<u8>>,
    home: Option<PathView>,
) -> Result<PathView, ErrorView> {
    match env {
        Some(dir) => Ok(ledger_in(crate::path::parsed(style, dir))),
        None => match home {
            Some(h) => Ok(ledger_in(h.child(vstd::utf8::encode_utf8(".cshell"@)))),
            None => Err(ErrorView::Ledger("找不到用户主目录"@)),
        },
    }
}

/// The contents of the value of a variable.
pub open spec fn opt_bytes(b: Option<Vec<u8>>) -> Option<Seq<u8>> {
    match b {
        Some(b) => Some(b@),
        None => None,
    }
}

/// The ledger's place, when the home directory is known or known to be unknown.
pub fn ledger_path_from(style: Style, env: &Option<Vec<u8>>, home: &Option<PathBuf>) -> (r: Result<
    PathBuf,
    Error,
>)
    ensures
        match r {
            Ok(p) => ledger_place(style, opt_bytes(*env), opt_path(*home)) == Ok::<
                PathView,
                ErrorView,
            >(p@),
            Err(e) => ledger_place(style, opt_bytes(*env), opt_path(*home)) == Err::<
                PathView,
                ErrorView,
            >(e@),
        },
{
    match env {
        Some(dir) => Ok(PathBuf::parse(style, dir).child("ledger.json".as_bytes())),
        None => match home {
            Some(h) => Ok(h.child(".cshell".as_bytes()).child("ledger.json".as_bytes())),
            None => Err(Error::Ledger("找不到用户主目录".to_owned())),
        },
    }
}

/// The ledger's place. `env` is the value of `CSHELL_HOME`, where it is set; the
/// home directory is only asked for where it is not.
pub fn ledger_path(style: Style, env: &Option<Vec<u8>>) -> (r: Result<PathBuf, Error>)
    ensures
        match r {
            Ok(p) => exists|home: Option<PathView>|
                #[trigger] ledger_place(style, opt_bytes(*env), home) == Ok::<PathView, ErrorView>(
                    p@,
                ),
            Err(e) => env is None && e@ == ErrorView::Ledger("找不到用户主目录"@),
        },
{
    let home = match env {
        Some(_) => None,
        None => home_dir(style),
    };
    let r = ledger_path_from(style, env, &home);
    assert(ledger_place(style, opt_bytes(*env), opt_path(home)) == ledger_place(
        style,
        opt_bytes(*env),
        opt_path(home),
    ));
    r
}

/// What reading the ledger's file gave.
#[derive(Debug, PartialEq, Eq)]
pub enum ReadOutcome {
    Parsed(Ledger),
    /// There is something, but no ledger. The text says why.
    Malformed(String),
    Failed(IoFault),
}

/// The contents of a [`ReadOutcome`].
pub enum ReadView {
    Parsed(LedgerView),
    Malformed(Seq<char>),
    Failed(FaultView),
}

impl View for ReadOutcome {
    type V = ReadView;

    open spec fn view(&self) -> ReadView {
        match *self {
            ReadOutcome::Parsed(l) => ReadView::Parsed(l@),
            ReadOutcome::Malformed(t) => ReadView::Malformed(t@),
            ReadOutcome::Failed(e) => ReadView::Failed(e@),
        }
    }
}

/// The ledger with all paths in the form to be kept. Older versions wrote others.
pub open spec fn plained(l: LedgerView) -> LedgerView {
    LedgerView { entries: Seq::new(l.entries.len(), |i: int| l.entries[i].plained()), ..l }
}

/// The ledger that was read. That there is no file means that nothing was moved
/// yet.
pub open spec fn loaded(path: PathView, read: ReadView) -> Result<LedgerView, ErrorView> {
    match read {
        ReadView::Parsed(l) => Ok(plained(l)),
        ReadView::Malformed(why) => Err(
            ErrorView::Ledger(
                "台账 "@ + path.display() + " 解析失败: "@ + why
                    + "。文件可能已损坏，可手动检查或删除。"@,
            ),
        ),
        ReadView::Failed(e) => if e.kind == FaultKind::NotFound {
            Ok(LedgerView { version: 1, entries: Seq::empty() })
        } else {
            Err(ErrorView::Io { path: Some(path), source: e })
        },
    }
}

fn migrate_verbatim_paths(ledger: Ledger) -> (r: Ledger)
    ensures
        r@ == plained(ledger@),
{
    let Ledger { version, entries } = ledger;
    let ghost es = entry_views(entries@);
    let mut out: Vec<Entry> = Vec::new();
    let mut i: usize = 0;
    while i < entries.len()
        invariant
            0 <= i <= entries.len(),
            es == entry_views(entries@),
            out.len() == i,
            forall|k: int| 0 <= k < i ==> (#[trigger] out@[k])@ == es[k].plained(),
        decreases entries.len() - i,
    {
        let mut e = entries[i].clone();
        e.source = strip_verbatim(&e.source);
        e.target = strip_verbatim(&e.target);
        e.original_real_path = match &e.original_real_path {
            Some(p) => Some(strip_verbatim(p)),
            None => None,
        };
        assert(e@ == es[i as int].plained());
        out.push(e);
        i = i + 1;
    }
    assert(entry_views(out@) =~= plained(LedgerView { version, entries: es }).entries);
    Ledger { version, entries: out }
}

/// The ledger, by what reading its file gave.
pub fn load(path: &PathBuf, read: ReadOutcome) -> (r: Result<Ledger, Error>)
    ensures
        match r {
            Ok(l) => loaded(path@, read@) == Ok::<LedgerView, ErrorView>(l@),
            Err(e) => loaded(path@, read@) == Err::<LedgerView, ErrorView>(e@),
        },
{
    match read {
        ReadOutcome::Parsed(l) => Ok(migrate_verbatim_paths(l)),
        ReadOutcome::Malformed(why) => {
            let mut text = cat("台账 ", path.display().as_str());
            text.append(" 解析失败: ");
            text.append(why.as_str());
            text.append("。文件可能已损坏，可手动检查或删除。");
            Err(Error::Ledger(text))
        },
        ReadOutcome::Failed(e) => {
            if e.kind == FaultKind::NotFound {
                let r = Ledger { version: 1, entries: Vec::new() };
                assert(r@.entries =~= Seq::<EntryView>::empty());
                Ok(r)
            } else {
                Err(Error::io(path.clone(), e))
            }
        },
    }
}

/// One thing to do with the ledger's file.
#[derive(Debug, PartialEq, Eq)]
pub enum LedgerAction {
    /// Make a directory and all above it.
    MakeDirs { at: PathBuf },
    /// Open the file that is locked, and make it where it is not there.
    Open { at: PathBuf },
    /// Wait for the lock.
    Lock,
    Read { at: PathBuf },
    /// Write the ledger to a new file.
    Write { at: PathBuf },
    /// Rename over what is there, in one go.
    Replace { from: PathBuf, to: PathBuf },
    RemoveFile { at: PathBuf },
    Unlock,
}

/// The contents of a [`LedgerAction`].
pub enum LedgerActionView {
    MakeDirs { at: PathView },
    Open { at: PathView },
    Lock,
    Read { at: PathView },
    Write { at: PathView },
    Replace { from: PathView, to: PathView },
    RemoveFile { at: PathView },
    Unlock,
}

impl View for LedgerAction {
    type V = LedgerActionView;

    open spec fn view(&self) -> LedgerActionView {
        match *self {
            LedgerAction::MakeDirs { at } => LedgerActionView::MakeDirs { at: at@ },
            LedgerAction::Open { at } => LedgerActionView::Open { at: at@ },
            LedgerAction::Lock => LedgerActionView::Lock,
            LedgerAction::Read { at } => LedgerActionView::Read { at: at@ },
            LedgerAction::Write { at } => LedgerActionView::Write { at: at@ },
            LedgerAction::Replace { from, to } => LedgerActionView::Replace {
                from: from@,
                to: to@,
            },
            LedgerAction::RemoveFile { at } => LedgerActionView::RemoveFile { at: at@ },
            LedgerAction::Unlock => LedgerActionView::Unlock,
        }
    }
}

/// What came of writing the ledger.
#[derive(Debug, PartialEq, Eq)]
pub enum WriteOutcome {
    Written,
    /// It could not be put into words. The text says why.
    Unwritable(String),
    Failed(IoFault),
}

/// What came of something done with the ledger's file.
#[derive(Debug, PartialEq, Eq)]
pub enum LedgerEvent {
    Tried(Option<IoFault>),
    Read(ReadOutcome),
    Wrote(WriteOutcome),
}

/// How far writing the ledger has got.
#[derive(Debug, PartialEq, Eq)]
pub enum SaveState {
    /// The directory is to be made.
    Dir,
    /// The ledger is to be written beside its place.
    Write,
    /// It is to take its place.
    Replace,
    /// What was written is to be removed.
    Drop(IoFault),
    Over(Option<Error>),
}

/// The contents of a [`SaveState`].
pub enum SaveView {
    Dir,
    Write,
    Replace,
    Drop(FaultView),
    Over(Option<ErrorView>),
}

/// The contents of an error that there need not be.
pub open spec fn opt_error(e: Option<Error>) -> Option<ErrorView> {
    match e {
        Some(e) => Some(e@),
        None => None,
    }
}

impl View for SaveState {
    type V = SaveView;

    open spec fn view(&self) -> SaveView {
        match *self {
            SaveState::Dir => SaveView::Dir,
            SaveState::Write => SaveView::Write,
            SaveState::Replace => SaveView::Replace,
            SaveState::Drop(e) => SaveView::Drop(e@),
            SaveState::Over(e) => SaveView::Over(opt_error(e)),
        }
    }
}

/// The writing of the ledger.
#[derive(Debug, PartialEq, Eq)]
pub struct SaveRun {
    pub path: PathBuf,
    /// Where it is written at first.
    pub tmp: PathBuf,
    pub state: SaveState,
}

/// Where the ledger is written at first.
pub open spec fn tmp_place(path: PathView, pid: u32) -> PathView {
    path.with_extension(vstd::utf8::encode_utf8("json.tmp-"@ + dec(pid as int)))
}

/// Begins to write the ledger: to a file beside its place, which then takes its
/// place in one go, so that there is never half a ledger.
pub fn save(path: PathBuf, pid: u32) -> (r: SaveRun)
    ensures
        r.path == path,
        r.tmp@ == tmp_place(path@, pid),
        path@.file_name() is Some ==> r.tmp@ != r.path@,
        r.state@ == match path@.parent() {
            Some(_) => SaveView::Dir,
            None => SaveView::Write,
        },
{
    proof {
        if path@.file_name() is Some {
            law_written_beside(path@, pid);
        }
    }
    let ext = cat("json.tmp-", show(pid as u64).as_str());
    let tmp = path.with_extension(ext.as_str().as_bytes());
    let state = match path.parent() {
        Some(_) => SaveState::Dir,
        None => SaveState::Write,
    };
    SaveRun { path, tmp, state }
}

impl SaveRun {
    /// The directory that the ledger is in.
    pub open spec fn dir(self) -> PathView {
        match self.path@.parent() {
            Some(p) => p,
            None => self.path@,
        }
    }

    /// What is to be done next.
    pub open spec fn wants(self) -> Option<LedgerActionView> {
        match self.state {
            SaveState::Dir => Some(LedgerActionView::MakeDirs { at: self.dir() }),
            SaveState::Write => Some(LedgerActionView::Write { at: self.tmp@ }),
            SaveState::Replace => Some(
                LedgerActionView::Replace { from: self.tmp@, to: self.path@ },
            ),
            SaveState::Drop(_) => Some(LedgerActionView::RemoveFile { at: self.tmp@ }),
            SaveState::Over(_) => None,
        }
    }

    fn dir_path(&self) -> (r: PathBuf)
        ensures
            r@ == self.dir(),
    {
        match self.path.parent() {
            Some(p) => p,
            None => self.path.clone(),
        }
    }

    /// What is to be done next.
    pub fn action(&self) -> (r: Option<LedgerAction>)
        ensures
            match r {
                Some(a) => self.wants() == Some(a@),
                None => self.wants() is None,
            },
    {
        match &self.state {
            SaveState::Dir => Some(LedgerAction::MakeDirs { at: self.dir_path() }),
            SaveState::Write => Some(LedgerAction::Write { at: self.tmp.clone() }),
            SaveState::Replace => Some(
                LedgerAction::Replace { from: self.tmp.clone(), to: self.path.clone() },
            ),
            SaveState::Drop(_) => Some(LedgerAction::RemoveFile { at: self.tmp.clone() }),
            SaveState::Over(_) => None,
        }
    }

    /// The state behind this one once `event` came. An event that does not fit is
    /// ignored.
    pub open spec fn after(self, event: LedgerEvent) -> SaveView {
        match (self.state, event) {
            (SaveState::Dir, LedgerEvent::Tried(f)) => match f {
                None => SaveView::Write,
                Some(e) => SaveView::Over(
                    Some(ErrorView::Io { path: Some(self.dir()), source: e@ }),
                ),
            },
            (SaveState::Write, LedgerEvent::Wrote(w)) => match w {
                WriteOutcome::Written => SaveView::Replace,
                WriteOutcome::Unwritable(why) => SaveView::Over(
                    Some(ErrorView::Ledger("台账序列化失败: "@ + why@)),
                ),
                WriteOutcome::Failed(e) => SaveView::Over(
                    Some(ErrorView::Io { path: Some(self.tmp@), source: e@ }),
                ),
            },
            (SaveState::Replace, LedgerEvent::Tried(f)) => match f {
                None => SaveView::Over(None),
                Some(e) => SaveView::Drop(e@),
            },
            (SaveState::Drop(e), LedgerEvent::Tried(_)) => SaveView::Over(
                Some(ErrorView::Io { path: Some(self.path@), source: e@ }),
            ),
            _ => self.state@,
        }
    }

    /// Goes on once what was to be done was tried.
    pub fn step(self, event: LedgerEvent) -> (r: SaveRun)
        ensures
            r.path == self.path,
            r.tmp == self.tmp,
            r.state@ == self.after(event),
    {
        let dir = self.dir_path();
        let SaveRun { path, tmp, state } = self;
        let state = match (state, event) {
            (SaveState::Dir, LedgerEvent::Tried(f)) => match f {
                None => SaveState::Write,
                Some(e) => SaveState::Over(Some(Error::io(dir, e))),
            },
            (SaveState::Write, LedgerEvent::Wrote(w)) => match w {
                WriteOutcome::Written => SaveState::Replace,
                WriteOutcome::Unwritable(why) => SaveState::Over(
                    Some(Error::Ledger(cat("台账序列化失败: ", why.as_str()))),
                ),
                WriteOutcome::Failed(e) => SaveState::Over(Some(Error::io(tmp.clone(), e))),
            },
            (SaveState::Replace, LedgerEvent::Tried(f)) => match f {
                None => SaveState::Over(None),
                Some(e) => SaveState::Drop(e),
            },
            (SaveState::Drop(e), LedgerEvent::Tried(_)) => SaveState::Over(
                Some(Error::io(path.clone(), e)),
            ),
            (state, _) => state,
        };
        SaveRun { path, tmp, state }
    }
}

/// The ledger's file is only ever replaced by one that was written whole, and
/// writing says that it went well just where that was done.
pub proof fn law_save_is_whole(run: SaveRun, event: LedgerEvent)
    ensures
        run.after(event) is Replace && !(run.state is Replace) ==> run.state is Write && event
            == LedgerEvent::Wrote(WriteOutcome::Written),
        run.after(event) == SaveView::Over(None) && !(run.state is Over) ==> run.state is Replace
            && event == LedgerEvent::Tried(None),
        run.wants() matches Some(LedgerActionView::Write { at }) ==> at == run.tmp@,
{
}

/// The ledger is written beside its place, never into it, wherever it is.
pub proof fn law_written_beside(path: PathView, pid: u32)
    requires
        path.file_name() is Some,
    ensures
        tmp_place(path, pid) != path,
        tmp_place(path, pid).parent() == path.parent(),
{
    let name = path.file_name()->0;
    let text = "json.tmp-"@ + dec(pid as int);
    let extension = vstd::utf8::encode_utf8(text);
    reveal_strlit("json.tmp-");
    let head = text.take(4);
    let tail = text.skip(5);
    assert(text =~= head + (seq!['.'] + tail));
    lemma_encode_concat(head, seq!['.'] + tail);
    lemma_encode_concat(seq!['.'], tail);
    vstd::utf8::is_ascii_chars_encode_utf8(seq!['.']);
    let k = vstd::utf8::encode_utf8(head).len() as int;
    assert(vstd::utf8::encode_utf8(seq!['.'])[0] == 46);
    assert(extension[k] == 46);
    law_renamed_differs(name, extension, k);
    assert(tmp_place(path, pid).parts.last() == renamed(name, extension));
    assert(tmp_place(path, pid).parts.drop_last() =~= path.parts.drop_last());
}

/// What is in a file: a ledger, or what is left of an attempt to write one.
pub enum Sheet {
    Whole(LedgerView),
    Torn,
}

/// Whether `after` may be in the files once what writing the ledger `l` asks for was
/// tried. Writing that did not go well leaves anything where it wrote; the other steps do
/// what they are for, or nothing.
pub open spec fn sheets_after(
    sheets: Map<PathView, Sheet>,
    l: LedgerView,
    action: LedgerActionView,
    event: LedgerEvent,
    after: Map<PathView, Sheet>,
) -> bool {
    match action {
        LedgerActionView::Write { at } => {
            &&& after.remove(at) == sheets.remove(at)
            &&& event == LedgerEvent::Wrote(WriteOutcome::Written) ==> after == sheets.insert(
                at,
                Sheet::Whole(l),
            )
        },
        LedgerActionView::Replace { from, to } => after == if event == LedgerEvent::Tried(None) {
            sheets.remove(from).insert(to, sheets[from])
        } else {
            sheets
        },
        LedgerActionView::RemoveFile { at } => after == if event == LedgerEvent::Tried(None) {
            sheets.remove(at)
        } else {
            sheets
        },
        _ => after == sheets,
    }
}

/// Whether two states of the files agree at a place.
pub open spec fn same_at(
    a: Map<PathView, Sheet>,
    b: Map<PathView, Sheet>,
    p: PathView,
) -> bool {
    (a.dom().contains(p) <==> b.dom().contains(p)) && (a.dom().contains(p) ==> a[p] == b[p])
}

/// Whatever comes of the steps of writing a ledger, and wherever it stops: at the ledger's
/// place is what was there before, or the new ledger, whole. It is the new one just where
/// writing went well; where it failed it is the old one. Nothing else is touched but what
/// is beside it.
pub proof fn law_every_save(
    l: LedgerView,
    runs: Seq<SaveRun>,
    events: Seq<LedgerEvent>,
    sheets: Seq<Map<PathView, Sheet>>,
)
    requires
        runs.len() == events.len() + 1,
        sheets.len() == events.len() + 1,
        runs[0].state is Dir || runs[0].state is Write,
        runs[0].tmp@ != runs[0].path@,
        forall|i: int|
            #![trigger events[i]]
            0 <= i < events.len() ==> {
                &&& runs[i + 1].path == runs[i].path
                &&& runs[i + 1].tmp == runs[i].tmp
                &&& runs[i + 1].state@ == runs[i].after(events[i])
                &&& runs[i].wants() matches Some(a) && sheets_after(
                    sheets[i],
                    l,
                    a,
                    events[i],
                    sheets[i + 1],
                )
            },
    ensures
        ({
            let end = runs.last();
            let place = runs[0].path@;
            let now = sheets.last();
            &&& end.path == runs[0].path
            &&& end.tmp == runs[0].tmp
            &&& end.state@ == SaveView::Over(None) ==> now.dom().contains(place) && now[place]
                == Sheet::Whole(l)
            &&& end.state@ != SaveView::Over(None) ==> same_at(now, sheets[0], place)
            &&& end.state is Replace ==> now.dom().contains(runs[0].tmp@) && now[runs[0].tmp@]
                == Sheet::Whole(l)
            &&& forall|p: PathView|
                p != place && p != runs[0].tmp@ ==> #[trigger] same_at(now, sheets[0], p)
        }),
    decreases events.len(),
{
    if events.len() > 0 {
        let n = events.len() - 1;
        let r = runs.drop_last();
        let e = events.drop_last();
        let s = sheets.drop_last();
        assert forall|i: int| #![trigger e[i]] 0 <= i < e.len() implies {
            &&& r[i + 1].path == r[i].path
            &&& r[i + 1].tmp == r[i].tmp
            &&& r[i + 1].state@ == r[i].after(e[i])
            &&& r[i].wants() matches Some(a) && sheets_after(s[i], l, a, e[i], s[i + 1])
        } by {
            assert(e[i] == events[i]);
        }
        law_every_save(l, r, e, s);
        assert(events[n] == events.last());
        assert(r.last() == runs[n] && s.last() == sheets[n]);
        let place = runs[0].path@;
        let tmp = runs[0].tmp@;
        let before = sheets[n];
        let now = sheets[n + 1];
        let a = runs[n].wants()->0;
        assert(sheets_after(before, l, a, events[n], now));
        assert forall|p: PathView| p != tmp && (p != place || !(a is Replace && events[n]
            == LedgerEvent::Tried(None))) implies #[trigger] same_at(now, before, p) by {
            if let LedgerActionView::Write { at } = a {
                assert(now.remove(at).dom().contains(p) <==> before.remove(at).dom().contains(p));
                assert(now.dom().contains(p) ==> now.remove(at)[p] == now[p]);
                assert(before.dom().contains(p) ==> before.remove(at)[p] == before[p]);
            }
        }
        assert forall|p: PathView| p != place && p != tmp implies #[trigger] same_at(
            now,
            sheets[0],
            p,
        ) by {
            assert(same_at(before, sheets[0], p));
            assert(same_at(now, before, p));
        }
        if !(a is Replace && events[n] == LedgerEvent::Tried(None)) {
            assert(same_at(now, before, place));
        }
    }
}

/// What is to be changed in the ledger.
#[derive(Debug, PartialEq, Eq)]
pub enum Change {
    Begin(Entry),
    Complete(PathBuf, Completion),
    Remove(PathBuf),
}

/// The ledger once it was changed.
pub open spec fn changed(l: LedgerView, c: Change) -> Result<LedgerView, ErrorView> {
    match c {
        Change::Begin(e) => Ok(l.begun(e@)),
        Change::Complete(source, done) => if l.has(source@) {
            Ok(l.completed(source@, done@))
        } else {
            Err(missing(source@))
        },
        Change::Remove(source) => if l.has(source@) {
            Ok(l.removed(source@))
        } else {
            Err(missing(source@))
        },
    }
}

/// Changes the ledger.
pub fn apply(ledger: Ledger, change: Change) -> (r: Result<Ledger, Error>)
    ensures
        match r {
            Ok(l) => changed(ledger@, change) == Ok::<LedgerView, ErrorView>(l@),
            Err(e) => changed(ledger@, change) == Err::<LedgerView, ErrorView>(e@),
        },
{
    match change {
        Change::Begin(e) => Ok(begin(ledger, e)),
        Change::Complete(source, done) => complete(ledger, &source, done),
        Change::Remove(source) => remove(ledger, &source),
    }
}

/// How far a change of the ledger has got.
#[derive(Debug, PartialEq, Eq)]
pub enum UpdateState {
    /// The directory is to be made.
    Dir(Change),
    /// The file that is locked is to be opened.
    Open(Change),
    /// It is to be locked.
    Lock(Change),
    /// The ledger is to be read.
    Read(Change),
    /// The ledger is to be written.
    Save(Ledger, SaveRun),
    /// The lock is to be given up.
    Unlock(Option<Error>),
    Over(Option<Error>),
}

/// A change of the ledger.
///
/// It is read, changed and written under a lock, so that no two changes can undo
/// one another. What is locked is a file of its own: the ledger's own file is
/// replaced every time.
#[derive(Debug, PartialEq, Eq)]
pub struct UpdateRun {
    pub path: PathBuf,
    pub lock: PathBuf,
    pub pid: u32,
    pub state: UpdateState,
}

/// The file that is locked.
pub open spec fn lock_place(path: PathView) -> PathView {
    path.with_extension(vstd::utf8::encode_utf8("lock"@))
}

/// Begins to change the ledger.
pub fn with_lock(path: PathBuf, pid: u32, change: Change) -> (r: UpdateRun)
    ensures
        r.path == path,
        r.lock@ == lock_place(path@),
        r.pid == pid,
        r.state == match path@.parent() {
            Some(_) => UpdateState::Dir(change),
            None => UpdateState::Open(change),
        },
{
    let lock = path.with_extension("lock".as_bytes());
    let state = match path.parent() {
        Some(_) => UpdateState::Dir(change),
        None => UpdateState::Open(change),
    };
    UpdateRun { path, lock, pid, state }
}

impl UpdateRun {
    /// The directory that the ledger is in.
    pub open spec fn dir(self) -> PathView {
        match self.path@.parent() {
            Some(p) => p,
            None => self.path@,
        }
    }

    /// Whether the lock is held.
    pub open spec fn locked(self) -> bool {
        self.state is Read || self.state is Save || self.state is Unlock
    }

    /// What is to be done next.
    pub open spec fn wants(self) -> Option<LedgerActionView> {
        match self.state {
            UpdateState::Dir(_) => Some(LedgerActionView::MakeDirs { at: self.dir() }),
            UpdateState::Open(_) => Some(LedgerActionView::Open { at: self.lock@ }),
            UpdateState::Lock(_) => Some(LedgerActionView::Lock),
            UpdateState::Read(_) => Some(LedgerActionView::Read { at: self.path@ }),
            UpdateState::Save(_, run) => run.wants(),
            UpdateState::Unlock(_) => Some(LedgerActionView::Unlock),
            UpdateState::Over(_) => None,
        }
    }

    fn dir_path(&self) -> (r: PathBuf)
        ensures
            r@ == self.dir(),
    {
        match self.path.parent() {
            Some(p) => p,
            None => self.path.clone(),
        }
    }

    /// What is to be done next.
    pub fn action(&self) -> (r: Option<LedgerAction>)
        ensures
            match r {
                Some(a) => self.wants() == Some(a@),
                None => self.wants() is None,
            },
    {
        match &self.state {
            UpdateState::Dir(_) => Some(LedgerAction::MakeDirs { at: self.dir_path() }),
            UpdateState::Open(_) => Some(LedgerAction::Open { at: self.lock.clone() }),
            UpdateState::Lock(_) => Some(LedgerAction::Lock),
            UpdateState::Read(_) => Some(LedgerAction::Read { at: self.path.clone() }),
            UpdateState::Save(_, run) => run.action(),
            UpdateState::Unlock(_) => Some(LedgerAction::Unlock),
            UpdateState::Over(_) => None,
        }
    }

    /// Whether `next` is the state behind this one once `event` came. An event
    /// that does not fit is ignored.
    pub open spec fn leads_to(self, event: LedgerEvent, next: UpdateState) -> bool {
        match (self.state, event) {
            (UpdateState::Dir(c), LedgerEvent::Tried(f)) => match f {
                None => next == UpdateState::Open(c),
                Some(e) => next matches UpdateState::Over(Some(x)) && x@ == (ErrorView::Io {
                    path: Some(self.dir()),
                    source: e@,
                }),
            },
            (UpdateState::Open(c), LedgerEvent::Tried(f)) => match f {
                None => next == UpdateState::Lock(c),
                Some(e) => next matches UpdateState::Over(Some(x)) && x@ == (ErrorView::Io {
                    path: Some(self.lock@),
                    source: e@,
                }),
            },
            (UpdateState::Lock(c), LedgerEvent::Tried(f)) => match f {
                None => next == UpdateState::Read(c),
                Some(e) => next matches UpdateState::Over(Some(x)) && x@ == (ErrorView::Io {
                    path: Some(self.lock@),
                    source: e@,
                }),
            },
            (UpdateState::Read(c), LedgerEvent::Read(read)) => match loaded(self.path@, read@) {
                Err(e) => next matches UpdateState::Unlock(Some(x)) && x@ == e,
                Ok(l) => match changed(l, c) {
                    Err(e) => next matches UpdateState::Unlock(Some(x)) && x@ == e,
                    Ok(l2) => next matches UpdateState::Save(l3, run) && l3@ == l2 && run.path@
                        == self.path@ && run.tmp@ == tmp_place(self.path@, self.pid) && run.state@
                        == match self.path@.parent() {
                        Some(_) => SaveView::Dir,
                        None => SaveView::Write,
                    },
                },
            },
            (UpdateState::Save(l, run), event) => match run.after(event) {
                SaveView::Over(None) => next == UpdateState::Unlock(None),
                SaveView::Over(Some(e)) => next matches UpdateState::Unlock(Some(x)) && x@ == e,
                s => next matches UpdateState::Save(l2, more) && l2 == l && more.path == run.path
                    && more.tmp == run.tmp && more.state@ == s,
            },
            (UpdateState::Unlock(e), LedgerEvent::Tried(_)) => next == UpdateState::Over(e),
            _ => next == self.state,
        }
    }

    /// Goes on once what was to be done was tried.
    pub fn step(self, event: LedgerEvent) -> (r: UpdateRun)
        ensures
            r.path == self.path,
            r.lock == self.lock,
            r.pid == self.pid,
            self.leads_to(event, r.state),
    {
        let dir = self.dir_path();
        let UpdateRun { path, lock, pid, state } = self;
        let state = match (state, event) {
            (UpdateState::Dir(c), LedgerEvent::Tried(f)) => match f {
                None => UpdateState::Open(c),
                Some(e) => UpdateState::Over(Some(Error::io(dir, e))),
            },
            (UpdateState::Open(c), LedgerEvent::Tried(f)) => match f {
                None => UpdateState::Lock(c),
                Some(e) => UpdateState::Over(Some(Error::io(lock.clone(), e))),
            },
            (UpdateState::Lock(c), LedgerEvent::Tried(f)) => match f {
                None => UpdateState::Read(c),
                Some(e) => UpdateState::Over(Some(Error::io(lock.clone(), e))),
            },
            (UpdateState::Read(c), LedgerEvent::Read(read)) => match load(&path, read) {
                Err(e) => UpdateState::Unlock(Some(e)),
                Ok(l) => match apply(l, c) {
                    Err(e) => UpdateState::Unlock(Some(e)),
                    Ok(l2) => {
                        let run = save(path.clone(), pid);
                        UpdateState::Save(l2, run)
                    },
                },
            },
            (UpdateState::Save(l, run), event) => {
                let more = run.step(event);
                match more.state {
                    SaveState::Over(e) => UpdateState::Unlock(e),
                    _ => UpdateState::Save(l, more),
                }
            },
            (UpdateState::Unlock(e), LedgerEvent::Tried(_)) => UpdateState::Over(e),
            (state, _) => state,
        };
        UpdateRun { path, lock, pid, state }
    }
}

/// The ledger is read and replaced only under the lock, the lock is only held
/// once it was got, and it is given up before the change is over.
pub proof fn law_changes_under_lock(run: UpdateRun, event: LedgerEvent, next: UpdateRun)
    requires
        run.leads_to(event, next.state),
    ensures
        run.wants() matches Some(a) ==> (a is Read || a is Write || a is Replace ==> run.locked()),
        next.locked() && !run.locked() ==> run.state is Lock && event == LedgerEvent::Tried(None),
        run.locked() && next.state is Over ==> run.state is Unlock,
{
}

/// Whether the error that a change of the ledger has come to, if any, says nothing
/// of data that was moved.
pub open spec fn early_error(s: UpdateState) -> bool {
    match s {
        UpdateState::Unlock(Some(e)) => e@.exit_code() != 3,
        UpdateState::Over(Some(e)) => e@.exit_code() != 3,
        UpdateState::Save(_, run) => !(run.state is Over),
        _ => true,
    }
}

/// An error of the ledger is never one that says that work stopped half way.
pub proof fn law_ledger_errors_are_early(run: UpdateRun, event: LedgerEvent, next: UpdateRun)
    requires
        early_error(run.state),
        run.leads_to(event, next.state),
    ensures
        early_error(next.state),
{
}

/// How a moment is shown.
pub open spec fn stamp(y: int, mo: int, d: int, h: int, mi: int, s: int) -> Seq<char> {
    padded(y, 4) + "-"@ + padded(mo, 2) + "-"@ + padded(d, 2) + " "@ + padded(h, 2) + ":"@
        + padded(mi, 2) + ":"@ + padded(s, 2)
}

/// Whether a date and a time of day, in UTC, are so many seconds since the
/// beginning of 1970.
pub open spec fn is_moment(secs: int, y: int, mo: int, d: int, h: int, mi: int, s: int) -> bool {
    &&& is_date(y, mo, d)
    &&& 0 <= h < 24
    &&& 0 <= mi < 60
    &&& 0 <= s < 60
    &&& secs == 86400 * day_number(y, mo, d) + 3600 * h + 60 * mi + s
}

/// How the moment `now`, in seconds since the beginning of 1970, is shown.
pub fn now_timestamp(now: u64) -> (r: String)
    requires
        now <= i64::MAX,
    ensures
        exists|y: int, mo: int, d: int, h: int, mi: int, s: int|
            #[trigger] is_moment(now as int, y, mo, d, h, mi, s) && r@ == stamp(
                y,
                mo,
                d,
                h,
                mi,
                s,
            ),
{
    let (y, mo, d, h, mi, s) = civil_from_unix(now as i64);
    assert(is_moment(
        now as int,
        y as int,
        mo as int,
        d as int,
        h as int,
        mi as int,
        s as int,
    ));
    proof {
        crate::calendar::lemma_not_before_1970(y as int, mo as int, d as int);
    }
    let mut r = show_padded(y as u64, 4);
    r.append("-");
    r.append(show_padded(mo as u64, 2).as_str());
    r.append("-");
    r.append(show_padded(d as u64, 2).as_str());
    r.append(" ");
    r.append(show_padded(h as u64, 2).as_str());
    r.append(":");
    r.append(show_padded(mi as u64, 2).as_str());
    r.append(":");
    r.append(show_padded(s as u64, 2).as_str());
    r
}

/// The sign before an entry in the list.
pub open spec fn status(state: State, linked: bool) -> Seq<char> {
    match state {
        State::Done => if linked {
            "✓"@
        } else {
            "⚠ 链接缺失"@
        },
        State::Inflight => "⚠ 未完成"@,
    }
}

/// How an entry is listed. `linked` says whether there is a link at its source that
/// leads somewhere.
pub open spec fn listed(e: EntryView, linked: bool) -> Seq<Seq<char>> {
    let head = seq![
        "  "@ + status(e.state, linked) + "  "@ + e.source.display(),
        "      → "@ + e.target.display(),
    ];
    let was = match e.original_real_path {
        Some(p) => seq!["      （原链接指向 "@ + p.display() + "）"@],
        None => Seq::empty(),
    };
    let numbers = seq![
        "      "@ + human(e.bytes as int) + " · "@ + dec(e.files as int) + " 文件 · "@ + dec(
            e.dirs as int,
        ) + " 目录 · "@ + e.link_kind + " · "@ + e.moved_at,
    ];
    let warning = if e.state == State::Inflight {
        seq![
            "      ⚠️  上次迁移未正常结束。请检查 "@ + e.source.display() + " 与 "@
                + e.target.display() + " 两处，确认数据在哪一头。"@,
        ]
    } else {
        Seq::empty()
    };
    head + was + numbers + warning + seq![""@]
}

/// How the first `n` entries are listed.
pub open spec fn listed_all(es: Seq<EntryView>, linked: Seq<bool>, n: int) -> Seq<Seq<char>>
    decreases n,
{
    if n <= 0 {
        Seq::empty()
    } else {
        listed_all(es, linked, n - 1) + listed(es[n - 1], linked[n - 1])
    }
}

/// What is shown of the ledger.
pub open spec fn list_lines(l: LedgerView, linked: Seq<bool>) -> Seq<Seq<char>> {
    if l.entries.len() == 0 {
        seq!["台账为空 —— 还没有用 cshl 迁移过任何目录。"@]
    } else {
        seq!["共 "@ + dec(l.entries.len() as int) + " 条迁移记录：\n"@] + listed_all(
            l.entries,
            linked,
            l.entries.len() as int,
        )
    }
}

fn list_entry(lines: &mut Vec<String>, e: &Entry, linked: bool)
    ensures
        lines_view(final(lines)@) == lines_view(old(lines)@) + listed(e@, linked),
{
    let ghost start = lines_view(lines@);
    let sign = match e.state {
        State::Done => {
            if linked {
                "✓"
            } else {
                "⚠ 链接缺失"
            }
        },
        State::Inflight => "⚠ 未完成",
    };
    let mut line = cat("  ", sign);
    line.append("  ");
    line.append(e.source.display().as_str());
    push_line(lines, line);
    push_line(lines, cat("      → ", e.target.display().as_str()));
    if let Some(p) = &e.original_real_path {
        let mut line = cat("      （原链接指向 ", p.display().as_str());
        line.append("）");
        push_line(lines, line);
    }
    let mut line = cat("      ", human_bytes(e.bytes).as_str());
    line.append(" · ");
    line.append(show_size(e.files).as_str());
    line.append(" 文件 · ");
    line.append(show_size(e.dirs).as_str());
    line.append(" 目录 · ");
    line.append(e.link_kind.as_str());
    line.append(" · ");
    line.append(e.moved_at.as_str());
    push_line(lines, line);
    if e.state == State::Inflight {
        let mut line = cat("      ⚠️  上次迁移未正常结束。请检查 ", e.source.display().as_str());
        line.append(" 与 ");
        line.append(e.target.display().as_str());
        line.append(" 两处，确认数据在哪一头。");
        push_line(lines, line);
    }
    push_line(lines, "".to_owned());
    assert(lines_view(lines@) =~= start + listed(e@, linked));
}

/// What is shown of the ledger. `linked` says of each entry whether there is a link at
/// its source that leads somewhere.
pub fn run_list(ledger: &Ledger, linked: &Vec<bool>) -> (r: Vec<String>)
    requires
        linked.len() == ledger.entries.len(),
    ensures
        lines_view(r@) == list_lines(ledger@, linked@),
{
    let mut lines: Vec<String> = Vec::new();
    if ledger.entries.len() == 0 {
        push_line(&mut lines, "台账为空 —— 还没有用 cshl 迁移过任何目录。".to_owned());
        assert(lines_view(lines@) =~= list_lines(ledger@, linked@));
        return lines;
    }
    let mut line = cat("共 ", show_size(ledger.entries.len()).as_str());
    line.append(" 条迁移记录：\n");
    push_line(&mut lines, line);
    let ghost start = lines_view(lines@);
    assert(start =~= seq!["共 "@ + dec(ledger@.entries.len() as int) + " 条迁移记录：\n"@]);
    let mut i: usize = 0;
    assert(start + Seq::<Seq<char>>::empty() =~= start);
    while i < ledger.entries.len()
        invariant
            0 <= i <= ledger.entries.len(),
            linked.len() == ledger.entries.len(),
            lines_view(lines@) == start + listed_all(ledger@.entries, linked@, i as int),
        decreases ledger.entries.len() - i,
    {
        list_entry(&mut lines, &ledger.entries[i], linked[i]);
        i = i + 1;
        assert(lines_view(lines@) =~= start + listed_all(ledger@.entries, linked@, i as int));
    }
    lines
}

/// How many lines an entry takes in the list: four, one more where the source was a link,
/// and one more where the move did not end.
pub open spec fn entry_lines(e: EntryView) -> nat {
    (4 + if e.original_real_path is Some {
        1nat
    } else {
        0
    } + if e.state == State::Inflight {
        1nat
    } else {
        0
    }) as nat
}

/// The line at which entry `i` begins in the list.
pub open spec fn line_of(es: Seq<EntryView>, i: int) -> int
    decreases i,
{
    if i <= 0 {
        1
    } else {
        line_of(es, i - 1) + entry_lines(es[i - 1])
    }
}

proof fn lemma_line_least(es: Seq<EntryView>, i: int)
    ensures
        line_of(es, i) >= 1,
    decreases i,
{
    if i > 0 {
        lemma_line_least(es, i - 1);
    }
}

proof fn lemma_line_of(es: Seq<EntryView>, linked: Seq<bool>, i: int, n: int)
    requires
        0 <= i <= n <= es.len(),
    ensures
        line_of(es, n) == 1 + listed_all(es, linked, n).len(),
        line_of(es, i) <= line_of(es, n),
        i < n ==> line_of(es, i) + entry_lines(es[i]) <= line_of(es, n),
        i < n ==> listed_all(es, linked, n).subrange(line_of(es, i) - 1, line_of(es, i + 1) - 1)
            == listed(es[i], linked[i]),
    decreases n,
{
    lemma_line_least(es, i);
    if n > 0 {
        let all = listed_all(es, linked, n);
        let less = listed_all(es, linked, n - 1);
        assert(listed(es[n - 1], linked[n - 1]).len() == entry_lines(es[n - 1]));
        if i < n {
            lemma_line_of(es, linked, i, n - 1);
            if i < n - 1 {
                let a = line_of(es, i) - 1;
                let b = line_of(es, i + 1) - 1;
                assert(line_of(es, i + 1) == line_of(es, i) + entry_lines(es[i]));
                assert(all.subrange(a, b) =~= less.subrange(a, b));
            } else {
                let a = line_of(es, i) - 1;
                assert(all.subrange(a, a + entry_lines(es[i]) as int) =~= listed(
                    es[i],
                    linked[i],
                ));
            }
        } else {
            lemma_line_of(es, linked, n - 1, n - 1);
        }
    }
}

/// In the list every entry stands in its turn, below how many there are. It is shown by
/// its own link: a move that ended has the sign that all is well just where its link is
/// there, and that the link is missing just where it is not. It shows its own source and
/// target, what the source led to where it was a link, and what was moved, how and when.
/// A move that did not end is shown as that, whatever link there is, with a warning that
/// names both places.
#[verifier::spinoff_prover]
#[verifier::rlimit(40)]
pub proof fn law_list_shows_each_entry(l: LedgerView, linked: Seq<bool>, i: int)
    requires
        linked.len() == l.entries.len(),
        0 <= i < l.entries.len(),
    ensures
        ({
            let lines = list_lines(l, linked);
            let e = l.entries[i];
            let at = line_of(l.entries, i);
            let k: int = if e.original_real_path is Some {
                1
            } else {
                0
            };
            &&& 1 <= at && at + entry_lines(e) <= lines.len()
            &&& lines.len() == line_of(l.entries, l.entries.len() as int)
            &&& lines[0] == "共 "@ + dec(l.entries.len() as int) + " 条迁移记录：\n"@
            &&& e.state == State::Done && linked[i] ==> lines[at] == "  "@ + "✓"@ + "  "@
                + e.source.display()
            &&& e.state == State::Done && !linked[i] ==> lines[at] == "  "@ + "⚠ 链接缺失"@ + "  "@
                + e.source.display()
            &&& e.state == State::Inflight ==> lines[at] == "  "@ + "⚠ 未完成"@ + "  "@
                + e.source.display()
            &&& lines[at + 1] == "      → "@ + e.target.display()
            &&& e.original_real_path matches Some(p) ==> lines[at + 2] == "      （原链接指向 "@
                + p.display() + "）"@
            &&& lines[at + 2 + k] == "      "@ + human(e.bytes as int) + " · "@ + dec(
                e.files as int,
            ) + " 文件 · "@ + dec(e.dirs as int) + " 目录 · "@ + e.link_kind + " · "@ + e.moved_at
            &&& e.state == State::Inflight ==> lines[at + 3 + k]
                == "      ⚠️  上次迁移未正常结束。请检查 "@ + e.source.display() + " 与 "@
                + e.target.display() + " 两处，确认数据在哪一头。"@
            &&& lines[at + entry_lines(e) - 1] == ""@
        }),
{
    let es = l.entries;
    let n = es.len() as int;
    let lines = list_lines(l, linked);
    let all = listed_all(es, linked, n);
    lemma_line_of(es, linked, i, n);
    lemma_line_of(es, linked, n, n);
    lemma_line_least(es, i);
    let at = line_of(es, i);
    let part = listed(es[i], linked[i]);
    assert(line_of(es, i + 1) == at + entry_lines(es[i]));
    assert(part.len() == entry_lines(es[i]));
    assert forall|j: int| 0 <= j < part.len() implies lines[at + j] == #[trigger] part[j] by {
        assert(all.subrange(at - 1, at - 1 + part.len())[j] == all[at - 1 + j]);
        assert(lines[at + j] == all[at + j - 1]);
    }
    let k: int = if es[i].original_real_path is Some {
        1
    } else {
        0
    };
    assert(lines[at + 0] == part[0]);
    assert(lines[at + 1] == part[1]);
    assert(lines[at + 2] == part[2]);
    assert(lines[at + (2 + k)] == part[2 + k]);
    assert(lines[at + (3 + k)] == part[3 + k]);
    assert(lines[at + (part.len() - 1)] == part[part.len() - 1]);
}

/// What is shown of an entry does not depend on the links of the others.
pub proof fn law_list_keeps_entries_apart(
    l: LedgerView,
    a: Seq<bool>,
    b: Seq<bool>,
    i: int,
    j: int,
)
    requires
        a.len() == l.entries.len(),
        b.len() == l.entries.len(),
        0 <= i < l.entries.len(),
        a[i] == b[i],
        0 <= j < entry_lines(l.entries[i]),
    ensures
        list_lines(l, a)[line_of(l.entries, i) + j] == list_lines(l, b)[line_of(l.entries, i) + j],
{
    let es = l.entries;
    let n = es.len() as int;
    lemma_line_of(es, a, i, n);
    lemma_line_of(es, b, i, n);
    lemma_line_least(es, i);
    let at = line_of(es, i);
    let x = listed_all(es, a, n);
    let y = listed_all(es, b, n);
    assert(line_of(es, i + 1) == at + entry_lines(es[i]));
    assert(x.subrange(at - 1, line_of(es, i + 1) - 1)[j] == x[at - 1 + j]);
    assert(y.subrange(at - 1, line_of(es, i + 1) - 1)[j] == y[at - 1 + j]);
    assert(list_lines(l, a)[at + j] == x[at + j - 1]);
    assert(list_lines(l, b)[at + j] == y[at + j - 1]);
}

/// An empty ledger is shown as that, in one line.
pub proof fn law_list_of_nothing(l: LedgerView, linked: Seq<bool>)
    ensures
        l.entries.len() == 0 <==> list_lines(l, linked)
            == seq!["台账为空 —— 还没有用 cshl 迁移过任何目录。"@],
{
    reveal_strlit("台账为空 —— 还没有用 cshl 迁移过任何目录。");
    if l.entries.len() > 0 {
        lemma_line_of(l.entries, linked, 0, l.entries.len() as int);
        assert(list_lines(l, linked).len() >= 5);
    }
}

/// What is found for a place is the first entry of it, and nothing is found just where
/// there is none.
pub proof fn law_found_is_first(l: LedgerView, source: PathView)
    ensures
        match l.found(source) {
            Some(e) => exists|i: int|
                0 <= i < l.entries.len() && #[trigger] l.entries[i] == e && e.source == source && (
                forall|j: int| 0 <= j < i ==> (#[trigger] l.entries[j]).source != source),
            None => forall|i: int|
                0 <= i < l.entries.len() ==> (#[trigger] l.entries[i]).source != source,
        },
        l.has(source) <==> l.found(source) is Some,
{
    lemma_place(l.entries, source, 0);
    if l.has(source) {
        let i = place(l.entries, source, 0);
        assert(l.entries[i] == l.found(source)->0);
    }
}

/// Forgetting a place leaves all other entries, in their order, and nothing else; a move
/// that begins is entered behind them.
pub proof fn law_forgotten_and_begun(l: LedgerView, source: PathView, e: EntryView)
    ensures
        l.removed(source).entries == l.entries.filter(|x: EntryView| x.source != source),
        l.removed(source).version == l.version,
        l.begun(e).entries == l.entries.filter(|x: EntryView| x.source != e.source).push(e),
        l.begun(e).version == l.version,
{
    lemma_without_filters(l.entries, source);
    lemma_without_filters(l.entries, e.source);
}

proof fn lemma_without_filters(es: Seq<EntryView>, source: PathView)
    ensures
        without(es, source) == es.filter(|x: EntryView| x.source != source),
    decreases es.len(),
{
    reveal(Seq::filter);
    if es.len() > 0 {
        lemma_without_filters(es.drop_last(), source);
    }
}

/// A move that is done is marked as that in its own entry, with what it came to; where it
/// went, from where and when stays, and so does every other entry.
pub proof fn law_done_is_marked(l: LedgerView, source: PathView, c: CompletionView, i: int)
    requires
        l.has(source),
        0 <= i < l.entries.len(),
    ensures
        ({
            let after = l.completed(source, c);
            let was = l.entries[i];
            let now = after.entries[i];
            let first = was.source == source && forall|j: int|
                0 <= j < i ==> (#[trigger] l.entries[j]).source != source;
            &&& after.version == l.version
            &&& after.entries.len() == l.entries.len()
            &&& !first ==> now == was
            &&& first ==> {
                &&& now.state == State::Done
                &&& now.bytes == c.bytes
                &&& now.files == c.files
                &&& now.dirs == c.dirs
                &&& now.same_volume == c.same_volume
                &&& now.link_kind == c.link_kind
                &&& now.source == was.source
                &&& now.target == was.target
                &&& now.original_real_path == was.original_real_path
                &&& now.moved_at == was.moved_at
            }
        }),
{
    lemma_place(l.entries, source, 0);
    let k = place(l.entries, source, 0);
    if i > k {
        assert(l.entries[k].source == source);
    }
}

/// What is read of the ledger: what was written, with its paths in the form to be kept;
/// nothing where there is no file yet; and else why it could not be read, with its place.
/// A ledger that makes no sense is never taken for an empty one.
pub proof fn law_ledger_is_read(path: PathView, read: ReadView)
    ensures
        match read {
            ReadView::Parsed(l) => loaded(path, read) matches Ok(x) && x.version == l.version
                && x.entries.len() == l.entries.len() && forall|i: int|
                0 <= i < l.entries.len() ==> {
                    let e = l.entries[i];
                    let f = #[trigger] x.entries[i];
                    &&& f.source == plain(e.source)
                    &&& f.target == plain(e.target)
                    &&& (f.original_real_path is Some <==> e.original_real_path is Some)
                    &&& e.original_real_path matches Some(p) ==> f.original_real_path == Some(
                        plain(p),
                    )
                    &&& f.link_kind == e.link_kind && f.state == e.state && f.moved_at == e.moved_at
                    &&& f.bytes == e.bytes && f.files == e.files && f.dirs == e.dirs
                    &&& f.same_volume == e.same_volume
                },
            ReadView::Malformed(why) => loaded(path, read) matches Err(ErrorView::Ledger(m))
                && holds(m, why) && holds(m, path.display()),
            ReadView::Failed(e) => if e.kind == FaultKind::NotFound {
                loaded(path, read) matches Ok(x) && x.entries.len() == 0 && x.version == 1
            } else {
                loaded(path, read) == Err::<LedgerView, ErrorView>(
                    ErrorView::Io { path: Some(path), source: e },
                )
            },
        },
{
    if let ReadView::Malformed(why) = read {
        let a = "台账 "@;
        let b = " 解析失败: "@;
        let m = a + path.display() + b + why + "。文件可能已损坏，可手动检查或删除。"@;
        lemma_holds_at(m, path.display(), a.len() as int);
        lemma_holds_at(m, why, (a.len() + path.display().len() + b.len()) as int);
    }
}

/// The ledger is where the environment says, and else below the home directory; it has no
/// place just where neither is known. The lock and what is written at first are beside it.
pub proof fn law_ledger_has_its_place(
    style: Style,
    env: Option<Seq<u8>>,
    home: Option<PathView>,
)
    ensures
        ledger_place(style, env, home) is Err <==> env is None && home is None,
        ledger_place(style, env, home) matches Ok(p) ==> p.file_name() == Some(
            vstd::utf8::encode_utf8("ledger.json"@),
        ) && match env {
            Some(dir) => p.parent() == Some(crate::path::parsed(style, dir)),
            None => p.parent() matches Some(q) && q.parent() == home && q.parts.last()
                == vstd::utf8::encode_utf8(".cshell"@),
        },
{
    let name = vstd::utf8::encode_utf8("ledger.json"@);
    reveal_strlit("ledger.json");
    crate::text::lemma_encode_long("ledger.json"@);
    assert(is_name(name)) by {
        assert(crate::path::dot().len() == 1 && crate::path::dot_dot().len() == 2);
        assert(name.len() > 2);
    }
    if let Ok(p) = ledger_place(style, env, home) {
        let up = match env {
            Some(dir) => crate::path::parsed(style, dir),
            None => (home->0).child(vstd::utf8::encode_utf8(".cshell"@)),
        };
        assert(p == up.child(name));
        assert(p.parts.drop_last() =~= up.parts);
        if env is None {
            assert(up.parts.drop_last() =~= (home->0).parts);
        }
    }
}

/// Writing the ledger fails just where a step of it did, with what the system said; what
/// was written beside its place is removed where it could not take it. Where all goes well
/// it ends well.
pub proof fn law_save_goes_well(run: SaveRun, event: LedgerEvent)
    ensures
        match (run.state, event) {
            (SaveState::Dir, LedgerEvent::Tried(f)) => match f {
                None => run.after(event) is Write,
                Some(e) => run.after(event) matches SaveView::Over(Some(ErrorView::Io { source, .. }))
                    && source == e@,
            },
            (SaveState::Write, LedgerEvent::Wrote(w)) => match w {
                WriteOutcome::Written => run.after(event) is Replace,
                WriteOutcome::Unwritable(why) => run.after(event) matches SaveView::Over(
                    Some(ErrorView::Ledger(m)),
                ) && holds(m, why@),
                WriteOutcome::Failed(e) => run.after(event) matches SaveView::Over(
                    Some(ErrorView::Io { path, source }),
                ) && source == e@ && path == Some(run.tmp@),
            },
            (SaveState::Replace, LedgerEvent::Tried(f)) => match f {
                None => run.after(event) == SaveView::Over(None),
                Some(e) => run.after(event) == SaveView::Drop(e@),
            },
            (SaveState::Drop(e), LedgerEvent::Tried(_)) => run.after(event) == SaveView::Over(
                Some(ErrorView::Io { path: Some(run.path@), source: e@ }),
            ),
            _ => run.after(event) == run.state@,
        },
        run.state is Over <==> run.wants() is None,
        run.state is Write ==> run.wants() == Some(LedgerActionView::Write { at: run.tmp@ }),
        run.state is Replace ==> run.wants() == Some(
            LedgerActionView::Replace { from: run.tmp@, to: run.path@ },
        ),
        run.state is Drop ==> run.wants() == Some(LedgerActionView::RemoveFile { at: run.tmp@ }),
        run.state is Dir && run.path@.parent() is Some ==> run.wants() == Some(
            LedgerActionView::MakeDirs { at: run.path@.parent()->0 },
        ),
{
    if let (SaveState::Write, LedgerEvent::Wrote(WriteOutcome::Unwritable(why))) = (
        run.state,
        event,
    ) {
        let m = "台账序列化失败: "@ + why@;
        lemma_holds_at(m, why@, m.len() - why@.len());
    }
}

/// Whether what a change of the ledger asked for went well, so that the change goes on.
pub open spec fn went_on(run: UpdateRun, event: LedgerEvent) -> bool {
    match (run.state, event) {
        (UpdateState::Read(c), LedgerEvent::Read(read)) => match read@ {
            ReadView::Parsed(l) => c is Begin || plained(l).has(
                match c {
                    Change::Begin(e) => e@.source,
                    Change::Complete(s, _) => s@,
                    Change::Remove(s) => s@,
                },
            ),
            ReadView::Failed(e) => e.kind == FaultKind::NotFound && c is Begin,
            ReadView::Malformed(_) => false,
        },
        (UpdateState::Save(_, r), LedgerEvent::Tried(f)) => f is None && !(r.state is Drop),
        (UpdateState::Save(_, _), LedgerEvent::Wrote(w)) => w is Written,
        (_, LedgerEvent::Tried(f)) => f is None,
        _ => false,
    }
}

/// A change of the ledger goes from one thing to the next as long as each goes well: the
/// place, the lock, what is there, the change, and the lock again. It ends in an error just
/// where something did not, and whatever comes of the lock then, that is what is told.
pub proof fn law_change_goes_well(run: UpdateRun, event: LedgerEvent, next: UpdateRun)
    requires
        run.leads_to(event, next.state),
    ensures
        match (run.state, event) {
            (UpdateState::Dir(c), LedgerEvent::Tried(f)) => if f is None {
                next.state == UpdateState::Open(c)
            } else {
                next.state matches UpdateState::Over(Some(e)) && (e@ matches ErrorView::Io {
                    source,
                    ..
                } && source == (f->0)@)
            },
            (UpdateState::Open(c), LedgerEvent::Tried(f)) => if f is None {
                next.state == UpdateState::Lock(c)
            } else {
                next.state matches UpdateState::Over(Some(e)) && (e@ matches ErrorView::Io {
                    source,
                    ..
                } && source == (f->0)@)
            },
            (UpdateState::Lock(c), LedgerEvent::Tried(f)) => if f is None {
                next.state == UpdateState::Read(c)
            } else {
                next.state matches UpdateState::Over(Some(e)) && (e@ matches ErrorView::Io {
                    source,
                    ..
                } && source == (f->0)@)
            },
            (UpdateState::Read(c), LedgerEvent::Read(read)) => if went_on(run, event) {
                next.state matches UpdateState::Save(l, save) && save.path@ == run.path@ && !(
                save.state is Over) && match (read@, c) {
                    (ReadView::Parsed(old_), Change::Begin(e)) => l@ == plained(old_).begun(e@),
                    (ReadView::Parsed(old_), Change::Complete(s, done)) => l@ == plained(
                        old_,
                    ).completed(s@, done@),
                    (ReadView::Parsed(old_), Change::Remove(s)) => l@ == plained(old_).removed(s@),
                    (_, Change::Begin(e)) => l@.entries == seq![e@],
                    _ => false,
                }
            } else {
                next.state matches UpdateState::Unlock(e) && e is Some
            },
            (UpdateState::Unlock(e), LedgerEvent::Tried(_)) => next.state == UpdateState::Over(e),
            (UpdateState::Over(e), _) => next.state == run.state,
            _ => true,
        },
{
    if let (UpdateState::Read(c), LedgerEvent::Read(read)) = (run.state, event) {
        let none = LedgerView { version: 1, entries: Seq::empty() };
        assert(none.entries.len() == 0);
        if let Change::Begin(e) = c {
            assert(none.begun(e@).entries =~= seq![e@]);
        }
    }
}

/// The lock of a ledger stands beside it, under another name than the ledger and than what
/// is written at first, whichever process writes it; and two processes do not write one
/// file at first.
#[verifier::spinoff_prover]
#[verifier::rlimit(40)]
pub proof fn law_lock_beside(dir: PathView, a: u32, b: u32)
    ensures
        ({
            let path = dir.child(vstd::utf8::encode_utf8("ledger.json"@));
            &&& lock_place(path) == dir.child(vstd::utf8::encode_utf8("ledger.lock"@))
            &&& lock_place(path) != path
            &&& lock_place(path) != tmp_place(path, a)
            &&& a != b ==> tmp_place(path, a) != tmp_place(path, b)
            &&& tmp_place(path, a).parent() == Some(dir)
        }),
{
    let name = vstd::utf8::encode_utf8("ledger.json"@);
    let path = dir.child(name);
    let lock = vstd::utf8::encode_utf8("lock"@);
    let xa = vstd::utf8::encode_utf8("json.tmp-"@ + dec(a as int));
    let xb = vstd::utf8::encode_utf8("json.tmp-"@ + dec(b as int));
    reveal_strlit("ledger.json");
    reveal_strlit("ledger.lock");
    reveal_strlit("lock");
    reveal_strlit("ledger");
    reveal_strlit("json");
    reveal_strlit("json.tmp-");
    vstd::utf8::is_ascii_chars_encode_utf8("ledger.json"@);
    vstd::utf8::is_ascii_chars_encode_utf8("ledger.lock"@);
    vstd::utf8::is_ascii_chars_encode_utf8("lock"@);
    vstd::utf8::is_ascii_chars_encode_utf8("ledger"@);
    vstd::utf8::is_ascii_chars_encode_utf8("json"@);
    vstd::utf8::is_ascii_chars_encode_utf8("json.tmp-"@);
    let stem = vstd::utf8::encode_utf8("ledger"@);
    let was = vstd::utf8::encode_utf8("json"@);
    let locked = vstd::utf8::encode_utf8("ledger.lock"@);
    assert(name =~= stem.push(46) + was);
    assert(locked =~= stem.push(46) + lock);
    assert(is_name(name)) by {
        assert(crate::path::dot().len() == 1 && crate::path::dot_dot().len() == 2);
    }
    crate::path::law_with_extension(dir, stem, was, lock);
    crate::path::law_with_extension(dir, stem, was, xa);
    crate::path::law_with_extension(dir, stem, was, xb);
    assert(locked[7] != name[7]);
    assert(dir.child(locked).parts.last() == locked && path.parts.last() == name);
    crate::text::lemma_encode_concat("json.tmp-"@, dec(a as int));
    let ta = stem.push(46) + xa;
    let tb = stem.push(46) + xb;
    assert(xa[0] == was[0]);
    assert(ta[7] == was[0]);
    assert(dir.child(ta).parts.last() == ta && dir.child(tb).parts.last() == tb);
    assert(dir.child(ta).parts.drop_last() =~= dir.parts);
    if a != b {
        crate::text::law_dec_differs("json.tmp-"@, a as int, b as int, Seq::empty());
        assert("json.tmp-"@ + dec(a as int) + Seq::<char>::empty() =~= "json.tmp-"@ + dec(a as int));
        assert("json.tmp-"@ + dec(b as int) + Seq::<char>::empty() =~= "json.tmp-"@ + dec(b as int));
        assert(ta.skip(7) =~= xa);
        assert(tb.skip(7) =~= xb);
    }
}

} // verus!
