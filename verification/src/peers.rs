//! That what many processes enter into the ledger at one time all stays there.

use vstd::prelude::*;

use crate::ledger::loaded;
use crate::ledger::plained;
use crate::ledger::Change;
use crate::ledger::CompletionView;
use crate::ledger::EntryView;
use crate::ledger::LedgerEvent;
use crate::ledger::LedgerView;
use crate::ledger::UpdateRun;
use crate::ledger::UpdateState;

verus! {

/// What is in the ledger's file, and how far each process has got with changing it.
pub struct Peers {
    pub file: LedgerView,
    pub runs: Seq<UpdateRun>,
}

/// Whether a step of a process puts what it wrote in the place of the ledger's file.
pub open spec fn replaces(run: UpdateRun, event: LedgerEvent) -> bool {
    run.state matches UpdateState::Save(_, save) && save.state is Replace && event
        == LedgerEvent::Tried(None)
}

/// Whether `next` may be behind `w` once `event` came to the process `i`. The lock is
/// given to one process at a time, reading gives what is in the file, if it gives
/// anything, and the file is what was last put in its place.
pub open spec fn peers_on(w: Peers, i: int, event: LedgerEvent, next: Peers) -> bool {
    &&& 0 <= i < w.runs.len()
    &&& next.runs.len() == w.runs.len()
    &&& forall|j: int|
        0 <= j < w.runs.len() && j != i ==> #[trigger] next.runs[j] == w.runs[j]
    &&& next.runs[i].path == w.runs[i].path
    &&& w.runs[i].leads_to(event, next.runs[i].state)
    &&& w.runs[i].state is Lock && event == LedgerEvent::Tried(None) ==> forall|j: int|
        0 <= j < w.runs.len() && j != i ==> !(#[trigger] w.runs[j]).locked()
    &&& w.runs[i].state is Read ==> (event matches LedgerEvent::Read(read) ==> (loaded(
        w.runs[i].path@,
        read@,
    ) matches Ok(l) ==> l == plained(w.file)))
    &&& next.file == if replaces(w.runs[i], event) {
        w.runs[i].state->Save_0@
    } else {
        w.file
    }
}

/// Whether a change is the beginning of this move.
pub open spec fn begins(c: Change, e: EntryView) -> bool {
    c matches Change::Begin(x) && x@ == e
}

/// Whether a process that is to begin the move `e` has not begun to.
pub open spec fn sets_out(run: UpdateRun, e: EntryView) -> bool {
    match run.state {
        UpdateState::Dir(c) => begins(c, e),
        UpdateState::Open(c) => begins(c, e),
        _ => false,
    }
}

/// What holds of a process that is to begin the move `e`.
pub open spec fn keeps_on(run: UpdateRun, e: EntryView, file: LedgerView) -> bool {
    match run.state {
        UpdateState::Dir(c) => begins(c, e),
        UpdateState::Open(c) => begins(c, e),
        UpdateState::Lock(c) => begins(c, e),
        UpdateState::Read(c) => begins(c, e),
        UpdateState::Save(l, save) => l@ == file.begun(e) && !(save.state is Over),
        UpdateState::Unlock(x) => x is None ==> file.found(e.source) == Some(e),
        UpdateState::Over(x) => x is None ==> file.found(e.source) == Some(e),
    }
}

/// What holds at every moment: one process at most has the lock; each is at its own move;
/// and what was in the ledger when all began is there still, but for what is begun anew.
pub open spec fn peers_hold(w: Peers, es: Seq<EntryView>, first: LedgerView) -> bool {
    &&& w.runs.len() == es.len()
    &&& plained(w.file) == w.file
    &&& forall|i: int, j: int|
        0 <= i < w.runs.len() && 0 <= j < w.runs.len() && i != j ==> !((
        #[trigger] w.runs[i]).locked() && (#[trigger] w.runs[j]).locked())
    &&& forall|i: int| 0 <= i < es.len() ==> keeps_on(#[trigger] w.runs[i], es[i], w.file)
    &&& forall|x: EntryView|
        first.entries.contains(x) && (forall|i: int|
            0 <= i < es.len() ==> (#[trigger] es[i]).source != x.source)
            ==> #[trigger] w.file.entries.contains(x)
}

/// Whether moves are of different sources, with their paths in the form to be kept.
pub open spec fn are_apart(es: Seq<EntryView>) -> bool {
    &&& forall|i: int, j: int|
        0 <= i < es.len() && 0 <= j < es.len() && i != j ==> (#[trigger] es[i]).source != (
        #[trigger] es[j]).source
    &&& forall|i: int| 0 <= i < es.len() ==> (#[trigger] es[i]).plained() == es[i]
}

proof fn lemma_plained_begun(l: LedgerView, e: EntryView)
    requires
        plained(l) == l,
        e.plained() == e,
    ensures
        plained(l.begun(e)) == l.begun(e),
{
    let b = l.begun(e);
    assert forall|k: int| 0 <= k < b.entries.len() implies (#[trigger] b.entries[k]).plained()
        == b.entries[k] by {
        if b.entries[k] != e {
            crate::ledger::law_begun_keeps(l, e, k);
            let m = choose|m: int| 0 <= m < l.entries.len() && l.entries[m] == b.entries[k];
            assert(plained(l).entries[m] == l.entries[m].plained());
        }
    }
    assert(plained(b).entries =~= b.entries);
}

proof fn lemma_peers_on(
    w: Peers,
    es: Seq<EntryView>,
    first: LedgerView,
    i: int,
    event: LedgerEvent,
    next: Peers,
)
    requires
        are_apart(es),
        peers_hold(w, es, first),
        peers_on(w, i, event, next),
    ensures
        peers_hold(next, es, first),
{
    let run = w.runs[i];
    let after = next.runs[i];
    assert(keeps_on(run, es[i], w.file));
    assert(es[i].plained() == es[i]);
    if replaces(run, event) {
        assert(run.locked());
        assert(next.file == w.file.begun(es[i]));
        lemma_plained_begun(w.file, es[i]);
        crate::ledger::law_entry_life(
            w.file,
            es[i],
            CompletionView {
                bytes: 0,
                files: 0,
                dirs: 0,
                same_volume: false,
                link_kind: Seq::empty(),
            },
        );
    }
    if after.locked() && !run.locked() {
        crate::ledger::law_changes_under_lock(run, event, after);
    }
    assert forall|j: int, k: int|
        0 <= j < next.runs.len() && 0 <= k < next.runs.len() && j != k implies !((
    #[trigger] next.runs[j]).locked() && (#[trigger] next.runs[k]).locked()) by {
        if j != i && k != i {
            assert(next.runs[j] == w.runs[j] && next.runs[k] == w.runs[k]);
        } else if j == i {
            assert(next.runs[k] == w.runs[k]);
            assert(!(w.runs[i].locked() && w.runs[k].locked()));
        } else {
            assert(next.runs[j] == w.runs[j]);
            assert(!(w.runs[i].locked() && w.runs[j].locked()));
        }
    }
    assert forall|j: int| 0 <= j < es.len() implies keeps_on(
        #[trigger] next.runs[j],
        es[j],
        next.file,
    ) by {
        if j != i {
            assert(next.runs[j] == w.runs[j]);
            assert(keeps_on(w.runs[j], es[j], w.file));
            if replaces(run, event) {
                assert(!(w.runs[i].locked() && w.runs[j].locked()));
                assert(es[j].source != es[i].source);
                crate::ledger::law_begun_leaves_others(w.file, es[i], es[j].source);
            }
        }
    }
    assert forall|x: EntryView|
        first.entries.contains(x) && (forall|k: int|
            0 <= k < es.len() ==> (#[trigger] es[k]).source != x.source) implies #[trigger] next.file.entries.contains(
    x) by {
        assert(w.file.entries.contains(x));
        if replaces(run, event) {
            assert(es[i].source != x.source);
            crate::ledger::law_others_untouched(
                w.file,
                es[i],
                CompletionView {
                    bytes: 0,
                    files: 0,
                    dirs: 0,
                    same_volume: false,
                    link_kind: Seq::empty(),
                },
                x,
            );
        }
    }
}

/// However the steps of many processes that each begin a move of their own come one after
/// the other: each whose beginning went well is in the ledger, and so is all that was
/// there before, but for older moves of the same sources.
pub proof fn law_beginnings_stay(
    es: Seq<EntryView>,
    worlds: Seq<Peers>,
    steps: Seq<(int, LedgerEvent)>,
)
    requires
        are_apart(es),
        worlds.len() == steps.len() + 1,
        worlds[0].runs.len() == es.len(),
        plained(worlds[0].file) == worlds[0].file,
        forall|i: int| 0 <= i < es.len() ==> sets_out(#[trigger] worlds[0].runs[i], es[i]),
        forall|n: int|
            #![trigger steps[n]]
            0 <= n < steps.len() ==> peers_on(
                worlds[n],
                steps[n].0,
                steps[n].1,
                worlds[n + 1],
            ),
    ensures
        peers_hold(worlds.last(), es, worlds[0].file),
        forall|i: int|
            0 <= i < es.len() && (#[trigger] worlds.last().runs[i]).state == UpdateState::Over(None)
                ==> worlds.last().file.found(es[i].source) == Some(es[i]),
    decreases steps.len(),
{
    if steps.len() == 0 {
        assert forall|i: int| 0 <= i < es.len() implies keeps_on(
            #[trigger] worlds[0].runs[i],
            es[i],
            worlds[0].file,
        ) && !worlds[0].runs[i].locked() by {
            assert(sets_out(worlds[0].runs[i], es[i]));
        }
    } else {
        let less = steps.drop_last();
        let seen = worlds.drop_last();
        let n = steps.len() - 1;
        assert forall|k: int| #![trigger less[k]] 0 <= k < less.len() implies peers_on(
            seen[k],
            less[k].0,
            less[k].1,
            seen[k + 1],
        ) by {
            assert(less[k] == steps[k]);
        }
        law_beginnings_stay(es, seen, less);
        assert(steps[n] == steps.last());
        assert(seen.last() == worlds[n]);
        lemma_peers_on(
            worlds[n],
            es,
            worlds[0].file,
            steps[n].0,
            steps[n].1,
            worlds[n + 1],
        );
    }
    assert forall|i: int|
        0 <= i < es.len() && (#[trigger] worlds.last().runs[i]).state == UpdateState::Over(
            None,
        ) implies worlds.last().file.found(es[i].source) == Some(es[i]) by {
        assert(keeps_on(worlds.last().runs[i], es[i], worlds.last().file));
    }
}

/// Whether a process has made its change, or will say that it did.
spec fn has_changed(run: UpdateRun) -> bool {
    run.state == UpdateState::Unlock(None) || run.state == UpdateState::Over(None)
}

/// A change of the ledger that ends in an error leaves the file as it was: whatever the
/// change is, and whatever other processes do meanwhile, no step of the process that made
/// it put anything in the place of the file.
pub proof fn law_failed_change_changes_nothing(
    worlds: Seq<Peers>,
    steps: Seq<(int, LedgerEvent)>,
    i: int,
    k: int,
)
    requires
        worlds.len() == steps.len() + 1,
        0 <= i < worlds[0].runs.len(),
        forall|n: int|
            #![trigger steps[n]]
            0 <= n < steps.len() ==> peers_on(
                worlds[n],
                steps[n].0,
                steps[n].1,
                worlds[n + 1],
            ),
        0 <= i < worlds.last().runs.len(),
        match worlds.last().runs[i].state {
            UpdateState::Unlock(e) => e is Some,
            UpdateState::Over(e) => e is Some,
            _ => false,
        },
        0 <= k < steps.len(),
        steps[k].0 == i,
    ensures
        !replaces(worlds[k].runs[i], steps[k].1),
        worlds[k + 1].file == worlds[k].file,
{
    assert(peers_on(worlds[k], steps[k].0, steps[k].1, worlds[k + 1]));
    if replaces(worlds[k].runs[i], steps[k].1) {
        assert(has_changed(worlds[k + 1].runs[i]));
        lemma_stays_changed(worlds, steps, i, k + 1, worlds.len() - 1);
    }
}

proof fn lemma_stays_changed(
    worlds: Seq<Peers>,
    steps: Seq<(int, LedgerEvent)>,
    i: int,
    k: int,
    m: int,
)
    requires
        worlds.len() == steps.len() + 1,
        0 <= k <= m < worlds.len(),
        forall|n: int|
            #![trigger steps[n]]
            0 <= n < steps.len() ==> peers_on(
                worlds[n],
                steps[n].0,
                steps[n].1,
                worlds[n + 1],
            ),
        0 <= i < worlds[k].runs.len(),
        has_changed(worlds[k].runs[i]),
    ensures
        0 <= i < worlds[m].runs.len(),
        has_changed(worlds[m].runs[i]),
    decreases m - k,
{
    if k < m {
        lemma_stays_changed(worlds, steps, i, k, m - 1);
        assert(peers_on(
            worlds[m - 1],
            steps[m - 1].0,
            steps[m - 1].1,
            worlds[m - 1 + 1],
        ));
        if steps[m - 1].0 != i {
            assert(worlds[m].runs[i] == worlds[m - 1].runs[i]);
        }
    }
}

} // verus!
