//! The laws of the tracker, stated and proved over the spec-level
//! transition functions that the tracker's contracts use.

use vstd::prelude::*;
use crate::pathset::clamp_size;
use crate::pathset::drain_ok;
use crate::tracker::EventKind;
use crate::tracker::StateView;
use crate::tracker::apply_kind;
use crate::tracker::step;
use crate::tracker::bounded;

verus! {

broadcast use vstd::set::group_set_axioms, vstd::seq_lib::seq_to_set_is_finite;

/// One input to the tracker: a source-degraded (or source-error) signal, or
/// a raw event with its kind and paths.
pub enum TrackerInput {
    /// The event source dropped events, demanded a rescan, or failed.
    Degraded,
    /// A raw filesystem event.
    Event(EventKind, Seq<Seq<u8>>),
}

/// What one input does to the tracker state: a degraded signal moves to the
/// dropped sentinel from any state; an event takes one `step`.
pub open spec fn step_input(s: StateView, limit: int, input: TrackerInput) -> StateView {
    match input {
        TrackerInput::Degraded => StateView::ChangesErroneousDropped,
        TrackerInput::Event(kind, paths) => step(s, limit, kind, paths),
    }
}

/// The state after a whole sequence of inputs, applied in order.
pub open spec fn run(s: StateView, limit: int, inputs: Seq<TrackerInput>) -> StateView
    decreases inputs.len(),
{
    if inputs.len() == 0 {
        s
    } else {
        run(step_input(s, limit, inputs[0]), limit, inputs.drop_first())
    }
}

/// The pair of sets after a whole sequence of events, applied in order with
/// no ceiling and no sentinels — the raw coalescing rules.
pub open spec fn apply_all(
    new_paths: Set<Seq<u8>>,
    removed_paths: Set<Seq<u8>>,
    events: Seq<(EventKind, Seq<Seq<u8>>)>,
) -> (Set<Seq<u8>>, Set<Seq<u8>>)
    decreases events.len(),
{
    if events.len() == 0 {
        (new_paths, removed_paths)
    } else {
        let first = apply_kind(new_paths, removed_paths, events[0].0, events[0].1);
        apply_all(first.0, first.1, events.drop_first())
    }
}

/// Disjointness is preserved by every event that is not `RenameOther`: a
/// path never sits in both sets at once.
pub proof fn lemma_apply_kind_disjoint(
    new_paths: Set<Seq<u8>>,
    removed_paths: Set<Seq<u8>>,
    kind: EventKind,
    paths: Seq<Seq<u8>>,
)
    requires
        new_paths.disjoint(removed_paths),
        kind !is RenameOther,
    ensures
        apply_kind(new_paths, removed_paths, kind, paths).0.disjoint(
            apply_kind(new_paths, removed_paths, kind, paths).1,
        ),
{
    let r = apply_kind(new_paths, removed_paths, kind, paths);
    assert forall|x: Seq<u8>| r.0.contains(x) implies !r.1.contains(x) by {}
}

/// Every event sequence without `RenameOther`, started on disjoint sets —
/// in particular on the empty pair — keeps `new` and `removed` disjoint at
/// every point.
pub proof fn lemma_apply_all_disjoint(
    new_paths: Set<Seq<u8>>,
    removed_paths: Set<Seq<u8>>,
    events: Seq<(EventKind, Seq<Seq<u8>>)>,
)
    requires
        new_paths.disjoint(removed_paths),
        forall|i: int| 0 <= i < events.len() ==> (#[trigger] events[i]).0 !is RenameOther,
    ensures
        apply_all(new_paths, removed_paths, events).0.disjoint(
            apply_all(new_paths, removed_paths, events).1,
        ),
    decreases events.len(),
{
    if events.len() > 0 {
        let first = apply_kind(new_paths, removed_paths, events[0].0, events[0].1);
        lemma_apply_kind_disjoint(new_paths, removed_paths, events[0].0, events[0].1);
        assert(forall|i: int|
            0 <= i < events.drop_first().len() ==> (#[trigger] events.drop_first()[i]).0
                !is RenameOther);
        lemma_apply_all_disjoint(first.0, first.1, events.drop_first());
    }
}

/// While tracking, no path sits in both sets at once.
pub open spec fn disjoint_ok(s: StateView) -> bool {
    s matches StateView::Tracking { new_paths, removed_paths } ==> new_paths.disjoint(
        removed_paths,
    )
}

/// One tracker step on an event that is not `RenameOther` keeps the two
/// sets disjoint.
pub proof fn lemma_step_disjoint(s: StateView, limit: int, kind: EventKind, paths: Seq<Seq<u8>>)
    requires
        disjoint_ok(s),
        kind !is RenameOther,
    ensures
        disjoint_ok(step(s, limit, kind, paths)),
{
    match s {
        StateView::Tracking { new_paths, removed_paths } => {
            lemma_apply_kind_disjoint(new_paths, removed_paths, kind, paths);
        },
        _ => {},
    }
}

/// Every input sequence whose events avoid `RenameOther` — started, in
/// particular, on the empty tracking state — keeps the two sets disjoint
/// whenever the tracker is tracking.
pub proof fn lemma_run_disjoint(s: StateView, limit: int, inputs: Seq<TrackerInput>)
    requires
        disjoint_ok(s),
        forall|i: int|
            0 <= i < inputs.len() ==> ((#[trigger] inputs[i]) matches TrackerInput::Event(
                kind,
                _,
            ) ==> kind !is RenameOther),
    ensures
        disjoint_ok(run(s, limit, inputs)),
    decreases inputs.len(),
{
    if inputs.len() > 0 {
        match inputs[0] {
            TrackerInput::Degraded => {},
            TrackerInput::Event(kind, paths) => {
                lemma_step_disjoint(s, limit, kind, paths);
            },
        }
        assert(forall|i: int|
            0 <= i < inputs.drop_first().len() ==> ((#[trigger] inputs.drop_first()[i]) matches
                TrackerInput::Event(kind, _) ==> kind !is RenameOther));
        lemma_run_disjoint(step_input(s, limit, inputs[0]), limit, inputs.drop_first());
    }
}

/// One step keeps the tracker within the ceiling: while the state is the
/// tracking one, the total change count is at most `limit`.
pub proof fn lemma_step_bounded(s: StateView, limit: int, kind: EventKind, paths: Seq<Seq<u8>>)
    requires
        bounded(s, limit),
    ensures
        bounded(step(s, limit, kind, paths), limit),
{
    match s {
        StateView::Tracking { new_paths, removed_paths } => {
            let applied = apply_kind(new_paths, removed_paths, kind, paths);
            assert(applied.0.finite() && applied.1.finite());
        },
        _ => {},
    }
}

/// Every input sequence keeps the tracker within the ceiling: whenever the
/// state is the tracking one, the total change count is at most `limit`.
pub proof fn lemma_run_bounded(s: StateView, limit: int, inputs: Seq<TrackerInput>)
    requires
        bounded(s, limit),
    ensures
        bounded(run(s, limit, inputs), limit),
    decreases inputs.len(),
{
    if inputs.len() > 0 {
        match inputs[0] {
            TrackerInput::Degraded => {},
            TrackerInput::Event(kind, paths) => {
                lemma_step_bounded(s, limit, kind, paths);
            },
        }
        lemma_run_bounded(step_input(s, limit, inputs[0]), limit, inputs.drop_first());
    }
}

/// Once the state is the dropped sentinel, no sequence of non-reset inputs
/// — events or further degraded signals — can change it.
pub proof fn lemma_dropped_absorbing(limit: int, inputs: Seq<TrackerInput>)
    ensures
        run(StateView::ChangesErroneousDropped, limit, inputs)
            == StateView::ChangesErroneousDropped,
    decreases inputs.len(),
{
    if inputs.len() > 0 {
        lemma_dropped_absorbing(limit, inputs.drop_first());
    }
}

/// Draining an empty set returns no paths, reports `done`, and leaves the
/// set as it was.
pub proof fn lemma_drain_empty(
    remaining: Set<Seq<u8>>,
    drained: Seq<Seq<u8>>,
    done: bool,
    size: int,
)
    requires
        drain_ok(Set::<Seq<u8>>::empty(), remaining, drained, done, size),
        size >= 0,
    ensures
        drained == Seq::<Seq<u8>>::empty(),
        remaining == Set::<Seq<u8>>::empty(),
        done,
{
    assert(Set::<Seq<u8>>::empty().len() == 0nat);
    assert(drained.len() == 0);
    assert(drained =~= Seq::<Seq<u8>>::empty());
    assert(remaining =~= Set::<Seq<u8>>::empty());
}

/// The number of paths left after `k` drains, each taking up to `page`
/// paths from whatever is left.
pub open spec fn remaining_after(len: nat, page: nat, k: nat) -> nat
    decreases k,
{
    if k == 0 {
        len
    } else {
        let prev = remaining_after(len, page, (k - 1) as nat);
        (prev - vstd::math::min(page as int, prev as int)) as nat
    }
}

/// One drain leaves exactly as many paths as one step of the
/// `remaining_after` recursion, and reports `done` exactly when none are
/// left.
pub proof fn lemma_drain_progress(
    orig: Set<Seq<u8>>,
    remaining: Set<Seq<u8>>,
    drained: Seq<Seq<u8>>,
    done: bool,
    size: int,
)
    requires
        drain_ok(orig, remaining, drained, done, size),
        size >= 0,
    ensures
        remaining.len() == remaining_after(orig.len(), clamp_size(size) as nat, 1),
        done <==> remaining.len() == 0,
{
    let page = clamp_size(size) as nat;
    assert(remaining_after(orig.len(), page, 0) == orig.len());
    assert(remaining_after(orig.len(), page, 1) == (orig.len() - vstd::math::min(
        page as int,
        orig.len() as int,
    )) as nat);
}

/// Peeling one drain off the front of the `remaining_after` recursion.
proof fn lemma_remaining_shift(len: nat, page: nat, k: nat)
    ensures
        remaining_after(len, page, k + 1) == remaining_after(
            remaining_after(len, page, 1),
            page,
            k,
        ),
    decreases k,
{
    if k > 0 {
        lemma_remaining_shift(len, page, (k - 1) as nat);
    }
}

/// Repeated drains with any positive page size eventually leave nothing:
/// together with the drain contract, which says each drain takes distinct
/// paths out of the set and leaves exactly the rest, the drains collectively
/// yield exactly what the set held.
pub proof fn lemma_drains_complete(len: nat, page: nat)
    requires
        page >= 1,
    ensures
        exists|k: nat| #[trigger] remaining_after(len, page, k) == 0,
    decreases len,
{
    if len == 0 {
        assert(remaining_after(len, page, 0nat) == 0);
    } else {
        let next = remaining_after(len, page, 1);
        assert(remaining_after(len, page, 0) == len);
        assert(next == (len - vstd::math::min(page as int, len as int)) as nat);
        assert(next < len);
        lemma_drains_complete(next, page);
        let k = choose|k: nat| #[trigger] remaining_after(next, page, k) == 0;
        lemma_remaining_shift(len, page, k);
        assert(remaining_after(len, page, k + 1) == 0);
    }
}

/// A drain size above 1000 is served exactly as a drain size of 1000.
pub proof fn lemma_size_clamp(size: int)
    requires
        size > 1000,
    ensures
        clamp_size(size) == clamp_size(1000),
{
}

} // verus!
