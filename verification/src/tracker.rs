//! The change tracker: a state machine that coalesces raw filesystem events
//! into two sets of paths, `new` and `removed`, under a change-count ceiling.
//!
//! The tracker is either tracking a pair of path sets or sits in one of two
//! sentinel states that tell the consumer to rescan: `TooManyChanges` (the
//! ceiling was crossed) and `ChangesErroneousDropped` (the event source
//! reported degradation or a transport error; this state has priority and
//! only `reset` leaves it).

use vstd::prelude::*;
use crate::pathset::PathSet;
use crate::pathset::path_views;
use crate::pathset::drain_ok;

verus! {

broadcast use vstd::set::group_set_axioms, vstd::seq_lib::seq_to_set_is_finite;

/// The kind of a raw filesystem event, as the event source reports it.
#[derive(Clone, Copy, Debug)]
pub enum EventKind {
    /// A path was created.
    Create,
    /// A path was removed.
    Remove,
    /// A path's content or metadata changed.
    ModifyContent,
    /// A rename reported only its destination path.
    RenameTo,
    /// A rename reported only its source path.
    RenameFrom,
    /// A rename reported source and destination, in that order.
    RenameBoth,
    /// A rename of an unknown or abnormal shape.
    RenameOther,
    /// An event of no interest to the tracker.
    Other,
}

/// The pair of path sets the tracker maintains while it is tracking:
/// `new` holds paths believed created or modified since the last reset,
/// `removed` holds paths believed deleted.
pub struct FileSystemChanges {
    new: PathSet,
    removed: PathSet,
}

/// The tracker's state: tracking a pair of path sets, or one of the two
/// sentinel states that demand a full rescan.
pub enum ServerState {
    /// Normal operation.
    Tracking(FileSystemChanges),
    /// The change-count ceiling was crossed.
    TooManyChanges,
    /// The event source reported degradation or an error.
    ChangesErroneousDropped,
}

/// The abstract value of a tracker state: the two path sets as mathematical
/// sets of byte sequences, or a sentinel.
pub enum StateView {
    /// Normal operation, with the abstract contents of the two sets.
    Tracking { new_paths: Set<Seq<u8>>, removed_paths: Set<Seq<u8>> },
    /// The change-count ceiling was crossed.
    TooManyChanges,
    /// The event source reported degradation or an error.
    ChangesErroneousDropped,
}

/// The state a fresh tracker starts in, and the one `reset` restores:
/// tracking, with both sets empty.
pub open spec fn empty_tracking() -> StateView {
    StateView::Tracking { new_paths: Set::empty(), removed_paths: Set::empty() }
}

/// What one event does to the pair of sets while the tracker is tracking.
///
/// Every rule is remove-from-the-opposite-set, then insert, so a path moves
/// between the sets rather than appearing in both — except `RenameOther`,
/// which deliberately puts the path in both sets to mark it "state unknown".
/// A `RenameBoth` whose path list is not exactly `[from, to]` is a
/// structural violation and is ignored.
pub open spec fn apply_kind(
    new_paths: Set<Seq<u8>>,
    removed_paths: Set<Seq<u8>>,
    kind: EventKind,
    paths: Seq<Seq<u8>>,
) -> (Set<Seq<u8>>, Set<Seq<u8>>) {
    match kind {
        EventKind::Create | EventKind::ModifyContent | EventKind::RenameTo => (
            new_paths + paths.to_set(),
            removed_paths.difference(paths.to_set()),
        ),
        EventKind::Remove | EventKind::RenameFrom => (
            new_paths.difference(paths.to_set()),
            removed_paths + paths.to_set(),
        ),
        EventKind::RenameBoth => if paths.len() == 2 {
            (
                new_paths.remove(paths[0]).insert(paths[1]),
                removed_paths.insert(paths[0]).remove(paths[1]),
            )
        } else {
            (new_paths, removed_paths)
        },
        EventKind::RenameOther => (new_paths + paths.to_set(), removed_paths + paths.to_set()),
        EventKind::Other => (new_paths, removed_paths),
    }
}

/// What one event does to the whole tracker state: sentinels absorb every
/// event; in the tracking state the event is applied and, if the total
/// change count then exceeds `limit`, the sets are discarded for
/// `TooManyChanges`.
pub open spec fn step(s: StateView, limit: int, kind: EventKind, paths: Seq<Seq<u8>>) -> StateView {
    match s {
        StateView::Tracking { new_paths, removed_paths } => {
            let applied = apply_kind(new_paths, removed_paths, kind, paths);
            if applied.0.len() + applied.1.len() > limit {
                StateView::TooManyChanges
            } else {
                StateView::Tracking { new_paths: applied.0, removed_paths: applied.1 }
            }
        },
        StateView::TooManyChanges => StateView::TooManyChanges,
        StateView::ChangesErroneousDropped => StateView::ChangesErroneousDropped,
    }
}

/// The change-count ceiling: while tracking, the sets are finite and hold
/// at most `limit` paths in total.
pub open spec fn bounded(s: StateView, limit: int) -> bool {
    s matches StateView::Tracking { new_paths, removed_paths } ==> new_paths.finite()
        && removed_paths.finite() && new_paths.len() + removed_paths.len() <= limit
}

impl FileSystemChanges {
    /// The abstract contents of the `new` set.
    pub closed spec fn new_view(&self) -> Set<Seq<u8>> {
        self.new@
    }

    /// The abstract contents of the `removed` set.
    pub closed spec fn removed_view(&self) -> Set<Seq<u8>> {
        self.removed@
    }

    /// Both backing sets are well formed.
    pub closed spec fn wf(&self) -> bool {
        self.new.wf() && self.removed.wf()
    }

    /// Creates an empty pair of sets.
    pub fn new() -> (c: Self)
        ensures
            c.wf(),
            c.new_view() == Set::<Seq<u8>>::empty(),
            c.removed_view() == Set::<Seq<u8>>::empty(),
    {
        FileSystemChanges { new: PathSet::new(), removed: PathSet::new() }
    }
}

impl Default for FileSystemChanges {
    /// An empty pair of sets.
    fn default() -> (c: Self)
        ensures
            c.wf(),
            c.new_view() == Set::<Seq<u8>>::empty(),
            c.removed_view() == Set::<Seq<u8>>::empty(),
    {
        FileSystemChanges::new()
    }
}

impl FileSystemChanges {
    /// Applies one event to the pair of sets, as `apply_kind` states.
    pub fn apply(&mut self, kind: EventKind, paths: Vec<Vec<u8>>)
        requires
            old(self).wf(),
        ensures
            final(self).wf(),
            final(self).new_view() == apply_kind(
                old(self).new_view(),
                old(self).removed_view(),
                kind,
                path_views(paths@),
            ).0,
            final(self).removed_view() == apply_kind(
                old(self).new_view(),
                old(self).removed_view(),
                kind,
                path_views(paths@),
            ).1,
    {
        match kind {
            EventKind::Create | EventKind::ModifyContent | EventKind::RenameTo => {
                self.add_new_all(paths);
            },
            EventKind::Remove | EventKind::RenameFrom => {
                self.add_removed_all(paths);
            },
            EventKind::RenameBoth => {
                let mut ps = paths;
                if ps.len() == 2 {
                    // The source promises the order (from, to); consumed
                    // back to front, the logical operations still run in
                    // forward order.
                    let to = ps.pop().unwrap();
                    let from = ps.pop().unwrap();
                    self.new.remove(&from);
                    self.removed.insert(from);
                    self.removed.remove(&to);
                    self.new.insert(to);
                }
                // A different path count is a structural violation of the
                // source's promise; the event is ignored.
            },
            EventKind::RenameOther => {
                self.mark_unknown_all(paths);
            },
            EventKind::Other => {},
        }
    }

    /// Moves every given path into the `new` set, taking each out of
    /// `removed` first.
    fn add_new_all(&mut self, paths: Vec<Vec<u8>>)
        requires
            old(self).wf(),
        ensures
            final(self).wf(),
            final(self).new_view() == old(self).new_view() + path_views(paths@).to_set(),
            final(self).removed_view() == old(self).removed_view().difference(
                path_views(paths@).to_set(),
            ),
    {
        let ghost orig_new = self.new_view();
        let ghost orig_removed = self.removed_view();
        let ghost pv = path_views(paths@);
        let mut ps = paths;
        proof {
            assert(pv.skip(pv.len() as int) =~= Seq::<Seq<u8>>::empty());
            assert(self.new_view() =~= orig_new + pv.skip(pv.len() as int).to_set());
            assert(self.removed_view() =~= orig_removed.difference(
                pv.skip(pv.len() as int).to_set(),
            ));
        }
        while ps.len() > 0
            invariant
                self.wf(),
                ps@.len() <= pv.len(),
                path_views(ps@) == pv.take(ps@.len() as int),
                self.new_view() == orig_new + pv.skip(ps@.len() as int).to_set(),
                self.removed_view() == orig_removed.difference(pv.skip(ps@.len() as int).to_set()),
            decreases ps@.len(),
        {
            let ghost m = ps@.len() as int;
            let ghost ops = ps@;
            let p = ps.pop().unwrap();
            proof {
                assert(path_views(ps@) =~= pv.take(m - 1));
                assert(path_views(ops)[m - 1] == p@);
                assert(p@ == pv[m - 1]);
                lemma_skip_to_set_step(pv, m - 1);
            }
            self.removed.remove(&p);
            self.new.insert(p);
            proof {
                assert(self.new_view() =~= orig_new + pv.skip(m - 1).to_set());
                assert(self.removed_view() =~= orig_removed.difference(pv.skip(m - 1).to_set()));
            }
        }
        proof {
            assert(pv.skip(0) =~= pv);
        }
    }

    /// Moves every given path into the `removed` set, taking each out of
    /// `new` first.
    fn add_removed_all(&mut self, paths: Vec<Vec<u8>>)
        requires
            old(self).wf(),
        ensures
            final(self).wf(),
            final(self).new_view() == old(self).new_view().difference(path_views(paths@).to_set()),
            final(self).removed_view() == old(self).removed_view() + path_views(paths@).to_set(),
    {
        let ghost orig_new = self.new_view();
        let ghost orig_removed = self.removed_view();
        let ghost pv = path_views(paths@);
        let mut ps = paths;
        proof {
            assert(pv.skip(pv.len() as int) =~= Seq::<Seq<u8>>::empty());
            assert(self.new_view() =~= orig_new.difference(pv.skip(pv.len() as int).to_set()));
            assert(self.removed_view() =~= orig_removed + pv.skip(pv.len() as int).to_set());
        }
        while ps.len() > 0
            invariant
                self.wf(),
                ps@.len() <= pv.len(),
                path_views(ps@) == pv.take(ps@.len() as int),
                self.new_view() == orig_new.difference(pv.skip(ps@.len() as int).to_set()),
                self.removed_view() == orig_removed + pv.skip(ps@.len() as int).to_set(),
            decreases ps@.len(),
        {
            let ghost m = ps@.len() as int;
            let ghost ops = ps@;
            let p = ps.pop().unwrap();
            proof {
                assert(path_views(ps@) =~= pv.take(m - 1));
                assert(path_views(ops)[m - 1] == p@);
                assert(p@ == pv[m - 1]);
                lemma_skip_to_set_step(pv, m - 1);
            }
            self.new.remove(&p);
            self.removed.insert(p);
            proof {
                assert(self.new_view() =~= orig_new.difference(pv.skip(m - 1).to_set()));
                assert(self.removed_view() =~= orig_removed + pv.skip(m - 1).to_set());
            }
        }
        proof {
            assert(pv.skip(0) =~= pv);
        }
    }

    /// Puts every given path in both sets: the event's meaning is unknown,
    /// and a path reported in both drains tells the consumer to rescan it.
    fn mark_unknown_all(&mut self, paths: Vec<Vec<u8>>)
        requires
            old(self).wf(),
        ensures
            final(self).wf(),
            final(self).new_view() == old(self).new_view() + path_views(paths@).to_set(),
            final(self).removed_view() == old(self).removed_view() + path_views(paths@).to_set(),
    {
        let ghost orig_new = self.new_view();
        let ghost orig_removed = self.removed_view();
        let ghost pv = path_views(paths@);
        let mut ps = paths;
        proof {
            assert(pv.skip(pv.len() as int) =~= Seq::<Seq<u8>>::empty());
            assert(self.new_view() =~= orig_new + pv.skip(pv.len() as int).to_set());
            assert(self.removed_view() =~= orig_removed + pv.skip(pv.len() as int).to_set());
        }
        while ps.len() > 0
            invariant
                self.wf(),
                ps@.len() <= pv.len(),
                path_views(ps@) == pv.take(ps@.len() as int),
                self.new_view() == orig_new + pv.skip(ps@.len() as int).to_set(),
                self.removed_view() == orig_removed + pv.skip(ps@.len() as int).to_set(),
            decreases ps@.len(),
        {
            let ghost m = ps@.len() as int;
            let ghost ops = ps@;
            let p = ps.pop().unwrap();
            proof {
                assert(path_views(ps@) =~= pv.take(m - 1));
                assert(path_views(ops)[m - 1] == p@);
                assert(p@ == pv[m - 1]);
                lemma_skip_to_set_step(pv, m - 1);
            }
            let q = clone_path(&p);
            self.new.insert(q);
            self.removed.insert(p);
            proof {
                assert(self.new_view() =~= orig_new + pv.skip(m - 1).to_set());
                assert(self.removed_view() =~= orig_removed + pv.skip(m - 1).to_set());
            }
        }
        proof {
            assert(pv.skip(0) =~= pv);
        }
    }

    /// Whether the total change count exceeds `limit`.
    fn exceeds(&self, limit: usize) -> (r: bool)
        requires
            self.wf(),
        ensures
            r <==> self.new_view().len() + self.removed_view().len() > limit,
    {
        let nl = self.new.len();
        let rl = self.removed.len();
        nl > limit || rl > limit - nl
    }
}

/// Copies a path.
fn clone_path(p: &Vec<u8>) -> (r: Vec<u8>)
    ensures
        r@ == p@,
{
    let mut r: Vec<u8> = Vec::new();
    let n = p.len();
    for i in 0..n
        invariant
            n == p@.len(),
            r@ == p@.take(i as int),
    {
        r.push(p[i]);
        proof {
            assert(r@ =~= p@.take(i as int + 1));
        }
    }
    proof {
        assert(p@.take(n as int) =~= p@);
    }
    r
}

/// Moving the boundary of a suffix one element left adds exactly that
/// element to the suffix's set.
proof fn lemma_skip_to_set_step(s: Seq<Seq<u8>>, m: int)
    requires
        0 <= m < s.len(),
    ensures
        s.skip(m).to_set() == s.skip(m + 1).to_set().insert(s[m]),
{
    let a = s.skip(m);
    let b = s.skip(m + 1);
    assert forall|x: Seq<u8>| a.to_set().contains(x) implies b.to_set().insert(s[m]).contains(
        x,
    ) by {
        let j = choose|j: int| 0 <= j < a.len() && a[j] == x;
        if j == 0 {
            assert(a[0] == s[m]);
        } else {
            assert(b[j - 1] == x);
            assert(b.contains(x));
        }
    }
    assert forall|x: Seq<u8>| b.to_set().insert(s[m]).contains(x) implies a.to_set().contains(
        x,
    ) by {
        if x == s[m] {
            assert(a[0] == x);
            assert(a.contains(x));
        } else {
            let j = choose|j: int| 0 <= j < b.len() && b[j] == x;
            assert(a[j + 1] == x);
            assert(a.contains(x));
        }
    }
    assert(a.to_set() =~= b.to_set().insert(s[m]));
}

impl View for ServerState {
    type V = StateView;

    open spec fn view(&self) -> StateView {
        match self {
            ServerState::Tracking(c) => StateView::Tracking {
                new_paths: c.new_view(),
                removed_paths: c.removed_view(),
            },
            ServerState::TooManyChanges => StateView::TooManyChanges,
            ServerState::ChangesErroneousDropped => StateView::ChangesErroneousDropped,
        }
    }
}

impl ServerState {
    /// The backing sets are well formed while tracking.
    pub open spec fn wf(&self) -> bool {
        self matches ServerState::Tracking(c) ==> c.wf()
    }
}

impl Default for ServerState {
    /// A fresh state: tracking, with both sets empty.
    fn default() -> (s: Self)
        ensures
            s.wf(),
            s@ == empty_tracking(),
    {
        ServerState::Tracking(FileSystemChanges::new())
    }
}

/// A count of each set's size, mirroring the tracker state.
#[derive(Debug, PartialEq, Eq)]
pub struct FileSystemChangeStats {
    /// Size of the `removed` set.
    pub removed: usize,
    /// Size of the `new` set.
    pub new: usize,
}

/// A read-only snapshot of the tracker state for the stats endpoint.
#[derive(Debug, PartialEq, Eq)]
pub enum ServerStats {
    /// Tracking, with the two set sizes.
    Tracking(FileSystemChangeStats),
    /// The change-count ceiling was crossed.
    TooManyChanges,
    /// The event source reported degradation or an error.
    ChangesErroneousDropped,
}

impl ServerStats {
    /// Summarises a tracker state as the two set sizes or a sentinel.
    pub fn from_state(state: &ServerState) -> (r: Self)
        requires
            state.wf(),
        ensures
            state@ matches StateView::Tracking { new_paths, removed_paths } ==> (
                r matches ServerStats::Tracking(c) && c.new == new_paths.len() && c.removed
                    == removed_paths.len()),
            state@ is TooManyChanges ==> r is TooManyChanges,
            state@ is ChangesErroneousDropped ==> r is ChangesErroneousDropped,
    {
        match state {
            ServerState::Tracking(changes) => ServerStats::Tracking(
                FileSystemChangeStats {
                    removed: changes.removed.len(),
                    new: changes.new.len(),
                },
            ),
            ServerState::TooManyChanges => ServerStats::TooManyChanges,
            ServerState::ChangesErroneousDropped => ServerStats::ChangesErroneousDropped,
        }
    }
}

/// One page of drained paths, and whether the drained set is now empty.
#[derive(Debug, PartialEq, Eq)]
pub struct ReturnVal {
    /// The drained paths.
    pub paths: Vec<Vec<u8>>,
    /// True iff the set is empty after this drain.
    pub done: bool,
}

/// The response of a drain of the `new` set.
#[derive(Debug, PartialEq, Eq)]
pub enum ServerNewChangesResponse {
    /// A page of drained paths.
    New(ReturnVal),
    /// The change-count ceiling was crossed; rescan.
    TooManyChanges,
    /// The event source reported degradation or an error; rescan.
    ChangesErroneousDropped,
}

/// The response of a drain of the `removed` set.
#[derive(Debug, PartialEq, Eq)]
pub enum ServerRemoveChangesResponse {
    /// A page of drained paths.
    Removed(ReturnVal),
    /// The change-count ceiling was crossed; rescan.
    TooManyChanges,
    /// The event source reported degradation or an error; rescan.
    ChangesErroneousDropped,
}

/// The tracker: one state and the configured change-count ceiling.
pub struct ChangeTracker {
    state: ServerState,
    change_limit: usize,
}

impl View for ChangeTracker {
    type V = StateView;

    closed spec fn view(&self) -> StateView {
        self.state@
    }
}

impl ChangeTracker {
    /// The configured change-count ceiling.
    pub closed spec fn limit(&self) -> int {
        self.change_limit as int
    }

    /// Well-formedness: the backing sets are well formed and, while
    /// tracking, the total change count is within the ceiling.
    pub closed spec fn wf(&self) -> bool {
        self.state.wf() && bounded(self@, self.limit())
    }

    /// While the tracker is well formed, the ceiling holds of its view.
    pub proof fn lemma_bounded(&self)
        requires
            self.wf(),
        ensures
            bounded(self@, self.limit()),
    {
    }

    /// Creates a tracker with empty sets and the given ceiling.
    pub fn new(change_limit: usize) -> (t: Self)
        ensures
            t.wf(),
            t@ == empty_tracking(),
            t.limit() == change_limit,
    {
        ChangeTracker { state: ServerState::Tracking(FileSystemChanges::new()), change_limit }
    }

    /// Unconditionally restores the empty tracking state.
    pub fn reset(&mut self)
        ensures
            final(self).wf(),
            final(self)@ == empty_tracking(),
            final(self).limit() == old(self).limit(),
    {
        self.state = ServerState::Tracking(FileSystemChanges::new());
    }

    /// Records that the event source dropped events, demanded a rescan, or
    /// failed: from any state, the tracker moves to the dropped sentinel.
    pub fn signal_degraded(&mut self)
        ensures
            final(self).wf(),
            final(self)@ == StateView::ChangesErroneousDropped,
            final(self).limit() == old(self).limit(),
    {
        self.state = ServerState::ChangesErroneousDropped;
    }

    /// Applies one raw event, exactly as the `step` transition states:
    /// sentinels absorb it; otherwise the sets are updated and the ceiling
    /// is enforced.
    pub fn apply_event(&mut self, kind: EventKind, paths: Vec<Vec<u8>>)
        requires
            old(self).wf(),
        ensures
            final(self).wf(),
            final(self).limit() == old(self).limit(),
            final(self)@ == step(old(self)@, old(self).limit(), kind, path_views(paths@)),
    {
        let tracking = match &self.state {
            ServerState::Tracking(_) => true,
            _ => false,
        };
        if !tracking {
            return ;
        }
        let mut st = ServerState::TooManyChanges;
        core::mem::swap(&mut st, &mut self.state);
        match st {
            ServerState::Tracking(changes) => {
                let mut changes = changes;
                changes.apply(kind, paths);
                if changes.exceeds(self.change_limit) {
                    // The offending paths were already applied; on entry to
                    // the sentinel the whole pair of sets is discarded.
                    self.state = ServerState::TooManyChanges;
                } else {
                    self.state = ServerState::Tracking(changes);
                }
            },
            ServerState::TooManyChanges => {
                proof {
                    assert(false);
                }
                self.state = ServerState::TooManyChanges;
            },
            ServerState::ChangesErroneousDropped => {
                proof {
                    assert(false);
                }
                self.state = ServerState::ChangesErroneousDropped;
            },
        }
    }

    /// Summarises the current state for the stats endpoint.
    pub fn stats(&self) -> (r: ServerStats)
        requires
            self.wf(),
        ensures
            self@ matches StateView::Tracking { new_paths, removed_paths } ==> (
                r matches ServerStats::Tracking(c) && c.new == new_paths.len() && c.removed
                    == removed_paths.len()),
            self@ is TooManyChanges ==> r is TooManyChanges,
            self@ is ChangesErroneousDropped ==> r is ChangesErroneousDropped,
    {
        ServerStats::from_state(&self.state)
    }

    /// Drains up to `size` paths (clamped to 1000) from the `new` set.
    /// In a sentinel state nothing changes and the sentinel is reported.
    pub fn drain_new(&mut self, size: usize) -> (r: ServerNewChangesResponse)
        requires
            old(self).wf(),
        ensures
            final(self).wf(),
            final(self).limit() == old(self).limit(),
            old(self)@ is TooManyChanges ==> r is TooManyChanges && final(self)@ == old(self)@,
            old(self)@ is ChangesErroneousDropped ==> r is ChangesErroneousDropped && final(self)@
                == old(self)@,
            old(self)@ matches StateView::Tracking { new_paths, removed_paths } ==> (
                r matches ServerNewChangesResponse::New(rv) && final(self)@ matches
                    StateView::Tracking { new_paths: n2, removed_paths: r2 } && r2 == removed_paths
                    && drain_ok(new_paths, n2, path_views(rv.paths@), rv.done, size as int)),
    {
        let mut st = ServerState::TooManyChanges;
        core::mem::swap(&mut st, &mut self.state);
        match st {
            ServerState::Tracking(changes) => {
                let mut changes = changes;
                let (paths, done) = changes.new.drain(size);
                self.state = ServerState::Tracking(changes);
                ServerNewChangesResponse::New(ReturnVal { paths, done })
            },
            ServerState::TooManyChanges => {
                self.state = ServerState::TooManyChanges;
                ServerNewChangesResponse::TooManyChanges
            },
            ServerState::ChangesErroneousDropped => {
                self.state = ServerState::ChangesErroneousDropped;
                ServerNewChangesResponse::ChangesErroneousDropped
            },
        }
    }

    /// Drains up to `size` paths (clamped to 1000) from the `removed` set.
    /// In a sentinel state nothing changes and the sentinel is reported.
    pub fn drain_removed(&mut self, size: usize) -> (r: ServerRemoveChangesResponse)
        requires
            old(self).wf(),
        ensures
            final(self).wf(),
            final(self).limit() == old(self).limit(),
            old(self)@ is TooManyChanges ==> r is TooManyChanges && final(self)@ == old(self)@,
            old(self)@ is ChangesErroneousDropped ==> r is ChangesErroneousDropped && final(self)@
                == old(self)@,
            old(self)@ matches StateView::Tracking { new_paths, removed_paths } ==> (
                r matches ServerRemoveChangesResponse::Removed(rv) && final(self)@ matches
                    StateView::Tracking { new_paths: n2, removed_paths: r2 } && n2 == new_paths
                    && drain_ok(removed_paths, r2, path_views(rv.paths@), rv.done, size as int)),
    {
        let mut st = ServerState::TooManyChanges;
        core::mem::swap(&mut st, &mut self.state);
        match st {
            ServerState::Tracking(changes) => {
                let mut changes = changes;
                let (paths, done) = changes.removed.drain(size);
                self.state = ServerState::Tracking(changes);
                ServerRemoveChangesResponse::Removed(ReturnVal { paths, done })
            },
            ServerState::TooManyChanges => {
                self.state = ServerState::TooManyChanges;
                ServerRemoveChangesResponse::TooManyChanges
            },
            ServerState::ChangesErroneousDropped => {
                self.state = ServerState::ChangesErroneousDropped;
                ServerRemoveChangesResponse::ChangesErroneousDropped
            },
        }
    }
}

} // verus!
