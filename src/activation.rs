use vstd::prelude::*;

use crate::unit::{is_root, root_units, Unit, UnitId};

verus! {

/// Where a unit stands in an activation run.
#[derive(PartialEq, Eq, Structural, Clone, Copy, Debug)]
pub enum UnitState {
    /// Not yet activated; may be picked when its prerequisites are started.
    Idle,
    /// Handed to a worker, which is running its activation.
    CheckedOut,
    /// Activated successfully: a member of the started set.
    Active,
    /// Its activation failed: it never joins the started set.
    Failed,
}

/// What the scheduler decided for the next pending identifier.
#[derive(PartialEq, Eq, Structural, Clone, Copy, Debug)]
pub enum Step {
    /// No identifier is pending.
    Empty,
    /// The identifier names no unit, or its unit is not idle: nothing to do.
    Skipped(UnitId),
    /// Some prerequisite of the unit is not started yet: it waits for a later push.
    Deferred(UnitId),
    /// The unit is checked out: the caller runs its activation, then reports
    /// the outcome with `complete`.
    Activate(UnitId),
}

/// The shared state of one activation run: the unit table with a state per
/// unit, the started set, the pid table and the identifiers waiting to be
/// examined.
pub struct Activation {
    units: Vec<Unit>,
    states: Vec<UnitState>,
    started: Vec<UnitId>,
    pids: Vec<Option<u32>>,
    pending: Vec<UnitId>,
}

/// Every identifier in the `after` set of `units[v]` is in `started`.
pub open spec fn deps_in(units: Seq<Unit>, v: int, started: Seq<UnitId>) -> bool {
    forall|j: int|
        0 <= j < units[v].after@.len() ==> #[trigger] started.contains(units[v].after@[j])
}

/// The `after` and `before` sets mirror each other: whenever `x` must start
/// before `v`, `v` is among the units that `x` unblocks.
pub open spec fn mirrored(units: Seq<Unit>) -> bool {
    forall|v: int, j: int|
        0 <= v < units.len() && 0 <= j < units[v].after@.len() && #[trigger] units[v].after@[j]
            < units.len() ==> units[units[v].after@[j] as int].before@.contains(v as usize)
}

/// Appends the identifiers of `src` to `dst`, in order.
fn append_ids(dst: &mut Vec<UnitId>, src: &Vec<UnitId>)
    ensures
        final(dst)@ == old(dst)@ + src@,
{
    let mut j: usize = 0;
    while j < src.len()
        invariant
            j <= src@.len(),
            dst@ == old(dst)@ + src@.subrange(0, j as int),
        decreases src@.len() - j,
    {
        dst.push(src[j]);
        j = j + 1;
        assert(src@.subrange(0, j as int) == src@.subrange(0, j - 1).push(src@[j - 1]));
    }
    assert(src@.subrange(0, src@.len() as int) == src@);
}

/// `rank` orders the dependency graph: every prerequisite names a unit of the
/// table and has a lower rank than the unit that needs it, so the graph has no
/// cycle.
pub open spec fn ranked(units: Seq<Unit>, rank: Seq<nat>) -> bool {
    &&& rank.len() == units.len()
    &&& forall|v: int, j: int|
        0 <= v < units.len() && 0 <= j < units[v].after@.len() ==> #[trigger] units[v].after@[j]
            < units.len() && rank[units[v].after@[j] as int] < rank[v]
}

/// The unit `v` depends on the unit `u` through a chain of `k` prerequisite
/// edges (`k == 0`: `v` is `u`).
pub open spec fn depends_on(units: Seq<Unit>, v: int, u: int, k: nat) -> bool
    decreases k,
{
    if k == 0 {
        v == u
    } else {
        0 <= v < units.len() && exists|j: int|
            0 <= j < units[v].after@.len() && depends_on(
                units,
                units[v].after@[j] as int,
                u,
                (k - 1) as nat,
            )
    }
}

impl Activation {
    /// The unit table.
    pub closed spec fn units_view(&self) -> Seq<Unit> {
        self.units@
    }

    /// The state of each unit, by identifier.
    pub closed spec fn states_view(&self) -> Seq<UnitState> {
        self.states@
    }

    /// The state of the unit `i`.
    pub open spec fn state_of(&self, i: int) -> UnitState {
        self.states_view()[i]
    }

    /// The started set, in order of activation.
    pub closed spec fn started_view(&self) -> Seq<UnitId> {
        self.started@
    }

    /// The pid table, as a map from identifier to process id.
    pub closed spec fn pid_map(&self) -> Map<UnitId, u32> {
        Map::new(
            |i: UnitId| i < self.pids@.len() && self.pids@[i as int].is_some(),
            |i: UnitId| self.pids@[i as int].unwrap(),
        )
    }

    /// The identifiers waiting to be examined.
    pub closed spec fn pending_view(&self) -> Seq<UnitId> {
        self.pending@
    }

    /// No identifier is pending and no unit is checked out.
    pub open spec fn quiescent(&self) -> bool {
        &&& self.pending_view().len() == 0
        &&& forall|i: int| 0 <= i < self.units_view().len() ==> self.state_of(i) != UnitState::CheckedOut
    }

    /// The run's invariant: one state per unit, and the rest of the agreement
    /// between the tables.
    pub open spec fn wf(&self) -> bool {
        &&& self.states_view().len() == self.units_view().len()
        &&& self.inv()
    }

    /// The agreement between the tables, and the pending list holding every
    /// idle unit whose prerequisites are all started (when `after` and
    /// `before` mirror each other).
    pub closed spec fn inv(&self) -> bool {
        &&& self.tables_ok()
        &&& mirrored(self.units@) ==> forall|v: int|
            0 <= v < self.units@.len() && self.states@[v] == UnitState::Idle && deps_in(
                self.units@,
                v,
                self.started@,
            ) ==> #[trigger] self.pending@.contains(v as usize)
    }

    /// How the unit table, the states, the started set and the pid table agree.
    closed spec fn tables_ok(&self) -> bool {
        let n = self.units@.len();
        &&& self.states@.len() == n
        &&& self.pids@.len() == n
        &&& self.started@.no_duplicates()
        &&& forall|k: int| 0 <= k < self.started@.len() ==> self.started@[k] < n
        &&& forall|i: int| 0 <= i < n ==> (self.states@[i] == UnitState::Active
            <==> self.started@.contains(i as usize))
        &&& forall|i: int| 0 <= i < n ==> (self.pids@[i].is_some()
            <==> self.states@[i] == UnitState::Active)
        &&& forall|i: int|
            0 <= i < n && (self.states@[i] == UnitState::Active || self.states@[i]
                == UnitState::CheckedOut) ==> deps_in(self.units@, i, self.started@)
    }

    /// Starts a run over `units`: every unit idle, the started set and the pid
    /// table empty, and the root units (those with an empty `after` set) pending.
    pub fn new(units: Vec<Unit>) -> (r: Activation)
        ensures
            r.wf(),
            r.units_view() == units@,
            forall|i: int| 0 <= i < units@.len() ==> r.state_of(i) == UnitState::Idle,
            r.started_view().len() == 0,
            r.pid_map().dom().is_empty(),
            forall|k: int| 0 <= k < r.pending_view().len() ==> is_root(units@, r.pending_view()[k] as int),
            forall|k: int, l: int|
                0 <= k < l < r.pending_view().len() ==> r.pending_view()[k] < r.pending_view()[l],
            forall|i: int| is_root(units@, i) ==> r.pending_view().contains(i as usize),
    {
        let pending = root_units(&units);
        let mut states: Vec<UnitState> = Vec::new();
        let mut pids: Vec<Option<u32>> = Vec::new();
        let mut i: usize = 0;
        while i < units.len()
            invariant
                i <= units@.len(),
                states@.len() == i,
                pids@.len() == i,
                forall|j: int| 0 <= j < i ==> states@[j] == UnitState::Idle,
                forall|j: int| 0 <= j < i ==> pids@[j].is_none(),
            decreases units@.len() - i,
        {
            states.push(UnitState::Idle);
            pids.push(None);
            i = i + 1;
        }
        let r = Activation { units, states, started: Vec::new(), pids, pending };
        assert forall|v: int|
            0 <= v < r.units@.len() && r.states@[v] == UnitState::Idle && deps_in(r.units@, v, r.started@)
                implies #[trigger] r.pending@.contains(v as usize) by {
            if r.units@[v].after@.len() > 0 {
                assert(r.started@.contains(r.units@[v].after@[0]));
            }
            assert(is_root(r.units@, v));
        }
        assert(r.pid_map().dom() =~= Set::empty());
        r
    }

    /// Whether every prerequisite of the unit `id` is in the started set.
    fn deps_started(&self, id: UnitId) -> (r: bool)
        requires
            self.tables_ok(),
            id < self.units@.len(),
        ensures
            r == deps_in(self.units@, id as int, self.started@),
    {
        let after = &self.units[id].after;
        let mut j: usize = 0;
        while j < after.len()
            invariant
                self.tables_ok(),
                id < self.units@.len(),
                after@ == self.units@[id as int].after@,
                j <= after@.len(),
                forall|k: int| 0 <= k < j ==> #[trigger] self.started@.contains(after@[k]),
            decreases after@.len() - j,
        {
            let d = after[j];
            if d >= self.states.len() || self.states[d] != UnitState::Active {
                proof {
                    if self.started@.contains(d) {
                        let k = choose|k: int| 0 <= k < self.started@.len() && self.started@[k] == d;
                        assert(self.started@[k] < self.units@.len());
                    }
                }
                return false;
            }
            j = j + 1;
        }
        true
    }

    /// Takes the last pending identifier and decides what to do with it. A unit
    /// is checked out only when it is idle and all of its prerequisites are in
    /// the started set; otherwise nothing changes but the pending list.
    pub fn next_step(&mut self) -> (r: Step)
        requires
            old(self).wf(),
        ensures
            final(self).wf(),
            final(self).units_view() == old(self).units_view(),
            final(self).started_view() == old(self).started_view(),
            final(self).pid_map() == old(self).pid_map(),
            forall|i: int|
                0 <= i < old(self).units_view().len() && final(self).state_of(i) == UnitState::Idle
                    ==> old(self).state_of(i) == UnitState::Idle,
            old(self).pending_view().len() == 0 ==> r == Step::Empty
                && final(self).pending_view() == old(self).pending_view()
                && final(self).states_view() == old(self).states_view(),
            old(self).pending_view().len() > 0 ==> ({
                let id = old(self).pending_view().last();
                let n = old(self).units_view().len();
                &&& final(self).pending_view() == old(self).pending_view().drop_last()
                &&& (id >= n || old(self).state_of(id as int) != UnitState::Idle) ==> r
                    == Step::Skipped(id) && final(self).states_view() == old(self).states_view()
                &&& (id < n && old(self).state_of(id as int) == UnitState::Idle && !deps_in(
                    old(self).units_view(),
                    id as int,
                    old(self).started_view(),
                )) ==> r == Step::Deferred(id) && final(self).states_view() == old(
                    self,
                ).states_view()
                &&& (id < n && old(self).state_of(id as int) == UnitState::Idle && deps_in(
                    old(self).units_view(),
                    id as int,
                    old(self).started_view(),
                )) ==> r == Step::Activate(id) && final(self).states_view() == old(
                    self,
                ).states_view().update(id as int, UnitState::CheckedOut)
            }),
    {
        let ghost p0 = self.pending@;
        match self.pending.pop() {
            None => Step::Empty,
            Some(id) => {
                assert forall|x: UnitId| #[trigger] p0.contains(x) && x != id implies self.pending@.contains(x) by {
                    let k = choose|k: int| 0 <= k < p0.len() && p0[k] == x;
                    assert(self.pending@[k] == x);
                }
                let r = if id >= self.units.len() || self.states[id] != UnitState::Idle {
                    Step::Skipped(id)
                } else if !self.deps_started(id) {
                    Step::Deferred(id)
                } else {
                    self.states.set(id, UnitState::CheckedOut);
                    Step::Activate(id)
                };
                assert(self.tables_ok());
                assert forall|v: int|
                    mirrored(self.units@) && 0 <= v < self.units@.len() && self.states@[v]
                        == UnitState::Idle && deps_in(self.units@, v, self.started@)
                        implies #[trigger] self.pending@.contains(v as usize) by {
                    assert(p0.contains(v as usize));
                }
                r
            },
        }
    }

    /// Reports the outcome of the activation of the checked-out unit `id`:
    /// `Some(pid)` when it succeeded, `None` when it failed. On success the
    /// unit joins the started set, its process id enters the pid table and its
    /// `before` set is pushed as pending; on failure it is marked failed and
    /// nothing is pushed. Returns false, changing nothing, when `id` is not
    /// checked out.
    pub fn complete(&mut self, id: UnitId, outcome: Option<u32>) -> (r: bool)
        requires
            old(self).wf(),
        ensures
            final(self).wf(),
            final(self).units_view() == old(self).units_view(),
            r == (id < old(self).units_view().len() && old(self).state_of(id as int)
                == UnitState::CheckedOut),
            forall|i: int|
                0 <= i < old(self).units_view().len() && final(self).state_of(i) == UnitState::Idle
                    ==> old(self).state_of(i) == UnitState::Idle,
            !r ==> final(self).states_view() == old(self).states_view()
                && final(self).started_view() == old(self).started_view()
                && final(self).pid_map() == old(self).pid_map()
                && final(self).pending_view() == old(self).pending_view(),
            r && outcome.is_some() ==> final(self).states_view() == old(self).states_view().update(
                id as int,
                UnitState::Active,
            ) && final(self).started_view() == old(self).started_view().push(id)
                && final(self).pid_map() == old(self).pid_map().insert(id, outcome.unwrap())
                && final(self).pending_view() == old(self).pending_view() + old(
                self,
            ).units_view()[id as int].before@,
            r && outcome.is_none() ==> final(self).states_view() == old(self).states_view().update(
                id as int,
                UnitState::Failed,
            ) && final(self).started_view() == old(self).started_view()
                && final(self).pid_map() == old(self).pid_map()
                && final(self).pending_view() == old(self).pending_view(),
    {
        if id >= self.units.len() || self.states[id] != UnitState::CheckedOut {
            return false;
        }
        let ghost s0 = self.started@;
        let ghost p0 = self.pending@;
        let ghost m0 = self.pid_map();
        match outcome {
            Some(pid) => {
                self.states.set(id, UnitState::Active);
                self.started.push(id);
                self.pids.set(id, Some(pid));
                append_ids(&mut self.pending, &self.units[id].before);
                proof {
                    assert forall|x: UnitId| #[trigger] s0.contains(x) implies self.started@.contains(x) by {
                        let k = choose|k: int| 0 <= k < s0.len() && s0[k] == x;
                        assert(self.started@[k] == x);
                    }
                    assert(self.started@[s0.len() as int] == id);
                    assert forall|x: UnitId| #[trigger] self.started@.contains(x) implies s0.contains(x) || x == id by {
                        let k = choose|k: int| 0 <= k < self.started@.len() && self.started@[k] == x;
                        if k < s0.len() {
                            assert(s0[k] == x);
                        }
                    }
                    assert forall|x: UnitId| #[trigger] p0.contains(x) implies self.pending@.contains(x) by {
                        let k = choose|k: int| 0 <= k < p0.len() && p0[k] == x;
                        assert(self.pending@[k] == x);
                    }
                    let before = self.units@[id as int].before@;
                    assert forall|x: UnitId| #[trigger] before.contains(x) implies self.pending@.contains(x) by {
                        let k = choose|k: int| 0 <= k < before.len() && before[k] == x;
                        assert(self.pending@[p0.len() + k] == x);
                    }
                    assert forall|i: int|
                        0 <= i < self.units@.len() && (self.states@[i] == UnitState::Active
                            || self.states@[i] == UnitState::CheckedOut) implies deps_in(
                        self.units@,
                        i,
                        self.started@,
                    ) by {
                        assert(old(self).states@[i] == UnitState::Active || old(self).states@[i]
                            == UnitState::CheckedOut);
                        assert(deps_in(self.units@, i, s0));
                        assert forall|j: int| 0 <= j < self.units@[i].after@.len() implies
                            #[trigger] self.started@.contains(self.units@[i].after@[j]) by {
                            assert(s0.contains(self.units@[i].after@[j]));
                        }
                    }
                    assert forall|v: int|
                        mirrored(self.units@) && 0 <= v < self.units@.len() && self.states@[v]
                            == UnitState::Idle && deps_in(self.units@, v, self.started@)
                            implies #[trigger] self.pending@.contains(v as usize) by {
                        if deps_in(self.units@, v, s0) {
                            assert(p0.contains(v as usize));
                        } else {
                            let j = choose|j: int|
                                0 <= j < self.units@[v].after@.len() && !s0.contains(
                                    self.units@[v].after@[j],
                                );
                            assert(self.started@.contains(self.units@[v].after@[j]));
                            assert(self.units@[v].after@[j] == id);
                            assert(before.contains(v as usize));
                        }
                    }
                    assert(self.pid_map() =~= m0.insert(id, pid));
                }
            },
            None => {
                self.states.set(id, UnitState::Failed);
                proof {
                    assert forall|v: int|
                        mirrored(self.units@) && 0 <= v < self.units@.len() && self.states@[v]
                            == UnitState::Idle && deps_in(self.units@, v, self.started@)
                            implies #[trigger] self.pending@.contains(v as usize) by {
                        assert(v != id);
                    }
                }
            },
        }
        true
    }

    /// Whether the run is over: nothing pending and no unit checked out.
    pub fn is_done(&self) -> (r: bool)
        requires
            self.wf(),
        ensures
            r == self.quiescent(),
    {
        if self.pending.len() > 0 {
            return false;
        }
        let mut i: usize = 0;
        while i < self.states.len()
            invariant
                self.wf(),
                self.pending@.len() == 0,
                i <= self.states@.len(),
                forall|j: int| 0 <= j < i ==> self.states@[j] != UnitState::CheckedOut,
            decreases self.states@.len() - i,
        {
            if self.states[i] == UnitState::CheckedOut {
                assert(self.state_of(i as int) == UnitState::CheckedOut);
                return false;
            }
            i = i + 1;
        }
        true
    }

    /// Whether some identifier is pending.
    pub fn has_pending(&self) -> (r: bool)
        ensures
            r == (self.pending_view().len() > 0),
    {
        self.pending.len() > 0
    }

    /// The number of units in the table.
    pub fn unit_count(&self) -> (r: usize)
        ensures
            r == self.units_view().len(),
    {
        self.units.len()
    }

    /// The unit `id` of the table.
    pub fn unit(&self, id: UnitId) -> (r: &Unit)
        requires
            id < self.units_view().len(),
        ensures
            *r == self.units_view()[id as int],
    {
        &self.units[id]
    }

    /// The state of the unit `id`.
    pub fn state(&self, id: UnitId) -> (r: UnitState)
        requires
            id < self.units_view().len(),
            self.wf(),
        ensures
            r == self.state_of(id as int),
    {
        self.states[id]
    }

    /// Whether `id` is in the started set.
    pub fn is_started(&self, id: UnitId) -> (r: bool)
        requires
            self.wf(),
        ensures
            r == self.started_view().contains(id),
    {
        if id < self.states.len() && self.states[id] == UnitState::Active {
            true
        } else {
            proof {
                if self.started@.contains(id) {
                    let k = choose|k: int| 0 <= k < self.started@.len() && self.started@[k] == id;
                    assert(self.started@[k] < self.units@.len());
                }
            }
            false
        }
    }

    /// The started set, in order of activation.
    pub fn started(&self) -> (r: &Vec<UnitId>)
        ensures
            r@ == self.started_view(),
    {
        &self.started
    }

    /// The process id recorded for `id`, if any.
    pub fn pid(&self, id: UnitId) -> (r: Option<u32>)
        requires
            self.wf(),
        ensures
            r == (if self.pid_map().dom().contains(id) {
                Some(self.pid_map()[id])
            } else {
                None
            }),
    {
        if id < self.pids.len() {
            self.pids[id]
        } else {
            None
        }
    }

    /// The pid table, one entry per identifier: the process id of each unit
    /// that was activated, `None` for the others.
    pub fn into_pid_table(self) -> (r: Vec<Option<u32>>)
        requires
            self.wf(),
        ensures
            r@.len() == self.units_view().len(),
            forall|i: int|
                0 <= i < r@.len() ==> (r@[i] == if self.pid_map().dom().contains(i as usize) {
                    Some(self.pid_map()[i as usize])
                } else {
                    None
                }),
    {
        assert forall|i: int| 0 <= i < self.pids@.len() implies (self.pids@[i] == if self.pid_map().dom().contains(i as usize) {
            Some(self.pid_map()[i as usize])
        } else {
            None
        }) by {
            assert((i as usize) as int == i);
        }
        self.pids
    }

    /// When a run is over, every unit whose prerequisites are all in the
    /// started set was attempted: it is active (started, exactly once) or its
    /// own activation failed. The started set holds no identifier twice.
    pub proof fn lemma_quiescent_run_is_complete(&self)
        requires
            self.wf(),
            self.quiescent(),
            mirrored(self.units_view()),
        ensures
            self.started_view().no_duplicates(),
            forall|v: int|
                0 <= v < self.units_view().len() && deps_in(self.units_view(), v, self.started_view())
                    ==> self.state_of(v) == UnitState::Active || self.state_of(v) == UnitState::Failed,
            forall|v: int|
                0 <= v < self.units_view().len() ==> (self.state_of(v) == UnitState::Active
                    <==> self.started_view().contains(v as usize)),
    {
        assert forall|v: int|
            0 <= v < self.units_view().len() && deps_in(self.units_view(), v, self.started_view())
                implies self.state_of(v) == UnitState::Active || self.state_of(v) == UnitState::Failed by {
            if self.states@[v] == UnitState::Idle {
                assert(self.pending@.contains(v as usize));
            }
            assert(self.states@[v] != UnitState::CheckedOut);
        }
    }

    /// When a run over a dependency graph without cycles, whose prerequisites
    /// all name units of the table, is over and no activation failed, every
    /// unit is in the started set.
    pub proof fn lemma_quiescent_run_starts_all(&self, rank: Seq<nat>)
        requires
            self.wf(),
            self.quiescent(),
            mirrored(self.units_view()),
            ranked(self.units_view(), rank),
            forall|v: int| 0 <= v < self.units_view().len() ==> self.state_of(v) != UnitState::Failed,
        ensures
            forall|v: int| 0 <= v < self.units_view().len() ==> #[trigger] self.started_view().contains(v as usize),
    {
        self.lemma_quiescent_run_is_complete();
        assert forall|v: int| 0 <= v < self.units_view().len() implies #[trigger] self.started_view().contains(v as usize) by {
            self.lemma_started_by_rank(rank, v as usize);
        }
    }

    proof fn lemma_started_by_rank(&self, rank: Seq<nat>, v: UnitId)
        requires
            self.wf(),
            self.quiescent(),
            mirrored(self.units_view()),
            ranked(self.units_view(), rank),
            forall|w: int| 0 <= w < self.units_view().len() ==> self.state_of(w) != UnitState::Failed,
            v < self.units_view().len(),
        ensures
            self.started_view().contains(v),
        decreases rank[v as int],
    {
        assert forall|j: int| 0 <= j < self.units@[v as int].after@.len() implies
            #[trigger] self.started@.contains(self.units@[v as int].after@[j]) by {
            let d = self.units@[v as int].after@[j];
            let units = self.units_view();
            assert(units[v as int].after@[j] < units.len() && rank[units[v as int].after@[j] as int] < rank[v as int]);
            self.lemma_started_by_rank(rank, d);
        }
        assert(deps_in(self.units@, v as int, self.started@));
        self.lemma_quiescent_run_is_complete();
        assert(self.state_of(v as int) == UnitState::Active);
    }

    /// A unit whose activation failed keeps every unit that depends on it,
    /// directly or through other units, out of the started set.
    pub proof fn lemma_failure_blocks_dependents(&self, u: int, v: int, k: nat)
        requires
            self.wf(),
            0 <= u < self.units_view().len(),
            self.state_of(u) == UnitState::Failed,
            depends_on(self.units_view(), v, u, k),
        ensures
            !self.started_view().contains(v as usize),
        decreases k,
    {
        if k == 0 {
            if self.started@.contains(v as usize) {
                assert(self.states@[u] == UnitState::Active);
            }
        } else {
            let j = choose|j: int|
                0 <= j < self.units@[v].after@.len() && depends_on(
                    self.units@,
                    self.units@[v].after@[j] as int,
                    u,
                    (k - 1) as nat,
                );
            let d = self.units@[v].after@[j];
            self.lemma_failure_blocks_dependents(u, d as int, (k - 1) as nat);
            if self.started@.contains(v as usize) {
                let i = choose|i: int| 0 <= i < self.started@.len() && self.started@[i] == v as usize;
                assert(self.started@[i] < self.units@.len());
                assert(self.states@[v] == UnitState::Active);
                assert(self.started@.contains(d));
            }
        }
    }

    /// The keys of the pid table are exactly the members of the started set.
    pub proof fn lemma_pid_keys_are_started(&self)
        requires
            self.wf(),
        ensures
            self.pid_map().dom() == self.started_view().to_set(),
    {
        assert forall|x: UnitId| #[trigger] self.started@.contains(x) implies x < self.units@.len() by {
            let k = choose|k: int| 0 <= k < self.started@.len() && self.started@[k] == x;
        }
        assert forall|x: UnitId| self.pid_map().dom().contains(x) <==> #[trigger] self.started@.to_set().contains(x) by {
            if x < self.units@.len() {
                assert(self.states@[x as int] == UnitState::Active <==> self.started@.contains(x));
            }
        }
        assert(self.pid_map().dom() =~= self.started_view().to_set());
    }
}

} // verus!
