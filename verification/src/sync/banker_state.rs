//! The abstract model of the deadlock detector: its state as sequences, the
//! invariant every operation keeps, the safe-state predicate, the effect of each
//! operation, and the laws that relate them.
use vstd::prelude::*;

verus! {

/// The abstract state of a [`Banker`]: every table as a sequence.
///
/// Resource `r` is the `r`-th slot of `resources`; task `t` is the `t`-th row of
/// `max`, `allocated` and `need`.
pub struct BankerState<R> {
    pub resources: Seq<Option<R>>,
    pub recycle: Seq<usize>,
    pub num_tasks: nat,
    pub max: Seq<Seq<usize>>,
    pub allocated: Seq<Seq<usize>>,
    pub available: Seq<usize>,
    pub need: Seq<Seq<usize>>,
}

impl<R> BankerState<R> {
    /// Number of resource slots (free or in use).
    pub open spec fn num_resources(self) -> nat {
        self.resources.len()
    }

    /// Shapes of the tables agree with the number of tasks and resource slots.
    pub open spec fn shaped(self) -> bool {
        &&& self.max.len() == self.num_tasks
        &&& self.allocated.len() == self.num_tasks
        &&& self.need.len() == self.num_tasks
        &&& self.available.len() == self.num_resources()
        &&& forall|t: int| 0 <= t < self.num_tasks ==> #[trigger] self.max[t].len() == self.num_resources()
        &&& forall|t: int|
            0 <= t < self.num_tasks ==> #[trigger] self.allocated[t].len() == self.num_resources()
        &&& forall|t: int| 0 <= t < self.num_tasks ==> #[trigger] self.need[t].len() == self.num_resources()
    }

    /// What a task still needs is what it declared minus what it holds.
    pub open spec fn need_consistent(self) -> bool {
        forall|t: int, r: int|
            0 <= t < self.num_tasks && 0 <= r < self.num_resources() ==> #[trigger] self.need[t][r]
                + self.allocated[t][r] == self.max[t][r]
    }

    /// The recycle queue holds exactly the free slots, each once.
    pub open spec fn recycle_consistent(self) -> bool {
        &&& self.recycle.no_duplicates()
        &&& forall|i: int|
            0 <= i < self.recycle.len() ==> #[trigger] self.recycle[i] < self.num_resources()
                && self.resources[self.recycle[i] as int] is None
        &&& forall|r: usize|
            r < self.num_resources() && #[trigger] self.resources[r as int] is None
                ==> self.recycle.contains(r)
    }

    /// A free slot holds nothing: no units available, declared or held.
    pub open spec fn free_slots_empty(self) -> bool {
        forall|r: int|
            0 <= r < self.num_resources() && #[trigger] self.resources[r] is None ==> {
                &&& self.available[r] == 0
                &&& forall|t: int|
                    0 <= t < self.num_tasks ==> #[trigger] self.max[t][r] == 0
                        && self.allocated[t][r] == 0 && self.need[t][r] == 0
            }
    }

    /// Some slot holds resource `res`.
    pub open spec fn has_resource(self, res: R) -> bool {
        position_of(self.resources, res) is Some
    }

    /// The first slot holding resource `res`.
    pub open spec fn slot_of(self, res: R) -> int {
        position_of(self.resources, res)->0
    }

    /// Task `t` declares that it needs `amount` more units of resource `r`.
    pub open spec fn declare(self, t: int, r: int, amount: int) -> Self {
        BankerState {
            max: bump(self.max, t, r, amount),
            need: bump(self.need, t, r, amount),
            ..self
        }
    }

    /// Task `t` is handed `amount` units of resource `r`.
    pub open spec fn grant(self, t: int, r: int, amount: int) -> Self {
        BankerState {
            allocated: bump(self.allocated, t, r, amount),
            available: self.available.update(r, (self.available[r] - amount) as usize),
            need: bump(self.need, t, r, -amount),
            ..self
        }
    }

    /// Task `t` gives back `amount` units of resource `r` that it holds, and no
    /// longer claims them.
    pub open spec fn release(self, t: int, r: int, amount: int) -> Self {
        BankerState {
            allocated: bump(self.allocated, t, r, -amount),
            available: self.available.update(r, (self.available[r] + amount) as usize),
            max: bump(self.max, t, r, -amount),
            ..self
        }
    }

    /// `amount` new units of resource `r` become available.
    pub open spec fn supply(self, r: int, amount: int) -> Self {
        BankerState {
            available: self.available.update(r, (self.available[r] + amount) as usize),
            ..self
        }
    }

    /// The detector grown to `n` tasks; the new tasks declare, hold and need nothing.
    pub open spec fn with_tasks(self, n: nat) -> Self {
        let fresh = Seq::new((n - self.num_tasks) as nat, |i: int| zero_row(self.num_resources()));
        BankerState {
            num_tasks: n,
            max: self.max + fresh,
            allocated: self.allocated + fresh,
            need: self.need + fresh,
            ..self
        }
    }

    /// Task `t` forgotten: it declares, holds and needs nothing any more.
    pub open spec fn clear_task(self, t: int) -> Self {
        BankerState {
            max: self.max.update(t, zero_row(self.num_resources())),
            allocated: self.allocated.update(t, zero_row(self.num_resources())),
            need: self.need.update(t, zero_row(self.num_resources())),
            ..self
        }
    }

    /// Resource `res` with `total` units placed in the free slot at the front of the
    /// recycle queue.
    pub open spec fn reuse_slot(self, res: R, total: usize) -> Self {
        let id = self.recycle[0] as int;
        BankerState {
            resources: self.resources.update(id, Some(res)),
            recycle: self.recycle.drop_first(),
            available: self.available.update(id, total),
            ..self
        }
    }

    /// Resource `res` with `total` units placed in a new slot after the others.
    pub open spec fn append_slot(self, res: R, total: usize) -> Self {
        BankerState {
            resources: self.resources.push(Some(res)),
            available: self.available.push(total),
            max: push_zero_column(self.max),
            allocated: push_zero_column(self.allocated),
            need: push_zero_column(self.need),
            ..self
        }
    }

    /// Slot `r` freed: emptied, cleared in every table, and queued for reuse.
    pub open spec fn free_slot(self, r: usize) -> Self {
        BankerState {
            resources: self.resources.update(r as int, None),
            recycle: self.recycle.push(r),
            available: self.available.update(r as int, 0usize),
            max: zero_column(self.max, r as int),
            allocated: zero_column(self.allocated, r as int),
            need: zero_column(self.need, r as int),
            ..self
        }
    }

    /// All units of resource `r` in the system: those available plus those held.
    pub open spec fn total_units(self, r: int) -> int {
        self.available[r] + self.held_by(Set::full(), r, self.num_tasks as int)
    }

    /// Units of resource `r` held by those tasks of `done` that are numbered below `k`.
    pub open spec fn held_by(self, done: Set<int>, r: int, k: int) -> int
        decreases k,
    {
        if k <= 0 {
            0
        } else {
            self.held_by(done, r, k - 1) + if done.contains(k - 1) {
                self.allocated[k - 1][r] as int
            } else {
                0
            }
        }
    }

    /// Units of resource `r` free once every task of `done` has run to completion
    /// and given back what it holds.
    pub open spec fn work(self, done: Set<int>, r: int) -> int {
        self.available[r] + self.held_by(done, r, self.num_tasks as int)
    }

    /// Task `t` can run to completion once the tasks of `done` have: what it still
    /// needs of every resource is at most what is then free.
    pub open spec fn can_finish(self, t: int, done: Set<int>) -> bool {
        forall|r: int|
            0 <= r < self.num_resources() ==> self.need[t][r] <= #[trigger] self.work(done, r)
    }

    /// `order` is a safe sequence: it lists every task exactly once, and each task
    /// can run to completion once the tasks listed before it have.
    pub open spec fn is_safe_sequence(self, order: Seq<int>) -> bool {
        &&& order.len() == self.num_tasks
        &&& order.no_duplicates()
        &&& forall|i: int| 0 <= i < order.len() ==> 0 <= #[trigger] order[i] < self.num_tasks
        &&& forall|i: int|
            0 <= i < order.len() ==> self.can_finish(#[trigger] order[i], order.take(i).to_set())
    }

    /// A state is safe when some safe sequence exists.
    pub open spec fn is_safe_state(self) -> bool {
        exists|order: Seq<int>| self.is_safe_sequence(order)
    }

    /// Adding a task to the finished set adds what it holds.
    pub proof fn lemma_held_by_insert(self, done: Set<int>, t: int, r: int, k: int)
        requires
            !done.contains(t),
        ensures
            self.held_by(done.insert(t), r, k) == self.held_by(done, r, k) + if 0 <= t < k {
                self.allocated[t][r] as int
            } else {
                0
            },
        decreases k,
    {
        if k > 0 {
            self.lemma_held_by_insert(done, t, r, k - 1);
        }
    }

    /// More finished tasks never hold fewer units.
    pub proof fn lemma_held_by_monotonic(self, small: Set<int>, large: Set<int>, r: int, k: int)
        requires
            small.subset_of(large),
        ensures
            self.held_by(small, r, k) <= self.held_by(large, r, k),
        decreases k,
    {
        if k > 0 {
            self.lemma_held_by_monotonic(small, large, r, k - 1);
        }
    }

    /// Tasks below `k` hold at most `k` times the largest machine word.
    pub proof fn lemma_held_by_bounded(self, done: Set<int>, r: int, k: int)
        requires
            0 <= k,
        ensures
            0 <= self.held_by(done, r, k) <= k * 0xffff_ffff_ffff_ffff,
        decreases k,
    {
        if k > 0 {
            self.lemma_held_by_bounded(done, r, k - 1);
        }
    }

    /// Nobody holds anything when nobody has finished.
    pub proof fn lemma_held_by_empty(self, r: int, k: int)
        ensures
            self.held_by(Set::empty(), r, k) == 0,
        decreases k,
    {
        if k > 0 {
            self.lemma_held_by_empty(r, k - 1);
        }
    }

    /// If fewer than all tasks have finished and none of the others can finish,
    /// no safe sequence exists.
    pub proof fn lemma_stuck_is_unsafe(self, done: Set<int>)
        requires
            done.finite(),
            done.len() < self.num_tasks,
            forall|t: int|
                0 <= t < self.num_tasks && !done.contains(t) ==> !self.can_finish(t, done),
        ensures
            !self.is_safe_state(),
    {
        broadcast use vstd::seq_lib::group_seq_properties;

        if self.is_safe_state() {
            let order = choose|o: Seq<int>| self.is_safe_sequence(o);
            order.unique_seq_to_set();
            if forall|i: int| 0 <= i < order.len() ==> done.contains(#[trigger] order[i]) {
                assert(order.to_set().subset_of(done));
                vstd::set_lib::lemma_len_subset(order.to_set(), done);
                assert(false);
            }
            let i = choose|i: int| 0 <= i < order.len() && !done.contains(#[trigger] order[i]);
            let k = first_outside(order, done, i);
            let prefix = order.take(k).to_set();
            assert(prefix.subset_of(done));
            let t = order[k];
            assert(self.can_finish(t, prefix));
            assert forall|r: int| 0 <= r < self.num_resources() implies self.need[t][r]
                <= #[trigger] self.work(done, r) by {
                assert(self.need[t][r] <= self.work(prefix, r));
                self.lemma_held_by_monotonic(prefix, done, r, self.num_tasks as int);
            }
            assert(self.can_finish(t, done));
            assert(false);
        }
    }

    /// Declaring more need keeps the detector well formed.
    pub proof fn lemma_declare_well_formed(self, t: int, r: int, amount: int)
        requires
            self.well_formed(),
            0 <= t < self.num_tasks,
            0 <= r < self.num_resources(),
            self.resources[r] is Some,
            0 <= amount,
            self.max[t][r] + amount <= usize::MAX,
        ensures
            self.declare(t, r, amount).well_formed(),
    {
        let next = self.declare(t, r, amount);
        assert(self.need[t][r] + self.allocated[t][r] == self.max[t][r]);
        assert forall|u: int, q: int|
            0 <= u < next.num_tasks && 0 <= q < next.num_resources() implies #[trigger] next.need[u][q]
            + next.allocated[u][q] == next.max[u][q] by {
            assert(self.need[u][q] + self.allocated[u][q] == self.max[u][q]);
        }
        assert forall|q: int|
            0 <= q < next.num_resources() && #[trigger] next.resources[q] is None implies {
            &&& next.available[q] == 0
            &&& forall|u: int|
                0 <= u < next.num_tasks ==> #[trigger] next.max[u][q] == 0 && next.allocated[u][q]
                    == 0 && next.need[u][q] == 0
        } by {
            assert forall|u: int| 0 <= u < next.num_tasks implies #[trigger] next.max[u][q] == 0
                && next.allocated[u][q] == 0 && next.need[u][q] == 0 by {
                assert(self.max[u][q] == 0);
            }
        }
    }

    /// Handing out units a task still needs keeps the detector well formed.
    pub proof fn lemma_grant_well_formed(self, t: int, r: int, amount: int)
        requires
            self.well_formed(),
            0 <= t < self.num_tasks,
            0 <= r < self.num_resources(),
            self.resources[r] is Some,
            0 <= amount,
            amount <= self.available[r],
            amount <= self.need[t][r],
        ensures
            self.grant(t, r, amount).well_formed(),
    {
        let next = self.grant(t, r, amount);
        assert(self.need[t][r] + self.allocated[t][r] == self.max[t][r]);
        assert forall|u: int, q: int|
            0 <= u < next.num_tasks && 0 <= q < next.num_resources() implies #[trigger] next.need[u][q]
            + next.allocated[u][q] == next.max[u][q] by {
            assert(self.need[u][q] + self.allocated[u][q] == self.max[u][q]);
        }
        assert forall|q: int|
            0 <= q < next.num_resources() && #[trigger] next.resources[q] is None implies {
            &&& next.available[q] == 0
            &&& forall|u: int|
                0 <= u < next.num_tasks ==> #[trigger] next.max[u][q] == 0 && next.allocated[u][q]
                    == 0 && next.need[u][q] == 0
        } by {
            assert forall|u: int| 0 <= u < next.num_tasks implies #[trigger] next.max[u][q] == 0
                && next.allocated[u][q] == 0 && next.need[u][q] == 0 by {
                assert(self.max[u][q] == 0);
            }
        }
    }

    /// Giving back held units keeps the detector well formed.
    pub proof fn lemma_release_well_formed(self, t: int, r: int, amount: int)
        requires
            self.well_formed(),
            0 <= t < self.num_tasks,
            0 <= r < self.num_resources(),
            self.resources[r] is Some,
            0 <= amount,
            amount <= self.allocated[t][r],
            self.available[r] + amount <= usize::MAX,
        ensures
            self.release(t, r, amount).well_formed(),
    {
        let next = self.release(t, r, amount);
        assert(self.need[t][r] + self.allocated[t][r] == self.max[t][r]);
        assert forall|u: int, q: int|
            0 <= u < next.num_tasks && 0 <= q < next.num_resources() implies #[trigger] next.need[u][q]
            + next.allocated[u][q] == next.max[u][q] by {
            assert(self.need[u][q] + self.allocated[u][q] == self.max[u][q]);
        }
        assert forall|q: int|
            0 <= q < next.num_resources() && #[trigger] next.resources[q] is None implies {
            &&& next.available[q] == 0
            &&& forall|u: int|
                0 <= u < next.num_tasks ==> #[trigger] next.max[u][q] == 0 && next.allocated[u][q]
                    == 0 && next.need[u][q] == 0
        } by {
            assert forall|u: int| 0 <= u < next.num_tasks implies #[trigger] next.max[u][q] == 0
                && next.allocated[u][q] == 0 && next.need[u][q] == 0 by {
                assert(self.max[u][q] == 0);
            }
        }
    }

    /// Growing the task tables with empty rows keeps the detector well formed.
    pub proof fn lemma_with_tasks_well_formed(self, n: nat)
        requires
            self.well_formed(),
            self.num_tasks <= n,
        ensures
            self.with_tasks(n).well_formed(),
    {
        let after = self.with_tasks(n);
        let m = self.num_resources();
        assert forall|u: int| 0 <= u < n implies {
            &&& #[trigger] after.max[u] == if u < self.num_tasks { self.max[u] } else { zero_row(m) }
            &&& after.allocated[u] == if u < self.num_tasks {
                self.allocated[u]
            } else {
                zero_row(m)
            }
            &&& after.need[u] == if u < self.num_tasks { self.need[u] } else { zero_row(m) }
        } by {}
        assert forall|u: int| 0 <= u < after.num_tasks implies #[trigger] after.max[u].len() == m
            && after.allocated[u].len() == m && after.need[u].len() == m by {
            assert(after.max[u] == if u < self.num_tasks { self.max[u] } else { zero_row(m) });
        }
        assert forall|u: int, q: int|
            0 <= u < after.num_tasks && 0 <= q < m implies #[trigger] after.need[u][q]
            + after.allocated[u][q] == after.max[u][q] by {
            assert(after.max[u] == if u < self.num_tasks { self.max[u] } else { zero_row(m) });
            if u < self.num_tasks {
                assert(self.need[u][q] + self.allocated[u][q] == self.max[u][q]);
            }
        }
        assert forall|q: int| 0 <= q < m && #[trigger] after.resources[q] is None implies {
            &&& after.available[q] == 0
            &&& forall|u: int|
                0 <= u < after.num_tasks ==> #[trigger] after.max[u][q] == 0 && after.allocated[u][q]
                    == 0 && after.need[u][q] == 0
        } by {
            assert(self.resources[q] is None);
            assert(after.available == self.available);
            assert(self.available[q] == 0);
            assert forall|u: int| 0 <= u < after.num_tasks implies #[trigger] after.max[u][q] == 0
                && after.allocated[u][q] == 0 && after.need[u][q] == 0 by {
                assert(after.max[u] == if u < self.num_tasks { self.max[u] } else { zero_row(m) });
                if u < self.num_tasks {
                    assert(self.max[u][q] == 0);
                }
            }
        }
        assert(after.shaped());
        assert(after.need_consistent());
        assert(after.recycle_consistent());
        assert(after.free_slots_empty());
    }

    /// Forgetting a task keeps the detector well formed.
    pub proof fn lemma_clear_task_well_formed(self, t: int)
        requires
            self.well_formed(),
            0 <= t < self.num_tasks,
        ensures
            self.clear_task(t).well_formed(),
    {
        let after = self.clear_task(t);
        assert forall|u: int, q: int|
            0 <= u < after.num_tasks && 0 <= q < after.num_resources() implies #[trigger] after.need[u][q]
            + after.allocated[u][q] == after.max[u][q] by {
            if u != t {
                assert(self.need[u][q] + self.allocated[u][q] == self.max[u][q]);
            }
        }
        assert forall|q: int|
            0 <= q < after.num_resources() && #[trigger] after.resources[q] is None implies {
            &&& after.available[q] == 0
            &&& forall|u: int|
                0 <= u < after.num_tasks ==> #[trigger] after.max[u][q] == 0 && after.allocated[u][q]
                    == 0 && after.need[u][q] == 0
        } by {
            assert(self.resources[q] is None);
            assert forall|u: int| 0 <= u < after.num_tasks implies #[trigger] after.max[u][q] == 0
                && after.allocated[u][q] == 0 && after.need[u][q] == 0 by {
                if u != t {
                    assert(self.max[u][q] == 0);
                }
            }
        }
    }

    /// Filling the oldest free slot keeps the detector well formed.
    pub proof fn lemma_reuse_slot_well_formed(self, res: R, total: usize)
        requires
            self.well_formed(),
            self.recycle.len() > 0,
        ensures
            self.reuse_slot(res, total).well_formed(),
    {
        let after = self.reuse_slot(res, total);
        let id = self.recycle[0] as int;
        assert(id < self.num_resources() && self.resources[id] is None);
        assert forall|i: int| 0 <= i < after.recycle.len() implies #[trigger] after.recycle[i]
            < after.num_resources() && after.resources[after.recycle[i] as int] is None by {
            assert(after.recycle[i] == self.recycle[i + 1]);
            assert(self.recycle[i + 1] < self.num_resources());
            assert(self.recycle[i + 1] != self.recycle[0]);
        }
        assert forall|r: usize|
            r < after.num_resources() && #[trigger] after.resources[r as int] is None implies after.recycle.contains(
            r,
        ) by {
            assert(self.resources[r as int] is None);
            assert(self.recycle.contains(r));
            let i = choose|i: int| 0 <= i < self.recycle.len() && self.recycle[i] == r;
            assert(i != 0);
            assert(after.recycle[i - 1] == r);
        }
        assert forall|q: int|
            0 <= q < after.num_resources() && #[trigger] after.resources[q] is None implies {
            &&& after.available[q] == 0
            &&& forall|u: int|
                0 <= u < after.num_tasks ==> #[trigger] after.max[u][q] == 0 && after.allocated[u][q]
                    == 0 && after.need[u][q] == 0
        } by {
            assert(self.resources[q] is None);
        }
        assert(after.shaped());
        assert(after.need_consistent());
        assert(after.recycle_consistent());
        assert(after.free_slots_empty());
    }

    /// Adding a slot after the others keeps the detector well formed.
    pub proof fn lemma_append_slot_well_formed(self, res: R, total: usize)
        requires
            self.well_formed(),
        ensures
            self.append_slot(res, total).well_formed(),
    {
        let after = self.append_slot(res, total);
        let m = self.num_resources();
        assert forall|u: int| 0 <= u < self.num_tasks implies {
            &&& #[trigger] after.max[u] == self.max[u].push(0usize)
            &&& after.allocated[u] == self.allocated[u].push(0usize)
            &&& after.need[u] == self.need[u].push(0usize)
        } by {}
        assert forall|u: int| 0 <= u < after.num_tasks implies #[trigger] after.max[u].len()
            == after.num_resources() && after.allocated[u].len() == after.num_resources()
            && after.need[u].len() == after.num_resources() by {
            assert(after.max[u] == self.max[u].push(0usize));
        }
        assert forall|u: int, q: int|
            0 <= u < after.num_tasks && 0 <= q < after.num_resources() implies #[trigger] after.need[u][q]
            + after.allocated[u][q] == after.max[u][q] by {
            assert(after.max[u] == self.max[u].push(0usize));
            if q < m {
                assert(self.need[u][q] + self.allocated[u][q] == self.max[u][q]);
            }
        }
        assert forall|i: int| 0 <= i < after.recycle.len() implies #[trigger] after.recycle[i]
            < after.num_resources() && after.resources[after.recycle[i] as int] is None by {
            assert(self.recycle[i] < m);
        }
        assert forall|r: usize|
            r < after.num_resources() && #[trigger] after.resources[r as int] is None implies after.recycle.contains(
            r,
        ) by {
            assert(r < m);
            assert(self.resources[r as int] is None);
        }
        assert forall|q: int|
            0 <= q < after.num_resources() && #[trigger] after.resources[q] is None implies {
            &&& after.available[q] == 0
            &&& forall|u: int|
                0 <= u < after.num_tasks ==> #[trigger] after.max[u][q] == 0 && after.allocated[u][q]
                    == 0 && after.need[u][q] == 0
        } by {
            assert(q < m);
            assert(self.resources[q] is None);
            assert forall|u: int| 0 <= u < after.num_tasks implies #[trigger] after.max[u][q] == 0
                && after.allocated[u][q] == 0 && after.need[u][q] == 0 by {
                assert(after.max[u] == self.max[u].push(0usize));
                assert(self.max[u][q] == 0);
            }
        }
        assert(after.shaped());
        assert(after.need_consistent());
        assert(after.recycle_consistent());
        assert(after.free_slots_empty());
    }

    /// Freeing a slot in use keeps the detector well formed.
    pub proof fn lemma_free_slot_well_formed(self, r: usize)
        requires
            self.well_formed(),
            r < self.num_resources(),
            self.resources[r as int] is Some,
        ensures
            self.free_slot(r).well_formed(),
    {
        let after = self.free_slot(r);
        let m = self.num_resources();
        assert forall|u: int| 0 <= u < self.num_tasks implies {
            &&& #[trigger] after.max[u] == self.max[u].update(r as int, 0usize)
            &&& after.allocated[u] == self.allocated[u].update(r as int, 0usize)
            &&& after.need[u] == self.need[u].update(r as int, 0usize)
        } by {}
        assert forall|u: int| 0 <= u < after.num_tasks implies #[trigger] after.max[u].len()
            == m && after.allocated[u].len() == m && after.need[u].len() == m by {
            assert(after.max[u] == self.max[u].update(r as int, 0usize));
        }
        assert forall|u: int, q: int|
            0 <= u < after.num_tasks && 0 <= q < m implies #[trigger] after.need[u][q]
            + after.allocated[u][q] == after.max[u][q] by {
            assert(after.max[u] == self.max[u].update(r as int, 0usize));
            assert(self.need[u][q] + self.allocated[u][q] == self.max[u][q]);
        }
        assert(!self.recycle.contains(r)) by {
            if self.recycle.contains(r) {
                let i = choose|i: int| 0 <= i < self.recycle.len() && self.recycle[i] == r;
                assert(self.resources[self.recycle[i] as int] is None);
            }
        }
        assert forall|i: int| 0 <= i < after.recycle.len() implies #[trigger] after.recycle[i]
            < m && after.resources[after.recycle[i] as int] is None by {
            if i < self.recycle.len() {
                assert(self.recycle[i] < m);
            }
        }
        assert forall|q: usize|
            q < m && #[trigger] after.resources[q as int] is None implies after.recycle.contains(q) by {
            if q == r {
                assert(after.recycle[self.recycle.len() as int] == r);
            } else {
                assert(self.resources[q as int] is None);
                let i = choose|i: int| 0 <= i < self.recycle.len() && self.recycle[i] == q;
                assert(after.recycle[i] == q);
            }
        }
        assert forall|q: int| 0 <= q < m && #[trigger] after.resources[q] is None implies {
            &&& after.available[q] == 0
            &&& forall|u: int|
                0 <= u < after.num_tasks ==> #[trigger] after.max[u][q] == 0 && after.allocated[u][q]
                    == 0 && after.need[u][q] == 0
        } by {
            if q != r {
                assert(self.resources[q] is None);
            }
            assert forall|u: int| 0 <= u < after.num_tasks implies #[trigger] after.max[u][q] == 0
                && after.allocated[u][q] == 0 && after.need[u][q] == 0 by {
                assert(after.max[u] == self.max[u].update(r as int, 0usize));
                if q != r {
                    assert(self.max[u][q] == 0);
                }
            }
        }
        assert(after.shaped());
        assert(after.need_consistent());
        assert(after.recycle_consistent());
        assert(after.free_slots_empty());
    }

    /// New units keep the detector well formed.
    pub proof fn lemma_supply_well_formed(self, r: int, amount: int)
        requires
            self.well_formed(),
            0 <= r < self.num_resources(),
            self.resources[r] is Some,
            0 <= amount,
            self.available[r] + amount <= usize::MAX,
        ensures
            self.supply(r, amount).well_formed(),
    {
        let after = self.supply(r, amount);
        assert forall|q: int|
            0 <= q < after.num_resources() && #[trigger] after.resources[q] is None implies {
            &&& after.available[q] == 0
            &&& forall|u: int|
                0 <= u < after.num_tasks ==> #[trigger] after.max[u][q] == 0 && after.allocated[u][q]
                    == 0 && after.need[u][q] == 0
        } by {
            assert(q != r);
            assert(self.resources[q] is None);
            assert(after.available[q] == self.available[q]);
            assert(self.available[q] == 0);
            assert forall|u: int| 0 <= u < after.num_tasks implies #[trigger] after.max[u][q] == 0
                && after.allocated[u][q] == 0 && after.need[u][q] == 0 by {
                assert(self.max[u][q] == 0 && self.allocated[u][q] == 0 && self.need[u][q] == 0);
            }
        }
        assert(after.shaped());
        assert(after.need_consistent());
        assert(after.recycle_consistent());
        assert(after.free_slots_empty());
    }

    /// The invariant kept by every operation of [`Banker`].
    pub open spec fn well_formed(self) -> bool {
        &&& self.num_tasks >= 1
        &&& self.shaped()
        &&& self.need_consistent()
        &&& self.recycle_consistent()
        &&& self.free_slots_empty()
    }
}


/// The first index at or before `i` whose task is outside `done`.
proof fn first_outside(order: Seq<int>, done: Set<int>, i: int) -> (k: int)
    requires
        0 <= i < order.len(),
        !done.contains(order[i]),
    ensures
        0 <= k <= i,
        !done.contains(order[k]),
        forall|j: int| 0 <= j < k ==> done.contains(#[trigger] order[j]),
    decreases i,
{
    if exists|j: int| 0 <= j < i && !done.contains(#[trigger] order[j]) {
        let j = choose|j: int| 0 <= j < i && !done.contains(#[trigger] order[j]);
        first_outside(order, done, j)
    } else {
        i
    }
}

/// A list of distinct tasks below `n` that misses task `t` is shorter than `n`.
pub proof fn distinct_in_range_shorter(order: Seq<int>, n: int, t: int)
    requires
        order.no_duplicates(),
        forall|i: int| 0 <= i < order.len() ==> 0 <= #[trigger] order[i] < n,
        0 <= t < n,
        !order.contains(t),
    ensures
        order.len() < n,
{
    broadcast use vstd::seq_lib::group_seq_properties;

    order.unique_seq_to_set();
    vstd::set_lib::lemma_int_range(0, n);
    let range = vstd::set_lib::set_int_range(0, n);
    assert(order.to_set().subset_of(range.remove(t)));
    vstd::set_lib::lemma_len_subset(order.to_set(), range.remove(t));
}

/// The first slot of `resources` that holds `res`, if any.
pub open spec fn position_of<R>(resources: Seq<Option<R>>, res: R) -> Option<int>
    decreases resources.len(),
{
    if resources.len() == 0 {
        None
    } else {
        match position_of(resources.drop_last(), res) {
            Some(i) => Some(i),
            None => if resources.last() == Some(res) {
                Some(resources.len() - 1)
            } else {
                None
            },
        }
    }
}

/// [`position_of`] finds the first slot holding the resource, and finds none
/// exactly when no slot holds it.
pub proof fn lemma_position_of<R>(resources: Seq<Option<R>>, res: R)
    ensures
        match position_of(resources, res) {
            Some(i) => {
                &&& 0 <= i < resources.len()
                &&& resources[i] == Some(res)
                &&& forall|j: int| 0 <= j < i ==> resources[j] != Some(res)
            },
            None => forall|j: int| 0 <= j < resources.len() ==> resources[j] != Some(res),
        },
    decreases resources.len(),
{
    if resources.len() > 0 {
        let prefix = resources.drop_last();
        lemma_position_of(prefix, res);
        assert(forall|j: int| 0 <= j < prefix.len() ==> prefix[j] == resources[j]);
    }
}

/// Two states that differ only in the units task `t` holds of resource `r`
/// differ in what the finished tasks hold by exactly that much.
proof fn lemma_held_by_moved<R>(
    s: BankerState<R>,
    next: BankerState<R>,
    done: Set<int>,
    t: int,
    r: int,
    q: int,
    delta: int,
    k: int,
)
    requires
        0 <= t,
        0 <= s.allocated[t][r] + delta <= usize::MAX,
        next.allocated == bump(s.allocated, t, r, delta),
        t < s.allocated.len(),
        0 <= r < s.allocated[t].len(),
        k <= s.allocated.len(),
        0 <= q < s.allocated[t].len(),
    ensures
        next.held_by(done, q, k) == s.held_by(done, q, k) + if q == r && done.contains(t) && t < k {
            delta
        } else {
            0
        },
    decreases k,
{
    if k > 0 {
        lemma_held_by_moved(s, next, done, t, r, q, delta, k - 1);
        let u = k - 1;
        if u != t {
            assert(next.allocated[u] == s.allocated[u]);
        } else {
            assert(next.allocated[u] == s.allocated[u].update(r, (s.allocated[u][r] + delta) as usize));
        }
    }
}

impl<R> BankerState<R> {
    /// Handing units to a task neither creates nor destroys any: the total of every
    /// resource (available plus held) is unchanged.
    pub proof fn law_grant_conserves_units(self, t: int, r: int, amount: int, q: int)
        requires
            self.well_formed(),
            0 <= t < self.num_tasks,
            0 <= r < self.num_resources(),
            0 <= amount <= self.available[r],
            amount <= self.need[t][r],
            0 <= q < self.num_resources(),
        ensures
            self.grant(t, r, amount).total_units(q) == self.total_units(q),
    {
        assert(self.need[t][r] + self.allocated[t][r] == self.max[t][r]);
        lemma_held_by_moved(
            self,
            self.grant(t, r, amount),
            Set::full(),
            t,
            r,
            q,
            amount,
            self.num_tasks as int,
        );
    }

    /// Giving units back neither creates nor destroys any: the total of every
    /// resource (available plus held) is unchanged.
    pub proof fn law_release_conserves_units(self, t: int, r: int, amount: int, q: int)
        requires
            self.well_formed(),
            0 <= t < self.num_tasks,
            0 <= r < self.num_resources(),
            0 <= amount <= self.allocated[t][r],
            self.available[r] + amount <= usize::MAX,
            0 <= q < self.num_resources(),
        ensures
            self.release(t, r, amount).total_units(q) == self.total_units(q),
    {
        lemma_held_by_moved(
            self,
            self.release(t, r, amount),
            Set::full(),
            t,
            r,
            q,
            -amount,
            self.num_tasks as int,
        );
    }

    /// More available units never make a safe state unsafe.
    pub proof fn law_supply_keeps_safety(self, r: int, amount: int)
        requires
            self.well_formed(),
            0 <= r < self.num_resources(),
            0 <= amount,
            self.available[r] + amount <= usize::MAX,
            self.is_safe_state(),
        ensures
            self.supply(r, amount).is_safe_state(),
    {
        let next = self.supply(r, amount);
        let order = choose|o: Seq<int>| self.is_safe_sequence(o);
        assert forall|i: int| 0 <= i < order.len() implies next.can_finish(
            #[trigger] order[i],
            order.take(i).to_set(),
        ) by {
            let done = order.take(i).to_set();
            assert(self.can_finish(order[i], done));
            assert forall|q: int| 0 <= q < next.num_resources() implies next.need[order[i]][q]
                <= #[trigger] next.work(done, q) by {
                assert(self.need[order[i]][q] <= self.work(done, q));
                next.lemma_held_by_same_column(self, done, q, next.num_tasks as int);
            }
        }
        assert(next.is_safe_sequence(order));
    }

    /// States that agree on what the tasks below `k` hold of resource `r` agree on
    /// what the finished ones among them hold.
    pub proof fn lemma_held_by_same_column(self, other: Self, done: Set<int>, r: int, k: int)
        requires
            forall|u: int| 0 <= u < k ==> #[trigger] self.allocated[u][r] == other.allocated[u][r],
        ensures
            self.held_by(done, r, k) == other.held_by(done, r, k),
        decreases k,
    {
        if k > 0 {
            self.lemma_held_by_same_column(other, done, r, k - 1);
        }
    }

    /// Giving back held units never makes a safe state unsafe.
    pub proof fn law_release_keeps_safety(self, t: int, r: int, amount: int)
        requires
            self.well_formed(),
            0 <= t < self.num_tasks,
            0 <= r < self.num_resources(),
            0 <= amount <= self.allocated[t][r],
            self.available[r] + amount <= usize::MAX,
            self.is_safe_state(),
        ensures
            self.release(t, r, amount).is_safe_state(),
    {
        let next = self.release(t, r, amount);
        let order = choose|o: Seq<int>| self.is_safe_sequence(o);
        assert forall|i: int| 0 <= i < order.len() implies next.can_finish(
            #[trigger] order[i],
            order.take(i).to_set(),
        ) by {
            let done = order.take(i).to_set();
            let u = order[i];
            assert(self.can_finish(u, done));
            assert forall|q: int| 0 <= q < next.num_resources() implies next.need[u][q]
                <= #[trigger] next.work(done, q) by {
                assert(self.need[u][q] <= self.work(done, q));
                lemma_held_by_moved(self, next, done, t, r, q, -amount, self.num_tasks as int);
            }
        }
        assert(next.is_safe_sequence(order));
    }

    /// Freeing a slot in use never makes a safe state unsafe.
    pub proof fn law_free_slot_keeps_safety(self, r: usize)
        requires
            self.well_formed(),
            r < self.num_resources(),
            self.is_safe_state(),
        ensures
            self.free_slot(r).is_safe_state(),
    {
        let next = self.free_slot(r);
        let order = choose|o: Seq<int>| self.is_safe_sequence(o);
        assert forall|i: int| 0 <= i < order.len() implies next.can_finish(
            #[trigger] order[i],
            order.take(i).to_set(),
        ) by {
            let done = order.take(i).to_set();
            let u = order[i];
            assert(self.can_finish(u, done));
            assert forall|q: int| 0 <= q < next.num_resources() implies next.need[u][q]
                <= #[trigger] next.work(done, q) by {
                assert(next.need[u] == self.need[u].update(r as int, 0usize));
                if q != r {
                    assert(self.need[u][q] <= self.work(done, q));
                    assert forall|v: int| 0 <= v < self.num_tasks implies #[trigger] next.allocated[v][q]
                        == self.allocated[v][q] by {
                        assert(next.allocated[v] == self.allocated[v].update(r as int, 0usize));
                    }
                    next.lemma_held_by_same_column(self, done, q, self.num_tasks as int);
                } else {
                    next.lemma_held_by_bounded(done, q, self.num_tasks as int);
                }
            }
        }
        assert(next.is_safe_sequence(order));
    }

    /// Registering a resource in a new slot never makes a safe state unsafe.
    pub proof fn law_append_slot_keeps_safety(self, res: R, total: usize)
        requires
            self.well_formed(),
            self.is_safe_state(),
        ensures
            self.append_slot(res, total).is_safe_state(),
    {
        let next = self.append_slot(res, total);
        let m = self.num_resources();
        let order = choose|o: Seq<int>| self.is_safe_sequence(o);
        assert forall|i: int| 0 <= i < order.len() implies next.can_finish(
            #[trigger] order[i],
            order.take(i).to_set(),
        ) by {
            let done = order.take(i).to_set();
            let u = order[i];
            assert(self.can_finish(u, done));
            assert forall|q: int| 0 <= q < next.num_resources() implies next.need[u][q]
                <= #[trigger] next.work(done, q) by {
                assert(next.need[u] == self.need[u].push(0usize));
                if q < m {
                    assert(self.need[u][q] <= self.work(done, q));
                    assert forall|v: int| 0 <= v < self.num_tasks implies #[trigger] next.allocated[v][q]
                        == self.allocated[v][q] by {
                        assert(next.allocated[v] == self.allocated[v].push(0usize));
                    }
                    next.lemma_held_by_same_column(self, done, q, self.num_tasks as int);
                } else {
                    next.lemma_held_by_bounded(done, q, self.num_tasks as int);
                }
            }
        }
        assert(next.is_safe_sequence(order));
    }

    /// Registering a resource in a freed slot never makes a safe state unsafe.
    pub proof fn law_reuse_slot_keeps_safety(self, res: R, total: usize)
        requires
            self.well_formed(),
            self.recycle.len() > 0,
            self.is_safe_state(),
        ensures
            self.reuse_slot(res, total).is_safe_state(),
    {
        let next = self.reuse_slot(res, total);
        let id = self.recycle[0] as int;
        assert(id < self.num_resources() && self.resources[id] is None);
        let order = choose|o: Seq<int>| self.is_safe_sequence(o);
        assert forall|i: int| 0 <= i < order.len() implies next.can_finish(
            #[trigger] order[i],
            order.take(i).to_set(),
        ) by {
            let done = order.take(i).to_set();
            let u = order[i];
            assert(self.can_finish(u, done));
            assert forall|q: int| 0 <= q < next.num_resources() implies next.need[u][q]
                <= #[trigger] next.work(done, q) by {
                next.lemma_held_by_same_column(self, done, q, self.num_tasks as int);
                if q == id {
                    assert(self.need[u][q] == 0);
                    next.lemma_held_by_bounded(done, q, self.num_tasks as int);
                } else {
                    assert(self.need[u][q] <= self.work(done, q));
                }
            }
        }
        assert(next.is_safe_sequence(order));
    }

    /// Making room for more tasks, which need nothing, never makes a safe state
    /// unsafe: they can finish after all the others.
    pub proof fn law_with_tasks_keeps_safety(self, n: nat)
        requires
            self.well_formed(),
            self.num_tasks <= n,
            self.is_safe_state(),
        ensures
            self.with_tasks(n).is_safe_state(),
    {
        broadcast use vstd::seq_lib::group_seq_properties;

        let next = self.with_tasks(n);
        let n0 = self.num_tasks;
        let m = self.num_resources();
        let order = choose|o: Seq<int>| self.is_safe_sequence(o);
        let extra = Seq::new((n - n0) as nat, |j: int| n0 + j);
        let full = order + extra;
        assert forall|u: int| 0 <= u < n implies {
            &&& #[trigger] next.allocated[u] == if u < n0 { self.allocated[u] } else { zero_row(m) }
            &&& next.need[u] == if u < n0 { self.need[u] } else { zero_row(m) }
        } by {}
        assert forall|i: int| 0 <= i < full.len() implies 0 <= #[trigger] full[i] < n by {}
        assert(full.no_duplicates()) by {
            assert forall|i: int, j: int| 0 <= i < j < full.len() implies full[i] != full[j] by {
                if j < n0 {
                    assert(order[i] != order[j]);
                } else if i >= n0 {
                } else {
                    assert(full[i] == order[i]);
                }
            }
        }
        assert forall|i: int| 0 <= i < full.len() implies next.can_finish(
            #[trigger] full[i],
            full.take(i).to_set(),
        ) by {
            let done = full.take(i).to_set();
            let u = full[i];
            assert forall|q: int| 0 <= q < m implies next.need[u][q] <= #[trigger] next.work(done, q) by {
                self.lemma_held_by_bounded(done, q, n0 as int);
                next.lemma_held_by_extended(self, done, q, n0 as int, n as int);
                if i < n0 {
                    assert(full.take(i) =~= order.take(i));
                    assert(self.can_finish(order[i], order.take(i).to_set()));
                    assert(self.need[u][q] <= self.work(done, q));
                } else {
                    assert(next.need[u] == zero_row(m));
                }
            }
        }
        assert(next.is_safe_sequence(full));
    }

    /// Tasks added with empty rows add nothing to what the finished tasks hold.
    pub proof fn lemma_held_by_extended(self, smaller: Self, done: Set<int>, r: int, n0: int, k: int)
        requires
            0 <= n0 <= k,
            forall|u: int| 0 <= u < n0 ==> #[trigger] self.allocated[u][r] == smaller.allocated[u][r],
            forall|u: int| n0 <= u < k ==> #[trigger] self.allocated[u][r] == 0,
        ensures
            self.held_by(done, r, k) == smaller.held_by(done, r, n0),
        decreases k,
    {
        if k > n0 {
            self.lemma_held_by_extended(smaller, done, r, n0, k - 1);
        } else {
            self.lemma_held_by_same_column(smaller, done, r, n0);
        }
    }

    /// A task that still needs more of some resource than exists in the whole
    /// system can never finish, so no safe sequence exists.
    pub proof fn law_overclaim_is_unsafe(self, t: int, r: int)
        requires
            self.well_formed(),
            0 <= t < self.num_tasks,
            0 <= r < self.num_resources(),
            self.need[t][r] > self.total_units(r),
        ensures
            !self.is_safe_state(),
    {
        if self.is_safe_state() {
            let order = choose|o: Seq<int>| self.is_safe_sequence(o);
            let range = vstd::set_lib::set_int_range(0, self.num_tasks as int);
            vstd::set_lib::lemma_int_range(0, self.num_tasks as int);
            order.unique_seq_to_set();
            assert(order.to_set().subset_of(range));
            vstd::set_lib::lemma_subset_equality(order.to_set(), range);
            assert(range.contains(t));
            assert(order.to_set().contains(t));
            let i = choose|i: int| 0 <= i < order.len() && order[i] == t;
            let done = order.take(i).to_set();
            assert(self.can_finish(order[i], done));
            assert(self.need[t][r] <= self.work(done, r));
            self.lemma_held_by_monotonic(done, Set::full(), r, self.num_tasks as int);
            assert(false);
        }
    }

    /// When no task needs anything more, every order of the tasks is safe; in
    /// particular the state is safe.
    pub proof fn law_no_need_is_safe(self)
        requires
            self.well_formed(),
            forall|t: int, r: int|
                0 <= t < self.num_tasks && 0 <= r < self.num_resources() ==> #[trigger] self.need[t][r]
                    == 0,
        ensures
            self.is_safe_state(),
    {
        let order = Seq::new(self.num_tasks, |i: int| i);
        assert forall|i: int| 0 <= i < order.len() implies self.can_finish(
            #[trigger] order[i],
            order.take(i).to_set(),
        ) by {
            assert forall|r: int| 0 <= r < self.num_resources() implies self.need[order[i]][r]
                <= #[trigger] self.work(order.take(i).to_set(), r) by {
                self.lemma_held_by_bounded(order.take(i).to_set(), r, self.num_tasks as int);
            }
        }
        assert(self.is_safe_sequence(order));
    }

    /// A request that is declared, granted and then given back leaves the detector
    /// exactly as it was.
    pub proof fn law_declare_grant_release_round_trip(self, t: int, r: int, amount: int)
        requires
            self.well_formed(),
            0 <= t < self.num_tasks,
            0 <= r < self.num_resources(),
            0 <= amount <= self.available[r],
            self.max[t][r] + amount <= usize::MAX,
        ensures
            self.declare(t, r, amount).grant(t, r, amount).release(t, r, amount) == self,
    {
        assert(self.need[t][r] + self.allocated[t][r] == self.max[t][r]);
        let back = self.declare(t, r, amount).grant(t, r, amount).release(t, r, amount);
        assert(back.max =~~= self.max);
        assert(back.allocated =~~= self.allocated);
        assert(back.need =~~= self.need);
        assert(back.available =~= self.available);
    }

    /// A resource held in a single slot is no longer found once that slot is freed.
    pub proof fn law_removed_resource_is_gone(self, res: R)
        requires
            self.well_formed(),
            self.num_resources() <= usize::MAX,
            self.has_resource(res),
            forall|j: int|
                0 <= j < self.num_resources() && j != self.slot_of(res) ==> self.resources[j]
                    != Some(res),
        ensures
            !self.free_slot(self.slot_of(res) as usize).has_resource(res),
    {
        lemma_position_of(self.resources, res);
        assert((self.slot_of(res) as usize) as int == self.slot_of(res));
        let after = self.free_slot(self.slot_of(res) as usize);
        lemma_position_of(after.resources, res);
        assert forall|j: int| 0 <= j < after.resources.len() implies after.resources[j] != Some(
            res,
        ) by {
            if j != self.slot_of(res) {
                assert(after.resources[j] == self.resources[j]);
            }
        }
    }

    /// A resource added when absent is found again, at the slot it was given, with
    /// the units it was added with.
    pub proof fn law_added_resource_is_found(self, res: R, total: usize)
        requires
            self.well_formed(),
            !self.has_resource(res),
        ensures
            self.recycle.len() > 0 ==> {
                let after = self.reuse_slot(res, total);
                &&& after.has_resource(res)
                &&& after.slot_of(res) == self.recycle[0] as int
                &&& after.available[after.slot_of(res)] == total
            },
            self.recycle.len() == 0 ==> {
                let after = self.append_slot(res, total);
                &&& after.has_resource(res)
                &&& after.slot_of(res) == self.num_resources()
                &&& after.available[after.slot_of(res)] == total
            },
    {
        lemma_position_of(self.resources, res);
        if self.recycle.len() > 0 {
            let after = self.reuse_slot(res, total);
            let id = self.recycle[0] as int;
            assert(id < self.num_resources());
            lemma_position_of(after.resources, res);
            assert(after.resources[id] == Some(res));
            assert forall|j: int| 0 <= j < id implies after.resources[j] != Some(res) by {
                assert(after.resources[j] == self.resources[j]);
            }
        } else {
            let after = self.append_slot(res, total);
            lemma_position_of(after.resources, res);
            assert(after.resources[self.num_resources() as int] == Some(res));
            assert forall|j: int| 0 <= j < self.num_resources() implies after.resources[j] != Some(
                res,
            ) by {
                assert(after.resources[j] == self.resources[j]);
            }
        }
    }
}

/// Cell `(t, r)` of a table view moved by `delta` units.
pub open spec fn bump(table: Seq<Seq<usize>>, t: int, r: int, delta: int) -> Seq<Seq<usize>> {
    table.update(t, table[t].update(r, (table[t][r] + delta) as usize))
}

/// A row of `m` zeros.
pub open spec fn zero_row(m: nat) -> Seq<usize> {
    Seq::new(m, |j: int| 0usize)
}

/// Column `r` of a table view set to zero.
pub open spec fn zero_column(table: Seq<Seq<usize>>, r: int) -> Seq<Seq<usize>> {
    table.map_values(|row: Seq<usize>| row.update(r, 0usize))
}

/// A zero cell appended to every row of a table view.
pub open spec fn push_zero_column(table: Seq<Seq<usize>>) -> Seq<Seq<usize>> {
    table.map_values(|row: Seq<usize>| row.push(0usize))
}

} // verus!
