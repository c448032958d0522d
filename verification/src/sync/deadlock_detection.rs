//! Deadlock avoidance with the banker's algorithm.
use std::collections::VecDeque;
use vstd::laws_eq::obeys_concrete_eq;
use vstd::prelude::*;
use vstd::std_specs::cmp::PartialEqSpec;

use crate::sync::banker_state::{
    bump, distinct_in_range_shorter, lemma_position_of, position_of, push_zero_column, zero_column,
    zero_row, BankerState,
};

verus! {

/// Deadlock detection for the synchronisation primitives of a process: which
/// task holds, and still needs, how many units of which resource.
#[derive(Debug)]
pub struct Banker<R> {
    // resource id is the index in the resources vector
    resources: Vec<Option<R>>,  // None means the resource is deallocated
    recycle: VecDeque<usize>,  // recycle resource id
    num_tasks: usize,
    // [task][resource]
    max: Vec<Vec<usize>>,
    allocated: Vec<Vec<usize>>,
    available: Vec<usize>,
    need: Vec<Vec<usize>>,
}

/// The sequence view of a table of rows.
pub open spec fn rows_view(rows: Seq<Vec<usize>>) -> Seq<Seq<usize>> {
    rows.map_values(|row: Vec<usize>| row@)
}

impl<R> View for Banker<R> {
    type V = BankerState<R>;

    closed spec fn view(&self) -> BankerState<R> {
        BankerState {
            resources: self.resources@,
            recycle: self.recycle@,
            num_tasks: self.num_tasks as nat,
            max: rows_view(self.max@),
            allocated: rows_view(self.allocated@),
            available: self.available@,
            need: rows_view(self.need@),
        }
    }
}

/// Row `t` of a table view is the view of row `t`.
proof fn lemma_rows_view(rows: Seq<Vec<usize>>)
    ensures
        rows_view(rows).len() == rows.len(),
        forall|t: int| 0 <= t < rows.len() ==> #[trigger] rows_view(rows)[t] == rows[t]@,
{
}


/// Adds `amount` units to cell `(t, r)` of a table.
fn add_to_cell(table: &mut Vec<Vec<usize>>, t: usize, r: usize, amount: usize)
    requires
        t < old(table)@.len(),
        r < old(table)@[t as int]@.len(),
        old(table)@[t as int]@[r as int] + amount <= usize::MAX,
    ensures
        rows_view(final(table)@) == bump(rows_view(old(table)@), t as int, r as int, amount as int),
        final(table)@.len() == old(table)@.len(),
        forall|i: int| 0 <= i < old(table)@.len() ==> #[trigger] final(table)@[i]@.len() == old(
            table,
        )@[i]@.len(),
        final(table)@[t as int]@[r as int] == old(table)@[t as int]@[r as int] + amount,
{
    let value = table[t][r] + amount;
    table[t][r] = value;
    proof {
        lemma_rows_view(old(table)@);
        lemma_rows_view(table@);
        assert(rows_view(table@) =~= bump(rows_view(old(table)@), t as int, r as int, amount as int));
    }
}

/// Takes `amount` units from cell `(t, r)` of a table.
fn sub_from_cell(table: &mut Vec<Vec<usize>>, t: usize, r: usize, amount: usize)
    requires
        t < old(table)@.len(),
        r < old(table)@[t as int]@.len(),
        amount <= old(table)@[t as int]@[r as int],
    ensures
        rows_view(final(table)@) == bump(rows_view(old(table)@), t as int, r as int, -amount),
        final(table)@.len() == old(table)@.len(),
        forall|i: int| 0 <= i < old(table)@.len() ==> #[trigger] final(table)@[i]@.len() == old(
            table,
        )@[i]@.len(),
        final(table)@[t as int]@[r as int] == old(table)@[t as int]@[r as int] - amount,
{
    let value = table[t][r] - amount;
    table[t][r] = value;
    proof {
        lemma_rows_view(old(table)@);
        lemma_rows_view(table@);
        assert(rows_view(table@) =~= bump(rows_view(old(table)@), t as int, r as int, -amount));
    }
}


/// A fresh row of `m` zeros.
fn zeros(m: usize) -> (row: Vec<usize>)
    ensures
        row@ == zero_row(m as nat),
{
    let mut row: Vec<usize> = Vec::new();
    while row.len() < m
        invariant
            row@.len() <= m,
            forall|j: int| 0 <= j < row@.len() ==> row@[j] == 0,
        decreases m - row@.len(),
    {
        row.push(0);
    }
    assert(row@ =~= zero_row(m as nat));
    row
}

/// Sets column `r` of every row of a table to zero.
fn clear_column(table: &mut Vec<Vec<usize>>, r: usize)
    requires
        forall|i: int| 0 <= i < old(table)@.len() ==> r < #[trigger] old(table)@[i]@.len(),
    ensures
        rows_view(final(table)@) == zero_column(rows_view(old(table)@), r as int),
        final(table)@.len() == old(table)@.len(),
        forall|i: int| 0 <= i < old(table)@.len() ==> #[trigger] final(table)@[i]@.len() == old(
            table,
        )@[i]@.len(),
{
    let ghost before = rows_view(table@);
    let mut i: usize = 0;
    while i < table.len()
        invariant
            table@.len() == old(table)@.len(),
            before == rows_view(old(table)@),
            i <= table@.len(),
            forall|k: int| 0 <= k < table@.len() ==> r < #[trigger] old(table)@[k]@.len(),
            forall|k: int| 0 <= k < i ==> #[trigger] table@[k]@ == before[k].update(r as int, 0usize),
            forall|k: int| i <= k < table@.len() ==> #[trigger] table@[k] == old(table)@[k],
        decreases table@.len() - i,
    {
        proof {
            lemma_rows_view(old(table)@);
        }
        table[i][r] = 0;
        i = i + 1;
    }
    proof {
        lemma_rows_view(old(table)@);
        lemma_rows_view(table@);
        assert(rows_view(table@) =~~= zero_column(before, r as int));
    }
}

/// Appends a zero cell to every row of a table.
fn append_zero_column(table: &mut Vec<Vec<usize>>)
    ensures
        rows_view(final(table)@) == push_zero_column(rows_view(old(table)@)),
        final(table)@.len() == old(table)@.len(),
        forall|i: int| 0 <= i < old(table)@.len() ==> #[trigger] final(table)@[i]@.len() == old(
            table,
        )@[i]@.len() + 1,
{
    let ghost before = rows_view(table@);
    let mut i: usize = 0;
    while i < table.len()
        invariant
            table@.len() == old(table)@.len(),
            before == rows_view(old(table)@),
            i <= table@.len(),
            forall|k: int| 0 <= k < i ==> #[trigger] table@[k]@ == before[k].push(0usize),
            forall|k: int| i <= k < table@.len() ==> #[trigger] table@[k] == old(table)@[k],
        decreases table@.len() - i,
    {
        proof {
            lemma_rows_view(old(table)@);
        }
        table[i].push(0);
        i = i + 1;
    }
    proof {
        lemma_rows_view(old(table)@);
        lemma_rows_view(table@);
        assert(rows_view(table@) =~~= push_zero_column(before));
    }
}

/// Appending a zero row to a table grown with zero rows grows it by one more.
proof fn lemma_push_zero_row(rows: Seq<Vec<usize>>, row: Vec<usize>, base: Seq<Seq<usize>>, extra: nat, m: nat)
    requires
        rows_view(rows) == base + Seq::new(extra, |i: int| zero_row(m)),
        row@ == zero_row(m),
    ensures
        rows_view(rows.push(row)) == base + Seq::new(extra + 1, |i: int| zero_row(m)),
{
    lemma_rows_view(rows);
    lemma_rows_view(rows.push(row));
    let want = base + Seq::new(extra + 1, |i: int| zero_row(m));
    assert forall|i: int| 0 <= i < want.len() implies #[trigger] rows_view(rows.push(row))[i] == want[i] by {
        if i < rows.len() {
            assert(rows.push(row)[i] == rows[i]);
            assert(rows_view(rows)[i] == rows[i]@);
        }
    }
    assert(rows_view(rows.push(row)) =~= want);
}

impl<R> Banker<R> {
    /// Every row of a well-formed detector has one cell per resource slot.
    proof fn lemma_row_lens(&self, t: int, r: int)
        requires
            self@.well_formed(),
            0 <= t < self@.num_tasks,
            0 <= r < self@.num_resources(),
        ensures
            self.need@[t]@[r] + self.allocated@[t]@[r] == self.max@[t]@[r],
            self.max@.len() == self@.num_tasks,
            self.allocated@.len() == self@.num_tasks,
            self.need@.len() == self@.num_tasks,
            self.max@[t]@.len() == self.resources@.len(),
            self.allocated@[t]@.len() == self.resources@.len(),
            self.need@[t]@.len() == self.resources@.len(),
            self.available@.len() == self.resources@.len(),
    {
        self.lemma_view_rows();
        assert(self@.max[t] == self.max@[t]@);
        assert(self@.allocated[t] == self.allocated@[t]@);
        assert(self@.need[t] == self.need@[t]@);
        assert(self@.need[t][r] + self@.allocated[t][r] == self@.max[t][r]);
    }

    /// The tables of the view are the views of the rows.
    proof fn lemma_view_rows(&self)
        ensures
            self@.max.len() == self.max@.len(),
            self@.allocated.len() == self.allocated@.len(),
            self@.need.len() == self.need@.len(),
            forall|t: int| 0 <= t < self.max@.len() ==> #[trigger] self@.max[t] == self.max@[t]@,
            forall|t: int|
                0 <= t < self.allocated@.len() ==> #[trigger] self@.allocated[t]
                    == self.allocated@[t]@,
            forall|t: int| 0 <= t < self.need@.len() ==> #[trigger] self@.need[t] == self.need@[t]@,
    {
        lemma_rows_view(self.max@);
        lemma_rows_view(self.allocated@);
        lemma_rows_view(self.need@);
    }
}

impl<R: Eq + Copy> Banker<R> {
    /// The invariant of the detector.
    pub open spec fn wf(&self) -> bool {
        self@.well_formed()
    }

    /// An empty detector: no resources, and a single task (task 0).
    pub fn new() -> (banker: Self)
        ensures
            banker.wf(),
            banker@.resources == Seq::<Option<R>>::empty(),
            banker@.recycle == Seq::<usize>::empty(),
            banker@.num_tasks == 1,
            banker@.max == seq![Seq::<usize>::empty()],
            banker@.allocated == seq![Seq::<usize>::empty()],
            banker@.need == seq![Seq::<usize>::empty()],
            banker@.available == Seq::<usize>::empty(),
    {
        let banker = Self {
            resources: Vec::new(),
            recycle: VecDeque::new(),
            num_tasks: 1,
            max: vec![Vec::new()],
            allocated: vec![Vec::new()],
            available: Vec::new(),
            need: vec![Vec::new()],
        };
        assert(rows_view(banker.max@) =~= seq![Seq::<usize>::empty()]);
        assert(rows_view(banker.allocated@) =~= seq![Seq::<usize>::empty()]);
        assert(rows_view(banker.need@) =~= seq![Seq::<usize>::empty()]);
        banker
    }

    /// Makes room for task `task_id` (and every task numbered below it), each new
    /// task declaring, holding and needing nothing; returns the number of tasks.
    pub fn update_task(&mut self, task_id: usize) -> (num_tasks: usize)
        requires
            old(self).wf(),
            task_id < usize::MAX,
        ensures
            final(self).wf(),
            num_tasks == final(self)@.num_tasks,
            task_id < old(self)@.num_tasks ==> final(self)@ == old(self)@,
            old(self)@.num_tasks <= task_id ==> final(self)@ == old(self)@.with_tasks(
                task_id as nat + 1,
            ),
    {
        if task_id < self.num_tasks {
            return self.num_tasks;
        }
        let ghost start = self@;
        let m = self.resources.len();
        let mut next = self.num_tasks;
        while next <= task_id
            invariant
                start.well_formed(),
                start.num_tasks <= next <= task_id + 1,
                task_id < usize::MAX,
                m == start.num_resources(),
                self.num_tasks == start.num_tasks,
                self.resources@ == start.resources,
                self.recycle@ == start.recycle,
                self.available@ == start.available,
                self.max@.len() == next,
                self.allocated@.len() == next,
                self.need@.len() == next,
                rows_view(self.max@) == start.with_tasks(next as nat).max,
                rows_view(self.allocated@) == start.with_tasks(next as nat).allocated,
                rows_view(self.need@) == start.with_tasks(next as nat).need,
            decreases task_id + 1 - next,
        {
            let ghost extra = (next - start.num_tasks) as nat;
            let z = zeros(m);
            proof {
                lemma_push_zero_row(self.max@, z, start.max, extra, m as nat);
            }
            self.max.push(z);
            let z = zeros(m);
            proof {
                lemma_push_zero_row(self.allocated@, z, start.allocated, extra, m as nat);
            }
            self.allocated.push(z);
            let z = zeros(m);
            proof {
                lemma_push_zero_row(self.need@, z, start.need, extra, m as nat);
            }
            self.need.push(z);
            next = next + 1;
        }
        self.num_tasks = task_id + 1;
        proof {
            start.lemma_with_tasks_well_formed(task_id as nat + 1);
        }
        self.num_tasks
    }

    /// Forgets what task `task_id` declared, holds and needs; false when there is
    /// no such task.
    pub fn remove_task(&mut self, task_id: usize) -> (removed: bool)
        requires
            old(self).wf(),
        ensures
            final(self).wf(),
            removed == (task_id < old(self)@.num_tasks),
            removed ==> final(self)@ == old(self)@.clear_task(task_id as int),
            !removed ==> final(self)@ == old(self)@,
    {
        if task_id >= self.num_tasks {
            return false;
        }
        let m = self.resources.len();
        proof {
            self.lemma_view_rows();
        }
        self.max.set(task_id, zeros(m));
        self.allocated.set(task_id, zeros(m));
        self.need.set(task_id, zeros(m));
        proof {
            lemma_rows_view(self.max@);
            lemma_rows_view(self.allocated@);
            lemma_rows_view(self.need@);
            lemma_rows_view(old(self).max@);
            lemma_rows_view(old(self).allocated@);
            lemma_rows_view(old(self).need@);
            let after = old(self)@.clear_task(task_id as int);
            assert(rows_view(self.max@) =~= after.max);
            assert(rows_view(self.allocated@) =~= after.allocated);
            assert(rows_view(self.need@) =~= after.need);
            old(self)@.lemma_clear_task_well_formed(task_id as int);
        }
        true
    }

    /// Registers `resource` with `total` available units, in the slot freed
    /// longest ago if there is one, else in a new slot after the others.
    pub fn add_resource(&mut self, resource: R, total: usize)
        requires
            old(self).wf(),
        ensures
            final(self).wf(),
            old(self)@.recycle.len() > 0 ==> final(self)@ == old(self)@.reuse_slot(resource, total),
            old(self)@.recycle.len() == 0 ==> final(self)@ == old(self)@.append_slot(
                resource,
                total,
            ),
    {
        if let Some(id) = self.recycle.pop_front() {
            proof {
                assert(id == old(self)@.recycle[0]);
                assert(self.recycle@ =~= old(self)@.recycle.drop_first());
            }
            self.resources.set(id, Some(resource));
            self.available.set(id, total);
            proof {
                old(self)@.lemma_reuse_slot_well_formed(resource, total);
            }
            return;
        }
        self.resources.push(Some(resource));
        self.available.push(total);
        append_zero_column(&mut self.max);
        append_zero_column(&mut self.allocated);
        append_zero_column(&mut self.need);
        proof {
            old(self)@.lemma_append_slot_well_formed(resource, total);
        }
    }

    /// Frees the slot of `resource`: no units of it are available, declared or
    /// held any more, and the slot is queued for reuse; false when the resource is
    /// not registered.
    pub fn remove_resource(&mut self, resource: R) -> (removed: bool)
        requires
            old(self).wf(),
            obeys_concrete_eq::<R>(),
        ensures
            final(self).wf(),
            removed == old(self)@.has_resource(resource),
            removed ==> final(self)@ == old(self)@.free_slot(
                old(self)@.slot_of(resource) as usize,
            ),
            !removed ==> final(self)@ == old(self)@,
    {
        if let Some(id) = self.resource_id(resource) {
            proof {
                lemma_position_of(self@.resources, resource);
                self.lemma_view_rows();
                assert forall|t: int| 0 <= t < self.max@.len() implies id < #[trigger] self.max@[t]@.len() by {
                    assert(self@.max[t] == self.max@[t]@);
                }
                assert forall|t: int| 0 <= t < self.allocated@.len() implies id
                    < #[trigger] self.allocated@[t]@.len() by {
                    assert(self@.allocated[t] == self.allocated@[t]@);
                }
                assert forall|t: int| 0 <= t < self.need@.len() implies id < #[trigger] self.need@[t]@.len() by {
                    assert(self@.need[t] == self.need@[t]@);
                }
            }
            self.resources.set(id, None);
            self.recycle.push_back(id);
            self.available.set(id, 0);
            clear_column(&mut self.max, id);
            clear_column(&mut self.allocated, id);
            clear_column(&mut self.need, id);
            proof {
                old(self)@.lemma_free_slot_well_formed(id);
            }
            return true;
        }
        false
    }

    /// The slot of `resource`: the first one holding it.
    pub fn resource_id(&self, resource: R) -> (id: Option<usize>)
        requires
            obeys_concrete_eq::<R>(),
        ensures
            match id {
                Some(i) => position_of(self@.resources, resource) == Some(i as int),
                None => position_of(self@.resources, resource) is None,
            },
    {
        let mut i: usize = 0;
        while i < self.resources.len()
            invariant
                obeys_concrete_eq::<R>(),
                i <= self.resources@.len(),
                forall|j: int| 0 <= j < i ==> self.resources@[j] != Some(resource),
            decreases self.resources@.len() - i,
        {
            if let Some(held) = &self.resources[i] {
                let same = *held == resource;
                proof {
                    reveal(obeys_concrete_eq);
                    assert(same == held.eq_spec(&resource));
                    assert(same <==> *held == resource);
                }
                if same {
                    proof {
                        lemma_position_of(self@.resources, resource);
                    }
                    return Some(i);
                }
            }
            i = i + 1;
        }
        proof {
            lemma_position_of(self@.resources, resource);
        }
        None
    }

    /// Look up a resource that the caller guarantees is present.
    fn slot(&self, resource: R) -> (id: usize)
        requires
            obeys_concrete_eq::<R>(),
            self@.has_resource(resource),
        ensures
            id == self@.slot_of(resource),
            id < self@.num_resources(),
            self@.resources[id as int] == Some(resource),
    {
        proof {
            lemma_position_of(self@.resources, resource);
        }
        match self.resource_id(resource) {
            Some(id) => id,
            None => {
                assert(false);
                0
            },
        }
    }

    /// `amount` more units of `resource` become available.
    pub fn release_new(&mut self, resource: R, amount: usize)
        requires
            old(self).wf(),
            obeys_concrete_eq::<R>(),
            old(self)@.has_resource(resource),
            old(self)@.available[old(self)@.slot_of(resource)] + amount <= usize::MAX,
        ensures
            final(self).wf(),
            final(self)@ == old(self)@.supply(old(self)@.slot_of(resource), amount as int),
    {
        let resource_id = self.slot(resource);
        let value = self.available[resource_id] + amount;
        self.available.set(resource_id, value);
        proof {
            old(self)@.lemma_supply_well_formed(resource_id as int, amount as int);
        }
    }

    /// Task `task_id` gives back `amount` units of `resource` that it holds, and no
    /// longer claims them.
    pub fn release_holding(&mut self, task_id: usize, resource: R, amount: usize)
        requires
            old(self).wf(),
            obeys_concrete_eq::<R>(),
            task_id < old(self)@.num_tasks,
            old(self)@.has_resource(resource),
            old(self)@.available[old(self)@.slot_of(resource)] + amount <= usize::MAX,
            amount <= old(self)@.allocated[task_id as int][old(self)@.slot_of(resource)],
        ensures
            final(self).wf(),
            final(self)@ == old(self)@.release(
                task_id as int,
                old(self)@.slot_of(resource),
                amount as int,
            ),
    {
        let resource_id = self.slot(resource);
        proof {
            self.lemma_view_rows();
            self.lemma_row_lens(task_id as int, resource_id as int);
        }
        let value = self.available[resource_id] + amount;
        self.available.set(resource_id, value);
        sub_from_cell(&mut self.allocated, task_id, resource_id, amount);
        proof {
            self.lemma_view_rows();
        }
        sub_from_cell(&mut self.max, task_id, resource_id, amount);
        proof {
            old(self)@.lemma_release_well_formed(task_id as int, resource_id as int, amount as int);
        }
    }

    /// Task `task_id` asks to wait for `amount` more units of `resource`: its claim
    /// grows by that much if the state stays safe, and is left as it was otherwise;
    /// returns whether the claim was accepted.
    pub fn try_request(&mut self, task_id: usize, resource: R, amount: usize) -> (granted: bool)
        requires
            old(self).wf(),
            obeys_concrete_eq::<R>(),
            task_id < old(self)@.num_tasks,
            old(self)@.has_resource(resource),
            old(self)@.max[task_id as int][old(self)@.slot_of(resource)] + amount <= usize::MAX,
        ensures
            final(self).wf(),
            granted == old(self)@.declare(
                task_id as int,
                old(self)@.slot_of(resource),
                amount as int,
            ).is_safe_state(),
            granted ==> final(self)@ == old(self)@.declare(
                task_id as int,
                old(self)@.slot_of(resource),
                amount as int,
            ),
            !granted ==> final(self)@ == old(self)@,
    {
        let resource_id = self.slot(resource);
        proof {
            self.lemma_view_rows();
            self.lemma_row_lens(task_id as int, resource_id as int);
        }
        add_to_cell(&mut self.max, task_id, resource_id, amount);
        proof {
            self.lemma_view_rows();
        }
        add_to_cell(&mut self.need, task_id, resource_id, amount);
        proof {
            old(self)@.lemma_declare_well_formed(task_id as int, resource_id as int, amount as int);
        }
        if self.is_safe() {
            true
        } else {
            proof {
                self.lemma_view_rows();
            }
            sub_from_cell(&mut self.max, task_id, resource_id, amount);
            proof {
                self.lemma_view_rows();
            }
            sub_from_cell(&mut self.need, task_id, resource_id, amount);
            assert(self@.max =~~= old(self)@.max);
            assert(self@.need =~~= old(self)@.need);
            false
        }
    }

    /// Hands `amount` units of `resource` to task `task_id`, out of what it claims.
    pub fn request(&mut self, task_id: usize, resource: R, amount: usize)
        requires
            old(self).wf(),
            obeys_concrete_eq::<R>(),
            task_id < old(self)@.num_tasks,
            old(self)@.has_resource(resource),
            amount <= old(self)@.available[old(self)@.slot_of(resource)],
            amount <= old(self)@.need[task_id as int][old(self)@.slot_of(resource)],
        ensures
            final(self).wf(),
            final(self)@ == old(self)@.grant(
                task_id as int,
                old(self)@.slot_of(resource),
                amount as int,
            ),
    {
        let resource_id = self.slot(resource);
        proof {
            self.lemma_view_rows();
            self.lemma_row_lens(task_id as int, resource_id as int);
        }
        add_to_cell(&mut self.allocated, task_id, resource_id, amount);
        let value = self.available[resource_id] - amount;
        self.available.set(resource_id, value);
        proof {
            self.lemma_view_rows();
        }
        sub_from_cell(&mut self.need, task_id, resource_id, amount);
        proof {
            old(self)@.lemma_grant_well_formed(task_id as int, resource_id as int, amount as int);
        }
    }

    /// Whether the current state is safe (banker's algorithm): repeatedly let any
    /// unfinished task whose remaining need fits in what is free run to completion
    /// and return what it holds; the state is safe when every task gets to finish.
    pub fn is_safe(&self) -> (safe: bool)
        requires
            self.wf(),
        ensures
            safe == self@.is_safe_state(),
    {
        broadcast use vstd::seq_lib::group_seq_properties;

        let ghost st = self@;
        let n = self.num_tasks;
        let m = self.resources.len();
        // units are summed in 128 bits: at most (tasks + 1) machine words per resource
        let mut work: Vec<u128> = Vec::new();
        let mut k: usize = 0;
        while k < m
            invariant
                st == self@,
                self.wf(),
                m == st.num_resources(),
                n == st.num_tasks,
                k <= m,
                work@.len() == k,
                forall|r: int| 0 <= r < k ==> work@[r] == st.work(Set::empty(), r),
            decreases m - k,
        {
            proof {
                st.lemma_held_by_empty(k as int, n as int);
            }
            work.push(self.available[k] as u128);
            k = k + 1;
        }
        let mut finish: Vec<bool> = vec![false; n];
        let mut count: usize = 0;
        let ghost mut order: Seq<int> = Seq::empty();
        assert(order.to_set() =~= Set::<int>::empty());
        while count < n
            invariant
                st == self@,
                self.wf(),
                n == st.num_tasks,
                m == st.num_resources(),
                work@.len() == m,
                finish@.len() == n,
                count == order.len(),
                count <= n,
                order.no_duplicates(),
                forall|i: int| 0 <= i < order.len() ==> 0 <= #[trigger] order[i] < n,
                forall|i: int|
                    0 <= i < order.len() ==> st.can_finish(
                        #[trigger] order[i],
                        order.take(i).to_set(),
                    ),
                forall|t: int| 0 <= t < n ==> finish@[t] == order.contains(t),
                forall|r: int| 0 <= r < m ==> work@[r] == st.work(order.to_set(), r),
            decreases n - count,
        {
            let mut found = false;
            let ghost start = order;
            let mut task_id: usize = 0;
            while task_id < n
                invariant
                    st == self@,
                    self.wf(),
                    n == st.num_tasks,
                    m == st.num_resources(),
                    work@.len() == m,
                    finish@.len() == n,
                    count == order.len(),
                    count <= n,
                    order.no_duplicates(),
                    forall|i: int| 0 <= i < order.len() ==> 0 <= #[trigger] order[i] < n,
                    forall|i: int|
                        0 <= i < order.len() ==> st.can_finish(
                            #[trigger] order[i],
                            order.take(i).to_set(),
                        ),
                    forall|t: int| 0 <= t < n ==> finish@[t] == order.contains(t),
                    forall|r: int| 0 <= r < m ==> work@[r] == st.work(order.to_set(), r),
                    task_id <= n,
                    order.len() >= start.len(),
                    found ==> order.len() > start.len(),
                    !found ==> order == start,
                    !found ==> forall|t: int|
                        0 <= t < task_id ==> finish@[t] || !st.can_finish(t, order.to_set()),
                decreases n - task_id,
            {
                if !finish[task_id] {
                    let ghost done = order.to_set();
                    let ghost t = task_id as int;
                    let mut fits = true;
                    let mut r: usize = 0;
                    while r < m && fits
                        invariant
                            st == self@,
                            self.wf(),
                            n == st.num_tasks,
                            m == st.num_resources(),
                            task_id < n,
                            t == task_id,
                            work@.len() == m,
                            forall|r: int| 0 <= r < m ==> work@[r] == st.work(done, r),
                            r <= m,
                            fits == forall|q: int| 0 <= q < r ==> st.need[t][q] <= st.work(done, q),
                        decreases m - r,
                    {
                        proof {
                            self.lemma_view_rows();
                            assert(st.need[t] == self.need@[t]@);
                            assert(st.need[t].len() == m);
                        }
                        if self.need[task_id][r] as u128 > work[r] {
                            fits = false;
                        }
                        r = r + 1;
                    }
                    assert(fits == st.can_finish(t, done));
                    if fits {
                        let ghost before = work@;
                        let mut r: usize = 0;
                        while r < m
                            invariant
                                st == self@,
                                self.wf(),
                                n == st.num_tasks,
                                m == st.num_resources(),
                                task_id < n,
                                t == task_id,
                                !done.contains(t),
                                work@.len() == m,
                                r <= m,
                                forall|q: int| 0 <= q < m ==> before[q] == st.work(done, q),
                                forall|q: int| 0 <= q < r ==> work@[q] == st.work(done.insert(t), q),
                                forall|q: int| r <= q < m ==> work@[q] == before[q],
                            decreases m - r,
                        {
                            proof {
                                self.lemma_view_rows();
                                assert(st.allocated[t] == self.allocated@[t]@);
                                assert(st.allocated[t].len() == m);
                                st.lemma_held_by_insert(done, t, r as int, n as int);
                                st.lemma_held_by_bounded(done.insert(t), r as int, n as int);
                                assert(st.work(done.insert(t), r as int) == before[r as int]
                                    + st.allocated[t][r as int]);
                                assert(n <= 0xffff_ffff_ffff_ffffint);
                                assert(st.available[r as int] <= 0xffff_ffff_ffff_ffffint);
                            }
                            let sum = work[r] + self.allocated[task_id][r] as u128;
                            work.set(r, sum);
                            r = r + 1;
                        }
                        proof {
                            distinct_in_range_shorter(order, n as int, t);
                            order.lemma_push_to_set_commute(t);
                            assert forall|i: int| 0 <= i < order.len() implies #[trigger] order.push(
                                t,
                            ).take(i) =~= order.take(i) by {}
                            assert(order.push(t).take(order.len() as int) =~= order);
                        }
                        finish.set(task_id, true);
                        count = count + 1;
                        proof {
                            let prev = order;
                            order = order.push(t);
                            assert forall|x: int| 0 <= x < n implies finish@[x] == order.contains(
                                x,
                            ) by {
                                vstd::seq_lib::lemma_seq_contains_after_push(prev, t, x);
                            }
                        }
                        found = true;
                    }
                }
                task_id = task_id + 1;
            }
            if !found {
                proof {
                    order.unique_seq_to_set();
                    st.lemma_stuck_is_unsafe(order.to_set());
                }
                return false;
            }
        }
        assert(st.is_safe_sequence(order));
        true
    }
}

} // verus!
