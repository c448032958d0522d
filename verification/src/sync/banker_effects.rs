//! What each operation of the deadlock detector does, cell by cell: which entries
//! of which tables change, by how much, and that nothing else does.
use vstd::prelude::*;

use crate::sync::banker_state::BankerState;

verus! {

/// Declaring a claim raises the task's declared maximum and its need for that
/// resource by exactly the amount; every other entry stays as it was.
pub proof fn law_declare_effect<R>(s: BankerState<R>, t: int, r: int, amount: int)
    requires
        s.well_formed(),
        0 <= t < s.num_tasks,
        0 <= r < s.num_resources(),
        0 <= amount,
        s.max[t][r] + amount <= usize::MAX,
    ensures
        s.declare(t, r, amount).max[t][r] == s.max[t][r] + amount,
        s.declare(t, r, amount).need[t][r] == s.need[t][r] + amount,
        s.declare(t, r, amount).allocated == s.allocated,
        s.declare(t, r, amount).available == s.available,
        s.declare(t, r, amount).resources == s.resources,
        s.declare(t, r, amount).recycle == s.recycle,
        s.declare(t, r, amount).num_tasks == s.num_tasks,
        s.declare(t, r, amount).max.len() == s.max.len(),
        s.declare(t, r, amount).need.len() == s.need.len(),
        forall|u: int|
            0 <= u < s.num_tasks ==> #[trigger] s.declare(t, r, amount).max[u].len() == s.max[u].len()
                && s.declare(t, r, amount).need[u].len() == s.need[u].len(),
        forall|u: int, q: int|
            0 <= u < s.num_tasks && 0 <= q < s.num_resources() && (u != t || q != r)
                ==> #[trigger] s.declare(t, r, amount).max[u][q] == s.max[u][q]
                && s.declare(t, r, amount).need[u][q] == s.need[u][q],
{
}

/// Handing out units moves exactly the amount from what is available to what the
/// task holds, and lowers its need by as much; every other entry stays as it was.
pub proof fn law_grant_effect<R>(s: BankerState<R>, t: int, r: int, amount: int)
    requires
        s.well_formed(),
        0 <= t < s.num_tasks,
        0 <= r < s.num_resources(),
        0 <= amount <= s.available[r],
        amount <= s.need[t][r],
    ensures
        s.grant(t, r, amount).allocated[t][r] == s.allocated[t][r] + amount,
        s.grant(t, r, amount).need[t][r] == s.need[t][r] - amount,
        s.grant(t, r, amount).available[r] == s.available[r] - amount,
        s.grant(t, r, amount).max == s.max,
        s.grant(t, r, amount).resources == s.resources,
        s.grant(t, r, amount).recycle == s.recycle,
        s.grant(t, r, amount).num_tasks == s.num_tasks,
        s.grant(t, r, amount).available.len() == s.available.len(),
        s.grant(t, r, amount).allocated.len() == s.allocated.len(),
        s.grant(t, r, amount).need.len() == s.need.len(),
        forall|q: int|
            0 <= q < s.num_resources() && q != r ==> #[trigger] s.grant(t, r, amount).available[q]
                == s.available[q],
        forall|u: int|
            0 <= u < s.num_tasks ==> #[trigger] s.grant(t, r, amount).allocated[u].len()
                == s.allocated[u].len() && s.grant(t, r, amount).need[u].len() == s.need[u].len(),
        forall|u: int, q: int|
            0 <= u < s.num_tasks && 0 <= q < s.num_resources() && (u != t || q != r)
                ==> #[trigger] s.grant(t, r, amount).allocated[u][q] == s.allocated[u][q]
                && s.grant(t, r, amount).need[u][q] == s.need[u][q],
{
    assert(s.need[t][r] + s.allocated[t][r] == s.max[t][r]);
}

/// Giving back held units moves exactly the amount from what the task holds to
/// what is available, and lowers its declared maximum by as much; every other
/// entry stays as it was.
pub proof fn law_release_effect<R>(s: BankerState<R>, t: int, r: int, amount: int)
    requires
        s.well_formed(),
        0 <= t < s.num_tasks,
        0 <= r < s.num_resources(),
        0 <= amount <= s.allocated[t][r],
        s.available[r] + amount <= usize::MAX,
    ensures
        s.release(t, r, amount).allocated[t][r] == s.allocated[t][r] - amount,
        s.release(t, r, amount).max[t][r] == s.max[t][r] - amount,
        s.release(t, r, amount).available[r] == s.available[r] + amount,
        s.release(t, r, amount).need == s.need,
        s.release(t, r, amount).resources == s.resources,
        s.release(t, r, amount).recycle == s.recycle,
        s.release(t, r, amount).num_tasks == s.num_tasks,
        s.release(t, r, amount).available.len() == s.available.len(),
        s.release(t, r, amount).allocated.len() == s.allocated.len(),
        s.release(t, r, amount).max.len() == s.max.len(),
        forall|q: int|
            0 <= q < s.num_resources() && q != r ==> #[trigger] s.release(t, r, amount).available[q]
                == s.available[q],
        forall|u: int|
            0 <= u < s.num_tasks ==> #[trigger] s.release(t, r, amount).allocated[u].len()
                == s.allocated[u].len() && s.release(t, r, amount).max[u].len() == s.max[u].len(),
        forall|u: int, q: int|
            0 <= u < s.num_tasks && 0 <= q < s.num_resources() && (u != t || q != r)
                ==> #[trigger] s.release(t, r, amount).allocated[u][q] == s.allocated[u][q]
                && s.release(t, r, amount).max[u][q] == s.max[u][q],
{
    assert(s.need[t][r] + s.allocated[t][r] == s.max[t][r]);
}

/// New units of a resource raise what is available of it, and the total of it in
/// the system, by exactly the amount; nothing else changes.
pub proof fn law_supply_effect<R>(s: BankerState<R>, r: int, amount: int)
    requires
        s.well_formed(),
        0 <= r < s.num_resources(),
        0 <= amount,
        s.available[r] + amount <= usize::MAX,
    ensures
        s.supply(r, amount).available[r] == s.available[r] + amount,
        s.supply(r, amount).total_units(r) == s.total_units(r) + amount,
        s.supply(r, amount).available.len() == s.available.len(),
        forall|q: int|
            0 <= q < s.num_resources() && q != r ==> #[trigger] s.supply(r, amount).available[q]
                == s.available[q],
        s.supply(r, amount).resources == s.resources,
        s.supply(r, amount).recycle == s.recycle,
        s.supply(r, amount).num_tasks == s.num_tasks,
        s.supply(r, amount).max == s.max,
        s.supply(r, amount).allocated == s.allocated,
        s.supply(r, amount).need == s.need,
{
    let next = s.supply(r, amount);
    next.lemma_held_by_same_column(s, Set::full(), r, s.num_tasks as int);
}

/// Making room for tasks up to `n` keeps every existing task's rows, gives each new
/// task rows of zeros (one per resource slot), and changes nothing else.
pub proof fn law_with_tasks_effect<R>(s: BankerState<R>, n: nat)
    requires
        s.well_formed(),
        s.num_tasks <= n,
    ensures
        s.with_tasks(n).num_tasks == n,
        s.with_tasks(n).max.len() == n,
        s.with_tasks(n).allocated.len() == n,
        s.with_tasks(n).need.len() == n,
        forall|u: int|
            0 <= u < s.num_tasks ==> #[trigger] s.with_tasks(n).max[u] == s.max[u]
                && s.with_tasks(n).allocated[u] == s.allocated[u] && s.with_tasks(n).need[u]
                == s.need[u],
        forall|u: int|
            s.num_tasks <= u < n ==> #[trigger] s.with_tasks(n).max[u].len() == s.num_resources()
                && s.with_tasks(n).allocated[u].len() == s.num_resources()
                && s.with_tasks(n).need[u].len() == s.num_resources(),
        forall|u: int, q: int|
            s.num_tasks <= u < n && 0 <= q < s.num_resources() ==> #[trigger] s.with_tasks(
                n,
            ).max[u][q] == 0 && s.with_tasks(n).allocated[u][q] == 0 && s.with_tasks(n).need[u][q]
                == 0,
        s.with_tasks(n).resources == s.resources,
        s.with_tasks(n).recycle == s.recycle,
        s.with_tasks(n).available == s.available,
{
}

/// Forgetting task `t` zeroes its rows and keeps the rows of every other task,
/// and changes nothing else.
pub proof fn law_clear_task_effect<R>(s: BankerState<R>, t: int)
    requires
        s.well_formed(),
        0 <= t < s.num_tasks,
    ensures
        s.clear_task(t).num_tasks == s.num_tasks,
        s.clear_task(t).max.len() == s.max.len(),
        s.clear_task(t).allocated.len() == s.allocated.len(),
        s.clear_task(t).need.len() == s.need.len(),
        forall|u: int|
            0 <= u < s.num_tasks && u != t ==> #[trigger] s.clear_task(t).max[u] == s.max[u]
                && s.clear_task(t).allocated[u] == s.allocated[u] && s.clear_task(t).need[u]
                == s.need[u],
        s.clear_task(t).max[t].len() == s.num_resources(),
        s.clear_task(t).allocated[t].len() == s.num_resources(),
        s.clear_task(t).need[t].len() == s.num_resources(),
        forall|q: int|
            0 <= q < s.num_resources() ==> #[trigger] s.clear_task(t).max[t][q] == 0
                && s.clear_task(t).allocated[t][q] == 0 && s.clear_task(t).need[t][q] == 0,
        s.clear_task(t).resources == s.resources,
        s.clear_task(t).recycle == s.recycle,
        s.clear_task(t).available == s.available,
{
}

/// Filling a freed slot puts the resource and its units in the slot at the front
/// of the recycle queue, takes that slot off the queue, and changes nothing else.
pub proof fn law_reuse_slot_effect<R>(s: BankerState<R>, res: R, total: usize)
    requires
        s.well_formed(),
        s.recycle.len() > 0,
    ensures
        s.reuse_slot(res, total).resources.len() == s.resources.len(),
        s.reuse_slot(res, total).resources[s.recycle[0] as int] == Some(res),
        s.reuse_slot(res, total).available.len() == s.available.len(),
        s.reuse_slot(res, total).available[s.recycle[0] as int] == total,
        forall|q: int|
            0 <= q < s.num_resources() && q != s.recycle[0] ==> #[trigger] s.reuse_slot(
                res,
                total,
            ).resources[q] == s.resources[q] && s.reuse_slot(res, total).available[q]
                == s.available[q],
        s.reuse_slot(res, total).recycle.len() + 1 == s.recycle.len(),
        forall|i: int|
            0 <= i < s.recycle.len() - 1 ==> #[trigger] s.reuse_slot(res, total).recycle[i]
                == s.recycle[i + 1],
        s.reuse_slot(res, total).num_tasks == s.num_tasks,
        s.reuse_slot(res, total).max == s.max,
        s.reuse_slot(res, total).allocated == s.allocated,
        s.reuse_slot(res, total).need == s.need,
{
}

/// Adding a slot after the others puts the resource and its units there, gives
/// every task a zero entry for it, and changes nothing else.
pub proof fn law_append_slot_effect<R>(s: BankerState<R>, res: R, total: usize)
    requires
        s.well_formed(),
    ensures
        s.append_slot(res, total).resources.len() == s.resources.len() + 1,
        s.append_slot(res, total).resources[s.num_resources() as int] == Some(res),
        s.append_slot(res, total).available.len() == s.available.len() + 1,
        s.append_slot(res, total).available[s.num_resources() as int] == total,
        forall|q: int|
            0 <= q < s.num_resources() ==> #[trigger] s.append_slot(res, total).resources[q]
                == s.resources[q] && s.append_slot(res, total).available[q] == s.available[q],
        s.append_slot(res, total).num_tasks == s.num_tasks,
        s.append_slot(res, total).recycle == s.recycle,
        s.append_slot(res, total).max.len() == s.max.len(),
        s.append_slot(res, total).allocated.len() == s.allocated.len(),
        s.append_slot(res, total).need.len() == s.need.len(),
        forall|u: int|
            0 <= u < s.num_tasks ==> {
                &&& #[trigger] s.append_slot(res, total).max[u].len() == s.num_resources() + 1
                &&& s.append_slot(res, total).allocated[u].len() == s.num_resources() + 1
                &&& s.append_slot(res, total).need[u].len() == s.num_resources() + 1
                &&& s.append_slot(res, total).max[u][s.num_resources() as int] == 0
                &&& s.append_slot(res, total).allocated[u][s.num_resources() as int] == 0
                &&& s.append_slot(res, total).need[u][s.num_resources() as int] == 0
            },
        forall|u: int, q: int|
            0 <= u < s.num_tasks && 0 <= q < s.num_resources() ==> #[trigger] s.append_slot(
                res,
                total,
            ).max[u][q] == s.max[u][q] && s.append_slot(res, total).allocated[u][q]
                == s.allocated[u][q] && s.append_slot(res, total).need[u][q] == s.need[u][q],
{
}

/// Freeing slot `r` empties it, zeroes what is available of it and every task's
/// entries for it, queues it at the back of the recycle queue, and changes
/// nothing else.
pub proof fn law_free_slot_effect<R>(s: BankerState<R>, r: usize)
    requires
        s.well_formed(),
        r < s.num_resources(),
    ensures
        s.free_slot(r).resources.len() == s.resources.len(),
        s.free_slot(r).resources[r as int] is None,
        s.free_slot(r).available.len() == s.available.len(),
        s.free_slot(r).available[r as int] == 0,
        forall|q: int|
            0 <= q < s.num_resources() && q != r ==> #[trigger] s.free_slot(r).resources[q]
                == s.resources[q] && s.free_slot(r).available[q] == s.available[q],
        s.free_slot(r).recycle.len() == s.recycle.len() + 1,
        s.free_slot(r).recycle[s.recycle.len() as int] == r,
        forall|i: int| 0 <= i < s.recycle.len() ==> #[trigger] s.free_slot(r).recycle[i] == s.recycle[i],
        s.free_slot(r).num_tasks == s.num_tasks,
        s.free_slot(r).max.len() == s.max.len(),
        s.free_slot(r).allocated.len() == s.allocated.len(),
        s.free_slot(r).need.len() == s.need.len(),
        forall|u: int|
            0 <= u < s.num_tasks ==> #[trigger] s.free_slot(r).max[u].len() == s.num_resources()
                && s.free_slot(r).allocated[u].len() == s.num_resources() && s.free_slot(
                r,
            ).need[u].len() == s.num_resources(),
        forall|u: int, q: int|
            0 <= u < s.num_tasks && 0 <= q < s.num_resources() ==> #[trigger] s.free_slot(r).max[u][q]
                == (if q == r {
                0
            } else {
                s.max[u][q]
            }) && s.free_slot(r).allocated[u][q] == (if q == r {
                0
            } else {
                s.allocated[u][q]
            }) && s.free_slot(r).need[u][q] == (if q == r {
                0
            } else {
                s.need[u][q]
            }),
{
}

} // verus!
