//! Synchronisation system calls: how they pick identifiers and deadlines, and
//! what a thread that may deadlock is told.
use vstd::prelude::*;

verus! {

/// Where a newly created primitive was put in its process's list.
#[derive(Debug, Clone, Copy, PartialEq, Eq)]
pub struct SlotAlloc {
    /// Its identifier: the index in the list.
    pub id: usize,
    /// The list had no free slot and grew by one; the process then registers the
    /// new identifier (with the deadlock detector).
    pub appended: bool,
}

/// The first free slot of `list`, if any.
pub open spec fn first_free<T>(list: Seq<Option<T>>) -> Option<int>
    decreases list.len(),
{
    if list.len() == 0 {
        None
    } else {
        match first_free(list.drop_last()) {
            Some(i) => Some(i),
            None => if list.last() is None {
                Some(list.len() - 1)
            } else {
                None
            },
        }
    }
}

/// [`first_free`] finds the first free slot, and none exactly when every slot is taken.
pub proof fn lemma_first_free<T>(list: Seq<Option<T>>)
    ensures
        match first_free(list) {
            Some(i) => {
                &&& 0 <= i < list.len()
                &&& list[i] is None
                &&& forall|j: int| 0 <= j < i ==> list[j] is Some
            },
            None => forall|j: int| 0 <= j < list.len() ==> list[j] is Some,
        },
    decreases list.len(),
{
    if list.len() > 0 {
        let prefix = list.drop_last();
        lemma_first_free(prefix);
        assert(forall|j: int| 0 <= j < prefix.len() ==> prefix[j] == list[j]);
    }
}

/// `list` after `item` is stored in the first free slot, or appended when there is none.
pub open spec fn stored<T>(list: Seq<Option<T>>, item: T) -> Seq<Option<T>> {
    match first_free(list) {
        Some(i) => list.update(i, Some(item)),
        None => list.push(Some(item)),
    }
}

/// Storing a primitive changes only the slot it is given: when some slot is free,
/// the first free one receives it and the list keeps its length; when none is,
/// it is appended. Every other entry keeps what it held.
pub proof fn law_stored_changes_one_slot<T>(list: Seq<Option<T>>, item: T)
    ensures
        forall|i: int|
            0 <= i < list.len() && list[i] is None && (forall|j: int|
                0 <= j < i ==> list[j] is Some) ==> {
                &&& #[trigger] stored(list, item)[i] == Some(item)
                &&& stored(list, item).len() == list.len()
                &&& forall|k: int|
                    0 <= k < list.len() && k != i ==> stored(list, item)[k] == list[k]
            },
        (forall|j: int| 0 <= j < list.len() ==> list[j] is Some) ==> {
            &&& stored(list, item).len() == list.len() + 1
            &&& stored(list, item)[list.len() as int] == Some(item)
            &&& forall|k: int| 0 <= k < list.len() ==> stored(list, item)[k] == list[k]
        },
{
    lemma_first_free(list);
    assert forall|i: int|
        0 <= i < list.len() && list[i] is None && (forall|j: int| 0 <= j < i ==> list[j] is Some)
        implies first_free(list) == Some(i) by {
        match first_free(list) {
            Some(k) => {
                if k < i {
                    assert(list[k] is Some);
                }
                if i < k {
                    assert(list[i] is Some);
                }
            },
            None => {
                assert(list[i] is Some);
            },
        }
    }
}

/// Stores `item` in the first free slot of `list`, or appends it when there is none.
fn alloc_slot<T>(list: &mut Vec<Option<T>>, item: T) -> (slot: SlotAlloc)
    ensures
        final(list)@ == stored(old(list)@, item),
        slot.appended == first_free(old(list)@) is None,
        slot.appended ==> slot.id == old(list)@.len(),
        !slot.appended ==> slot.id == first_free(old(list)@)->0,
        slot.id < final(list)@.len(),
{
    proof {
        lemma_first_free(list@);
    }
    let mut i: usize = 0;
    while i < list.len()
        invariant
            list@ == old(list)@,
            i <= list@.len(),
            forall|j: int| 0 <= j < i ==> list@[j] is Some,
        decreases list@.len() - i,
    {
        if list[i].is_none() {
            proof {
                lemma_first_free(list@);
            }
            list.set(i, Some(item));
            return SlotAlloc { id: i, appended: false };
        }
        i = i + 1;
    }
    proof {
        lemma_first_free(list@);
    }
    list.push(Some(item));
    SlotAlloc { id: list.len() - 1, appended: true }
}

/// mutex create syscall: the new mutex takes the first free identifier of the
/// process's mutex list, or a new one at its end.
pub fn sys_mutex_create<M>(mutex_list: &mut Vec<Option<M>>, mutex: M) -> (slot: SlotAlloc)
    ensures
        final(mutex_list)@ == stored(old(mutex_list)@, mutex),
        slot.appended == first_free(old(mutex_list)@) is None,
        slot.appended ==> slot.id == old(mutex_list)@.len(),
        !slot.appended ==> slot.id == first_free(old(mutex_list)@)->0,
        final(mutex_list)@[slot.id as int] == Some(mutex),
{
    let slot = alloc_slot(mutex_list, mutex);
    proof {
        lemma_first_free(old(mutex_list)@);
    }
    slot
}

/// semaphore create syscall: the new semaphore takes the first free identifier of
/// the process's semaphore list, or a new one at its end.
pub fn sys_semaphore_create<S>(semaphore_list: &mut Vec<Option<S>>, semaphore: S) -> (slot:
    SlotAlloc)
    ensures
        final(semaphore_list)@ == stored(old(semaphore_list)@, semaphore),
        slot.appended == first_free(old(semaphore_list)@) is None,
        slot.appended ==> slot.id == old(semaphore_list)@.len(),
        !slot.appended ==> slot.id == first_free(old(semaphore_list)@)->0,
        final(semaphore_list)@[slot.id as int] == Some(semaphore),
{
    let slot = alloc_slot(semaphore_list, semaphore);
    proof {
        lemma_first_free(old(semaphore_list)@);
    }
    slot
}

/// condvar create syscall: the new condition variable takes the first free
/// identifier of the process's condition-variable list, or a new one at its end.
pub fn sys_condvar_create<C>(condvar_list: &mut Vec<Option<C>>, condvar: C) -> (slot: SlotAlloc)
    ensures
        final(condvar_list)@ == stored(old(condvar_list)@, condvar),
        slot.appended == first_free(old(condvar_list)@) is None,
        slot.appended ==> slot.id == old(condvar_list)@.len(),
        !slot.appended ==> slot.id == first_free(old(condvar_list)@)->0,
        final(condvar_list)@[slot.id as int] == Some(condvar),
{
    let slot = alloc_slot(condvar_list, condvar);
    proof {
        lemma_first_free(old(condvar_list)@);
    }
    slot
}

/// sleep syscall: the moment (milliseconds) at which the sleeping task is woken.
pub fn sys_sleep(now_ms: usize, ms: usize) -> (expire_ms: usize)
    requires
        now_ms + ms <= usize::MAX,
    ensures
        expire_ms == now_ms + ms,
{
    now_ms + ms
}

/// What a thread asking for a mutex or a semaphore is told.
#[derive(Debug, Clone, Copy, PartialEq, Eq)]
pub enum AcquireStep {
    /// It waits for the primitive, which is then recorded as held by it: the call
    /// returns 0.
    Wait,
    /// Waiting could deadlock: nothing is requested and the call returns -0xdead.
    Refuse,
}

impl AcquireStep {
    /// The value the system call returns.
    pub fn code(&self) -> (c: isize)
        ensures
            *self is Wait ==> c == 0,
            *self is Refuse ==> c == -0xdead,
    {
        match self {
            AcquireStep::Wait => 0,
            AcquireStep::Refuse => -0xdead,
        }
    }
}

/// mutex lock syscall: the thread waits for the mutex exactly when the process's
/// deadlock check lets it.
pub fn sys_mutex_lock(may_wait: bool) -> (step: AcquireStep)
    ensures
        step is Wait <==> may_wait,
{
    if may_wait {
        AcquireStep::Wait
    } else {
        AcquireStep::Refuse
    }
}

/// semaphore down syscall: the thread waits for the semaphore exactly when the
/// process's deadlock check lets it and the semaphore exists; otherwise it is
/// refused as a deadlock.
pub fn sys_semaphore_down(may_wait: bool, slot_filled: bool) -> (step: AcquireStep)
    ensures
        step is Wait <==> (may_wait && slot_filled),
{
    if may_wait && slot_filled {
        AcquireStep::Wait
    } else {
        AcquireStep::Refuse
    }
}

/// Whether `sys_enable_deadlock_detect(enabled)` asks to turn detection on.
pub fn deadlock_detect_requested(enabled: usize) -> (on: bool)
    ensures
        on == (enabled != 0),
{
    enabled != 0
}

/// enable deadlock detection syscall: 0 when the process accepted the setting,
/// -1 otherwise.
pub fn sys_enable_deadlock_detect(accepted: bool) -> (ret: isize)
    ensures
        ret == if accepted {
            0isize
        } else {
            -1isize
        },
{
    if accepted {
        0
    } else {
        -1
    }
}

} // verus!
