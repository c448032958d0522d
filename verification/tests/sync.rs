use rcore_os::syscall::sync::{
    deadlock_detect_requested, sys_condvar_create, sys_enable_deadlock_detect, sys_mutex_create,
    sys_mutex_lock, sys_semaphore_create, sys_semaphore_down, sys_sleep, AcquireStep, SlotAlloc,
};

#[test]
fn mutex_create_fills_first_free_slot() {
    let mut list = vec![Some("a"), None, Some("b"), None];
    let slot = sys_mutex_create(&mut list, "c");
    assert_eq!(slot, SlotAlloc { id: 1, appended: false });
    assert_eq!(list, vec![Some("a"), Some("c"), Some("b"), None]);
}

#[test]
fn mutex_create_appends_when_full() {
    let mut list = vec![Some(1), Some(2)];
    let slot = sys_mutex_create(&mut list, 3);
    assert_eq!(slot, SlotAlloc { id: 2, appended: true });
    assert_eq!(list, vec![Some(1), Some(2), Some(3)]);
}

#[test]
fn semaphore_create_on_empty_list() {
    let mut list: Vec<Option<usize>> = Vec::new();
    assert_eq!(sys_semaphore_create(&mut list, 4), SlotAlloc { id: 0, appended: true });
    assert_eq!(sys_semaphore_create(&mut list, 2), SlotAlloc { id: 1, appended: true });
    list[0] = None;
    assert_eq!(sys_semaphore_create(&mut list, 9), SlotAlloc { id: 0, appended: false });
    assert_eq!(list, vec![Some(9), Some(2)]);
}

#[test]
fn condvar_create_reuses_slot() {
    let mut list = vec![None, None];
    assert_eq!(sys_condvar_create(&mut list, 'x'), SlotAlloc { id: 0, appended: false });
    assert_eq!(sys_condvar_create(&mut list, 'y'), SlotAlloc { id: 1, appended: false });
    assert_eq!(sys_condvar_create(&mut list, 'z'), SlotAlloc { id: 2, appended: true });
}

#[test]
fn sleep_deadline() {
    assert_eq!(sys_sleep(100, 50), 150);
    assert_eq!(sys_sleep(0, 0), 0);
}

#[test]
fn mutex_lock_waits_only_when_allowed() {
    assert_eq!(sys_mutex_lock(true), AcquireStep::Wait);
    assert_eq!(sys_mutex_lock(true).code(), 0);
    assert_eq!(sys_mutex_lock(false), AcquireStep::Refuse);
    assert_eq!(sys_mutex_lock(false).code(), -0xdead);
}

#[test]
fn semaphore_down_needs_permission_and_semaphore() {
    assert_eq!(sys_semaphore_down(true, true), AcquireStep::Wait);
    assert_eq!(sys_semaphore_down(true, false), AcquireStep::Refuse);
    assert_eq!(sys_semaphore_down(false, true), AcquireStep::Refuse);
    assert_eq!(sys_semaphore_down(false, false).code(), -0xdead);
}

#[test]
fn deadlock_detect_switch() {
    assert!(!deadlock_detect_requested(0));
    assert!(deadlock_detect_requested(1));
    assert!(deadlock_detect_requested(7));
    assert_eq!(sys_enable_deadlock_detect(true), 0);
    assert_eq!(sys_enable_deadlock_detect(false), -1);
}
