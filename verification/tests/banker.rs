use rcore_os::sync::deadlock_detection::Banker;

const MUTEX_A: usize = 100;
const MUTEX_B: usize = 200;

fn snapshot(banker: &Banker<usize>) -> String {
    format!("{:?}", banker)
}

/// Two tasks, two single-unit resources; task 0 holds A, task 1 holds B.
fn crossed_holds() -> Banker<usize> {
    let mut banker = Banker::new();
    banker.add_resource(MUTEX_A, 1);
    banker.add_resource(MUTEX_B, 1);
    assert_eq!(banker.update_task(1), 2);
    assert!(banker.try_request(0, MUTEX_A, 1));
    banker.request(0, MUTEX_A, 1);
    assert!(banker.try_request(1, MUTEX_B, 1));
    banker.request(1, MUTEX_B, 1);
    banker
}

#[test]
fn new_detector_is_safe_and_empty() {
    let banker: Banker<usize> = Banker::new();
    assert!(banker.is_safe());
    assert_eq!(banker.resource_id(MUTEX_A), None);
}

#[test]
fn resources_get_slots_in_order() {
    let mut banker = Banker::new();
    banker.add_resource(MUTEX_A, 3);
    banker.add_resource(MUTEX_B, 2);
    assert_eq!(banker.resource_id(MUTEX_A), Some(0));
    assert_eq!(banker.resource_id(MUTEX_B), Some(1));
    assert_eq!(banker.resource_id(7), None);
}

#[test]
fn update_task_grows_only() {
    let mut banker: Banker<usize> = Banker::new();
    assert_eq!(banker.update_task(0), 1);
    assert_eq!(banker.update_task(3), 4);
    assert_eq!(banker.update_task(2), 4);
    assert_eq!(banker.update_task(4), 5);
}

#[test]
fn remove_task_reports_unknown_tasks() {
    let mut banker: Banker<usize> = Banker::new();
    banker.update_task(2);
    assert!(!banker.remove_task(3));
    assert!(banker.remove_task(2));
    assert!(banker.remove_task(0));
}

#[test]
fn crossed_holds_are_safe_until_a_cycle_is_declared() {
    let mut banker = crossed_holds();
    assert!(banker.is_safe());
    // task 0 waiting for B is fine: task 1 needs nothing more and gives B back
    assert!(banker.try_request(0, MUTEX_B, 1));
    // task 1 waiting for A would close the cycle
    assert!(!banker.try_request(1, MUTEX_A, 1));
    assert!(banker.is_safe());
}

#[test]
fn refused_request_leaves_the_detector_unchanged() {
    let mut banker = crossed_holds();
    assert!(banker.try_request(0, MUTEX_B, 1));
    let before = snapshot(&banker);
    assert!(!banker.try_request(1, MUTEX_A, 1));
    assert_eq!(snapshot(&banker), before);
}

#[test]
fn releasing_a_held_unit_unblocks_the_other_task() {
    let mut banker = crossed_holds();
    assert!(banker.try_request(0, MUTEX_B, 1));
    assert!(!banker.try_request(1, MUTEX_A, 1));
    banker.release_holding(0, MUTEX_A, 1);
    assert!(banker.try_request(1, MUTEX_A, 1));
}

#[test]
fn new_units_make_a_refused_request_grantable() {
    let mut banker = Banker::new();
    banker.add_resource(MUTEX_A, 1);
    assert!(!banker.try_request(0, MUTEX_A, 2));
    banker.release_new(MUTEX_A, 1);
    assert!(banker.try_request(0, MUTEX_A, 2));
}

#[test]
fn more_than_exists_is_never_safe() {
    let mut banker = Banker::new();
    banker.add_resource(MUTEX_A, 4);
    assert!(banker.try_request(0, MUTEX_A, 4));
    assert!(!banker.try_request(0, MUTEX_A, 1));
}

#[test]
fn declare_grant_release_round_trip() {
    let mut banker = crossed_holds();
    let before = snapshot(&banker);
    banker.add_resource(3, 5);
    let with_third = snapshot(&banker);
    assert_ne!(with_third, before);
    assert!(banker.try_request(1, 3, 2));
    banker.request(1, 3, 2);
    banker.release_holding(1, 3, 2);
    assert_eq!(snapshot(&banker), with_third);
}

#[test]
fn removed_slots_are_reused_first_in_first_out() {
    let mut banker = Banker::new();
    banker.add_resource(10, 1);
    banker.add_resource(11, 1);
    banker.add_resource(12, 1);
    assert!(banker.remove_resource(12));
    assert!(banker.remove_resource(10));
    assert!(!banker.remove_resource(10));
    assert_eq!(banker.resource_id(10), None);
    banker.add_resource(20, 2);
    assert_eq!(banker.resource_id(20), Some(2));
    banker.add_resource(21, 2);
    assert_eq!(banker.resource_id(21), Some(0));
    banker.add_resource(22, 2);
    assert_eq!(banker.resource_id(22), Some(3));
}

#[test]
fn removing_a_resource_drops_its_claims() {
    let mut banker = crossed_holds();
    assert!(banker.try_request(0, MUTEX_B, 1));
    assert!(!banker.try_request(1, MUTEX_A, 1));
    assert!(banker.remove_resource(MUTEX_B));
    // nobody holds or needs B any more, so A can be waited for
    assert!(banker.try_request(1, MUTEX_A, 1));
}

#[test]
fn removing_a_task_forgets_its_claims_and_holdings() {
    let mut banker = crossed_holds();
    assert!(banker.try_request(0, MUTEX_B, 1));
    assert!(!banker.try_request(1, MUTEX_A, 1));
    assert!(banker.remove_task(0));
    assert!(banker.is_safe());
    // the unit of A that task 0 held is not given back by forgetting the task
    assert!(!banker.try_request(1, MUTEX_A, 1));
    banker.release_new(MUTEX_A, 1);
    assert!(banker.try_request(1, MUTEX_A, 1));
}

#[test]
fn textbook_state_is_safe() {
    // five tasks, three resources with 10, 5 and 7 units
    let max = [[7, 5, 3], [3, 2, 2], [9, 0, 2], [2, 2, 2], [4, 3, 3]];
    let held = [[0, 1, 0], [2, 0, 0], [3, 0, 2], [2, 1, 1], [0, 0, 2]];
    let mut banker = Banker::new();
    banker.add_resource(0usize, 10);
    banker.add_resource(1usize, 5);
    banker.add_resource(2usize, 7);
    assert_eq!(banker.update_task(4), 5);
    for task in 0..5 {
        for res in 0..3 {
            assert!(banker.try_request(task, res, max[task][res]));
        }
    }
    for task in 0..5 {
        for res in 0..3 {
            banker.request(task, res, held[task][res]);
        }
    }
    // available is now (3, 3, 2): safe through tasks 1, 3, 4, 0, 2
    assert!(banker.is_safe());
    // task 0 asking for 3 more of the second resource leaves no safe sequence
    assert!(!banker.try_request(0, 1, 3));
    assert!(banker.is_safe());
}

#[test]
fn granted_units_come_back_in_full() {
    let mut banker = Banker::new();
    banker.add_resource(MUTEX_A, 3);
    banker.update_task(1);
    assert!(banker.try_request(0, MUTEX_A, 2));
    banker.request(0, MUTEX_A, 2);
    // more than exists in total can never be waited for
    assert!(!banker.try_request(1, MUTEX_A, 4));
    // everything that exists can: task 0 finishes and returns its two units
    assert!(banker.try_request(1, MUTEX_A, 3));
}

#[test]
fn forgetting_a_holder_can_leave_an_unsafe_state() {
    let mut banker = crossed_holds();
    assert!(banker.try_request(0, MUTEX_B, 1));
    assert!(banker.remove_task(1));
    // the unit of B held by task 1 is gone, and task 0 still waits for it
    assert!(!banker.is_safe());
}

#[test]
fn bookkeeping_keeps_a_safe_state_safe() {
    let mut banker = crossed_holds();
    assert!(banker.try_request(0, MUTEX_B, 1));
    assert!(banker.is_safe());
    assert_eq!(banker.update_task(4), 5);
    assert!(banker.is_safe());
    banker.add_resource(300, 0);
    assert!(banker.is_safe());
    assert!(banker.remove_resource(300));
    assert!(banker.is_safe());
    banker.add_resource(301, 2);
    assert_eq!(banker.resource_id(301), Some(2));
    assert!(banker.is_safe());
    banker.release_holding(1, MUTEX_B, 1);
    assert!(banker.is_safe());
    banker.release_new(MUTEX_A, 3);
    assert!(banker.is_safe());
}
