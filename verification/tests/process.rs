use rcore_os::syscall::process::{
    copy_to_virt, sys_get_time, sys_mmap, sys_munmap, sys_sbrk, sys_set_priority, sys_task_info,
    sys_waitpid, AreaRange, ChildStatus, MapPermission, MmapProt, TimeVal, WaitOutcome,
};

#[test]
fn get_time_splits_microseconds() {
    assert_eq!(sys_get_time(3_500_000), TimeVal { sec: 3, usec: 500_000 });
    assert_eq!(sys_get_time(999_999), TimeVal { sec: 0, usec: 999_999 });
    assert_eq!(sys_get_time(0), TimeVal { sec: 0, usec: 0 });
}

#[test]
fn task_info_reports_elapsed_time() {
    let info = sys_task_info("running", [1u32, 2, 3], 100, 250);
    assert_eq!(info.time, 150);
    assert_eq!(info.status, "running");
    assert_eq!(info.syscall_times, [1, 2, 3]);
}

fn children() -> Vec<ChildStatus> {
    vec![
        ChildStatus { pid: 5, zombie: false },
        ChildStatus { pid: 7, zombie: true },
        ChildStatus { pid: 9, zombie: true },
    ]
}

#[test]
fn waitpid_any_reaps_first_exited_child() {
    let outcome = sys_waitpid(&children(), -1);
    assert_eq!(outcome, WaitOutcome::Reaped { index: 1, pid: 7 });
    assert_eq!(outcome.code(), 7);
}

#[test]
fn waitpid_by_pid() {
    assert_eq!(sys_waitpid(&children(), 9), WaitOutcome::Reaped { index: 2, pid: 9 });
    let running = sys_waitpid(&children(), 5);
    assert_eq!(running, WaitOutcome::StillRunning);
    assert_eq!(running.code(), -2);
    let missing = sys_waitpid(&children(), 42);
    assert_eq!(missing, WaitOutcome::NoSuchChild);
    assert_eq!(missing.code(), -1);
    assert_eq!(sys_waitpid(&[], -1), WaitOutcome::NoSuchChild);
}

#[test]
fn waitpid_with_only_running_children() {
    let kids = vec![ChildStatus { pid: 3, zombie: false }, ChildStatus { pid: 4, zombie: false }];
    assert_eq!(sys_waitpid(&kids, -1), WaitOutcome::StillRunning);
}

#[test]
fn mmap_accepts_aligned_known_protection() {
    let req = sys_mmap(0x1000, 0x2000, 3).expect("valid mmap");
    assert_eq!(req.range, AreaRange { start: 0x1000, end: 0x3000 });
    assert_eq!(
        req.permission,
        MapPermission { readable: true, writable: true, executable: false, user: false }
    );
    let req = sys_mmap(0, 0x1000, 7).expect("valid mmap");
    assert!(req.permission.readable && req.permission.writable && req.permission.executable);
}

#[test]
fn mmap_rejects_bad_arguments() {
    assert_eq!(sys_mmap(0x1000, 0x1000, 0), None);
    assert_eq!(sys_mmap(0x1000, 0x1000, 8), None);
    assert_eq!(sys_mmap(0x1000, 0x1000, 9), None);
    assert_eq!(sys_mmap(0x1001, 0x1000, 1), None);
}

#[test]
fn munmap_needs_page_alignment() {
    assert_eq!(sys_munmap(0x2000, 0x1000), Some(AreaRange { start: 0x2000, end: 0x3000 }));
    assert_eq!(sys_munmap(0x2000, 0x10), None);
    assert_eq!(sys_munmap(0x2010, 0x1000), None);
}

#[test]
fn protection_bits_convert_to_permissions() {
    let prot = MmapProt::from_bits(5).expect("known flags");
    assert_eq!(prot.bits(), 5);
    assert!(prot.contains(1) && prot.contains(4) && !prot.contains(2));
    let permission = MapPermission::from(prot);
    assert_eq!(
        permission,
        MapPermission { readable: true, writable: false, executable: true, user: false }
    );
    assert!(MmapProt::from_bits(8).is_none());
    assert_eq!(MapPermission::empty(), MapPermission::from(MmapProt::from_bits(0).unwrap()));
}

#[test]
fn sbrk_returns_old_break() {
    assert_eq!(sys_sbrk(Some(0x8000)), 0x8000);
    assert_eq!(sys_sbrk(None), -1);
}

#[test]
fn set_priority_needs_at_least_two() {
    let mut priority = 16usize;
    assert_eq!(sys_set_priority(&mut priority, 1), -1);
    assert_eq!(priority, 16);
    assert_eq!(sys_set_priority(&mut priority, -5), -1);
    assert_eq!(priority, 16);
    assert_eq!(sys_set_priority(&mut priority, 2), 2);
    assert_eq!(priority, 2);
    assert_eq!(sys_set_priority(&mut priority, 100), 100);
    assert_eq!(priority, 100);
}

#[test]
fn copy_to_virt_splits_across_frames() {
    let src: Vec<u8> = (1..=10).collect();
    let pieces = copy_to_virt(&src, &[3, 4, 3]);
    assert_eq!(pieces, vec![vec![1, 2, 3], vec![4, 5, 6, 7], vec![8, 9, 10]]);
    let pieces = copy_to_virt(&src, &[2, 2]);
    assert_eq!(pieces, vec![vec![1, 2], vec![3, 4]]);
    let pieces = copy_to_virt(&src, &[]);
    assert!(pieces.is_empty());
}
