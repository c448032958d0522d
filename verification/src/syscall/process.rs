//! Process management system calls: what they compute and decide.
use vstd::prelude::*;

verus! {

/// Microseconds in a second.
pub const MICROS_PER_SEC: usize = 1_000_000;

/// Size of a page: mapped areas must start on a page boundary.
pub const PAGE_SIZE: usize = 4096;

/// Seconds and microseconds of a point in time.
#[derive(Debug, Clone, Copy, PartialEq, Eq)]
pub struct TimeVal {
    pub sec: usize,
    pub usec: usize,
}

/// Task information
pub struct TaskInfo<S, C> {
    /// Task status in it's life cycle
    pub status: S,
    /// The numbers of syscall called by task
    pub syscall_times: C,
    /// Total running time of task
    pub time: usize,
}

/// The time of day, in seconds and microseconds, of a clock reading in microseconds.
pub fn sys_get_time(now_us: usize) -> (time_val: TimeVal)
    ensures
        time_val.sec == now_us / MICROS_PER_SEC,
        time_val.usec == now_us % MICROS_PER_SEC,
        time_val.sec * MICROS_PER_SEC + time_val.usec == now_us,
        time_val.usec < MICROS_PER_SEC,
{
    TimeVal { sec: now_us / MICROS_PER_SEC, usec: now_us % MICROS_PER_SEC }
}

/// The information reported about a task that started at `start_time`
/// (milliseconds) when the clock reads `now_ms`.
pub fn sys_task_info<S, C>(status: S, syscall_times: C, start_time: usize, now_ms: usize) -> (info:
    TaskInfo<S, C>)
    requires
        start_time <= now_ms,
    ensures
        info.status == status,
        info.syscall_times == syscall_times,
        info.time == now_ms - start_time,
{
    TaskInfo { status, syscall_times, time: now_ms - start_time }
}

/// What `sys_waitpid` sees of a child process.
#[derive(Debug, Clone, Copy, PartialEq, Eq)]
pub struct ChildStatus {
    pub pid: usize,
    /// The child has exited and waits to be reaped.
    pub zombie: bool,
}

/// What `sys_waitpid` decides.
#[derive(Debug, Clone, Copy, PartialEq, Eq)]
pub enum WaitOutcome {
    /// No child matches: the call returns -1.
    NoSuchChild,
    /// Some child matches but none of them has exited: the call returns -2.
    StillRunning,
    /// The child at `index` in the list is removed, its exit code is written out,
    /// and its pid is returned.
    Reaped { index: usize, pid: usize },
}

/// `pid` (as given to `sys_waitpid`, -1 meaning any) selects a child with pid `child`.
pub open spec fn pid_selects(pid: isize, child: usize) -> bool {
    pid == -1 || #[verifier::truncate] (pid as usize) == child
}

/// -1 selects every child; a non-negative pid selects exactly the child with
/// that pid.
pub proof fn law_pid_selects(pid: isize, child: usize)
    ensures
        pid == -1 ==> pid_selects(pid, child),
        pid >= 0 ==> (pid_selects(pid, child) <==> pid == child),
{
}

impl WaitOutcome {
    /// The value the system call returns.
    pub open spec fn spec_code(self) -> isize {
        match self {
            WaitOutcome::NoSuchChild => -1isize,
            WaitOutcome::StillRunning => -2isize,
            WaitOutcome::Reaped { index, pid } => pid as isize,
        }
    }

    /// The value the system call returns.
    pub fn code(&self) -> (code: isize)
        ensures
            code == self.spec_code(),
            *self is NoSuchChild ==> code == -1,
            *self is StillRunning ==> code == -2,
            *self matches WaitOutcome::Reaped { pid, .. } ==> code == pid as isize,
    {
        match self {
            WaitOutcome::NoSuchChild => -1,
            WaitOutcome::StillRunning => -2,
            WaitOutcome::Reaped { index, pid } => *pid as isize,
        }
    }
}

/// If there is not a child process whose pid is same as given, return -1.
/// Else if there is a child process but it is still running, return -2.
/// Otherwise the first exited child that matches is reaped.
pub fn sys_waitpid(children: &[ChildStatus], pid: isize) -> (outcome: WaitOutcome)
    ensures
        outcome is NoSuchChild <==> forall|i: int|
            0 <= i < children@.len() ==> !pid_selects(pid, #[trigger] children@[i].pid),
        outcome is StillRunning <==> (exists|i: int|
            0 <= i < children@.len() && pid_selects(pid, #[trigger] children@[i].pid)) && forall|
            i: int,
        |
            0 <= i < children@.len() && pid_selects(pid, #[trigger] children@[i].pid)
                ==> !children@[i].zombie,
        outcome matches WaitOutcome::Reaped { index, pid: found } ==> {
            &&& index < children@.len()
            &&& children@[index as int].zombie
            &&& pid_selects(pid, children@[index as int].pid)
            &&& found == children@[index as int].pid
            &&& forall|j: int|
                0 <= j < index ==> !(children@[j].zombie && pid_selects(pid, #[trigger] children@[j].pid))
        },
{
    let mut any = false;
    let mut i: usize = 0;
    while i < children.len()
        invariant
            i <= children@.len(),
            any == exists|j: int| 0 <= j < i && pid_selects(pid, #[trigger] children@[j].pid),
        decreases children@.len() - i,
    {
        if pid == -1 || #[verifier::truncate] (pid as usize) == children[i].pid {
            assert(pid_selects(pid, children@[i as int].pid));
            any = true;
        }
        i = i + 1;
    }
    if !any {
        return WaitOutcome::NoSuchChild;
    }
    let mut i: usize = 0;
    while i < children.len()
        invariant
            i <= children@.len(),
            forall|j: int|
                0 <= j < i ==> !(children@[j].zombie && pid_selects(pid, #[trigger] children@[j].pid)),
        decreases children@.len() - i,
    {
        if children[i].zombie && (pid == -1 || #[verifier::truncate] (pid as usize) == children[i].pid) {
            return WaitOutcome::Reaped { index: i, pid: children[i].pid };
        }
        i = i + 1;
    }
    WaitOutcome::StillRunning
}

/// No access.
pub const PROT_NONE: usize = 0;

/// Readable.
pub const PROT_READ: usize = 1;

/// Writable.
pub const PROT_WRITE: usize = 2;

/// Executable.
pub const PROT_EXEC: usize = 4;

/// Every protection flag.
pub const PROT_ALL: usize = 7;

/// Protection requested by `sys_mmap`: a set of the `PROT_*` flags.
#[derive(Debug, Clone, Copy, PartialEq, Eq)]
pub struct MmapProt {
    bits: usize,
}

impl View for MmapProt {
    type V = usize;

    closed spec fn view(&self) -> usize {
        self.bits
    }
}

/// `flag` is set in `bits`.
pub open spec fn has_flag(bits: usize, flag: usize) -> bool {
    bits & flag == flag
}

impl MmapProt {
    /// The flags `bits`, if every set bit is one of the `PROT_*` flags.
    pub fn from_bits(bits: usize) -> (prot: Option<MmapProt>)
        ensures
            prot is Some <==> bits <= PROT_ALL,
            prot matches Some(p) ==> p@ == bits,
    {
        let unknown = bits & !PROT_ALL;
        assert(unknown == 0 <==> bits <= 7) by (bit_vector)
            requires
                unknown == bits & !7usize,
        ;
        if unknown == 0 {
            Some(MmapProt { bits })
        } else {
            None
        }
    }

    /// The raw flags.
    pub fn bits(&self) -> (bits: usize)
        ensures
            bits == self@,
    {
        self.bits
    }

    /// Every bit of `flag` is set.
    pub fn contains(&self, flag: usize) -> (set: bool)
        ensures
            set == has_flag(self@, flag),
    {
        self.bits & flag == flag
    }
}

/// Access rights of a mapped area.
#[derive(Debug, Clone, Copy, PartialEq, Eq)]
pub struct MapPermission {
    pub readable: bool,
    pub writable: bool,
    pub executable: bool,
    /// Accessible from user mode.
    pub user: bool,
}

impl MapPermission {
    /// No access at all.
    pub fn empty() -> (permission: MapPermission)
        ensures
            !permission.readable && !permission.writable && !permission.executable
                && !permission.user,
    {
        MapPermission { readable: false, writable: false, executable: false, user: false }
    }
}

/// The access rights that protection bits `bits` ask for.
pub open spec fn permission_of(bits: usize) -> MapPermission {
    MapPermission {
        readable: has_flag(bits, PROT_READ),
        writable: has_flag(bits, PROT_WRITE),
        executable: has_flag(bits, PROT_EXEC),
        user: false,
    }
}

impl From<MmapProt> for MapPermission {
    fn from(prot: MmapProt) -> (permission: MapPermission) {
        let mut permission = MapPermission::empty();
        if prot.contains(PROT_READ) {
            permission.readable = true;
        }
        if prot.contains(PROT_WRITE) {
            permission.writable = true;
        }
        if prot.contains(PROT_EXEC) {
            permission.executable = true;
        }
        permission
    }
}

impl vstd::std_specs::convert::FromSpecImpl<MmapProt> for MapPermission {
    open spec fn obeys_from_spec() -> bool {
        true
    }

    open spec fn from_spec(prot: MmapProt) -> MapPermission {
        permission_of(prot@)
    }
}

/// A range of virtual addresses `[start, end)`.
#[derive(Debug, Clone, Copy, PartialEq, Eq)]
pub struct AreaRange {
    pub start: usize,
    pub end: usize,
}

/// A mapping that `sys_mmap` asks the address space to make.
#[derive(Debug, Clone, Copy, PartialEq, Eq)]
pub struct MapRequest {
    pub range: AreaRange,
    pub permission: MapPermission,
}

/// The arguments of `sys_mmap` are acceptable: known protection flags, at least
/// one of them, and a page-aligned start.
pub open spec fn mmap_args_valid(start: usize, prot: usize) -> bool {
    &&& prot <= PROT_ALL
    &&& prot != PROT_NONE
    &&& start % PAGE_SIZE == 0
}

/// The access a mapping asks for follows the protection bits one by one: readable
/// with the lowest bit, writable with the next, executable with the one after,
/// whatever the other bits are; never accessible from user mode.
pub proof fn law_permission_follows_bits(bits: usize)
    ensures
        permission_of(bits).readable == (bits % 2 == 1),
        permission_of(bits).writable == ((bits / 2) % 2 == 1),
        permission_of(bits).executable == ((bits / 4) % 2 == 1),
        !permission_of(bits).user,
{
    assert((bits & 1usize == 1usize) == (bits % 2 == 1)) by (bit_vector);
    assert((bits & 2usize == 2usize) == ((bits / 2) % 2 == 1)) by (bit_vector);
    assert((bits & 4usize == 4usize) == ((bits / 4) % 2 == 1)) by (bit_vector);
}

/// `sys_mmap` accepts exactly the protections made of the three known bits, at
/// least one of them, at a start that is a multiple of 4096.
pub proof fn law_mmap_arguments(start: usize, prot: usize)
    ensures
        mmap_args_valid(start, prot) == ((prot & !7usize) == 0 && prot != 0 && start % 4096 == 0),
{
    assert(((prot & !7usize) == 0) == (prot <= 7)) by (bit_vector);
}

/// Checks the arguments of `sys_mmap`. `None` means the call fails with -1; a
/// request is handed to the address space, whose refusal also makes the call
/// return -1 (and its success 0).
pub fn sys_mmap(start: usize, len: usize, prot: usize) -> (request: Option<MapRequest>)
    requires
        mmap_args_valid(start, prot) ==> start + len <= usize::MAX,
    ensures
        request is Some <==> mmap_args_valid(start, prot),
        request matches Some(req) ==> {
            &&& req.range == (AreaRange { start, end: (start + len) as usize })
            &&& req.permission == permission_of(prot)
        },
{
    let prot = match MmapProt::from_bits(prot) {
        Some(prot) => prot,
        None => return None,
    };
    if prot.bits() == PROT_NONE {
        return None;
    }
    if start % PAGE_SIZE != 0 {
        return None;
    }
    let permission = MapPermission::from(prot);
    Some(MapRequest { range: AreaRange { start, end: start + len }, permission })
}

/// Checks the arguments of `sys_munmap`: `None` (the call fails with -1) unless
/// both the start and the length are page-aligned.
pub fn sys_munmap(start: usize, len: usize) -> (range: Option<AreaRange>)
    requires
        start % PAGE_SIZE == 0 && len % PAGE_SIZE == 0 ==> start + len <= usize::MAX,
    ensures
        range is Some <==> start % PAGE_SIZE == 0 && len % PAGE_SIZE == 0,
        range matches Some(r) ==> r == (AreaRange { start, end: (start + len) as usize }),
{
    if start % PAGE_SIZE != 0 || len % PAGE_SIZE != 0 {
        return None;
    }
    Some(AreaRange { start, end: start + len })
}

/// change data segment size: the old program break the address space reports
/// on success, -1 when it refuses.
pub fn sys_sbrk(old_brk: Option<usize>) -> (ret: isize)
    ensures
        ret == match old_brk {
            Some(brk) => brk as isize,
            None => -1isize,
        },
{
    match old_brk {
        Some(brk) => #[verifier::truncate] (brk as isize),
        None => -1,
    }
}

/// Set task priority: a priority of at least 2 is stored and returned; anything
/// else is refused with -1 and leaves the priority unchanged.
pub fn sys_set_priority(priority: &mut usize, prio: isize) -> (ret: isize)
    ensures
        prio <= 1 ==> ret == -1 && *final(priority) == *old(priority),
        prio > 1 ==> ret == prio && *final(priority) == prio as usize,
{
    if prio <= 1 {
        return -1;
    }
    *priority = prio as usize;
    prio
}

/// Where frame `i` starts in the source: the total length of the frames before it.
pub open spec fn frame_offset(frame_lens: Seq<usize>, i: int) -> int
    decreases i,
{
    if i <= 0 || i > frame_lens.len() {
        0
    } else {
        frame_offset(frame_lens, i - 1) + frame_lens[i - 1]
    }
}

/// The frames lie end to end: the first starts at the beginning of the source and
/// each next one starts where the previous one ends.
pub proof fn law_frame_offsets_consecutive(frame_lens: Seq<usize>)
    ensures
        frame_offset(frame_lens, 0) == 0,
        forall|i: int|
            0 <= i < frame_lens.len() ==> #[trigger] frame_offset(frame_lens, i + 1) == frame_offset(
                frame_lens,
                i,
            ) + frame_lens[i],
{
}

/// Frame offsets never decrease.
proof fn lemma_frame_offset_monotonic(frame_lens: Seq<usize>, i: int, j: int)
    requires
        0 <= i <= j <= frame_lens.len(),
    ensures
        frame_offset(frame_lens, i) <= frame_offset(frame_lens, j),
    decreases j - i,
{
    if i < j {
        lemma_frame_offset_monotonic(frame_lens, i, j - 1);
    }
}

/// Splits the bytes of a value into the pieces to be copied into the frames of
/// user memory that hold its destination, frame by frame: the piece for a frame
/// continues the source where the previous piece stopped and is as long as the
/// frame.
pub fn copy_to_virt(src: &[u8], frame_lens: &[usize]) -> (pieces: Vec<Vec<u8>>)
    requires
        frame_offset(frame_lens@, frame_lens@.len() as int) <= src@.len(),
    ensures
        pieces@.len() == frame_lens@.len(),
        forall|i: int|
            0 <= i < frame_lens@.len() ==> #[trigger] pieces@[i]@ == src@.subrange(
                frame_offset(frame_lens@, i),
                frame_offset(frame_lens@, i) + frame_lens@[i],
            ),
{
    let src_len = src.len();
    let mut pieces: Vec<Vec<u8>> = Vec::new();
    let mut offset: usize = 0;
    let mut i: usize = 0;
    while i < frame_lens.len()
        invariant
            frame_offset(frame_lens@, frame_lens@.len() as int) <= src@.len(),
            src_len == src@.len(),
            i <= frame_lens@.len(),
            offset == frame_offset(frame_lens@, i as int),
            pieces@.len() == i,
            forall|k: int|
                0 <= k < i ==> #[trigger] pieces@[k]@ == src@.subrange(
                    frame_offset(frame_lens@, k),
                    frame_offset(frame_lens@, k) + frame_lens@[k],
                ),
        decreases frame_lens@.len() - i,
    {
        proof {
            lemma_frame_offset_monotonic(frame_lens@, i as int + 1, frame_lens@.len() as int);
        }
        let len = frame_lens[i];
        let mut piece: Vec<u8> = Vec::new();
        let mut j: usize = 0;
        while j < len
            invariant
                offset + len <= src@.len(),
                src_len == src@.len(),
                j <= len,
                piece@ == src@.subrange(offset as int, offset + j),
            decreases len - j,
        {
            piece.push(src[offset + j]);
            j = j + 1;
            assert(piece@ =~= src@.subrange(offset as int, offset + j));
        }
        pieces.push(piece);
        offset = offset + len;
        i = i + 1;
    }
    pieces
}

} // verus!
