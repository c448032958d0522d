# rcore_os

The verified core of a small teaching kernel's synchronisation and process
system calls.

- `src/sync/deadlock_detection.rs` — `Banker<R>`, the deadlock detector a process
  keeps for its mutexes and semaphores: which task declares, holds and still needs
  how many units of which resource, and the banker's safety check.
- `src/sync/banker_state.rs` — its abstract model (`BankerState`): the invariant,
  safe sequences and safe states, the effect of every operation, and the laws
  that relate them (conservation of units; safety kept by new supply, by giving
  units back and by registering, freeing and adding slots and tasks; a declared,
  granted and released request leaving no trace; an added resource being found
  again and a freed one being gone).
- `src/syscall/process.rs` — what the process system calls compute and decide:
  time of day, task information, which child `waitpid` reaps, argument checks of
  `mmap`/`munmap` and the permission they ask for, `sbrk` and `set_priority`
  results, and how a value is split over the frames of user memory.
- `src/syscall/sync.rs` — how the synchronisation system calls number new
  mutexes, semaphores and condition variables, when a sleeper wakes, whether a
  thread asking for a mutex or semaphore waits or is refused as a deadlock, and
  how deadlock detection is switched on.
- `app/` — the system-call entry points themselves, written against a `Kernel`
  trait for the scheduler, memory manager, file system, timer and process state;
  they read what the library needs and carry out what it decides.
- `tests/` — scenarios for each of the above.
