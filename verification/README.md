# Semaphores with deadlock detection, and system-call handling

A verified library for the synchronization and system-call layer of a small
teaching kernel.

- `src/sync/deadlock.rs`: the deadlock detector. Its search is specified as
  spec functions (`release_all`, `grant_pass`, `settle`, `has_deadlock`), and
  `detect_deadlock` is proved to compute exactly `has_deadlock`. The laws
  about the search and the bookkeeping operations are proof functions there.
- `src/sync/monotone.rs`: the proof that more available units never create a
  deadlock when no holding is negative.
- `src/sync/semaphore.rs`: the counting semaphore, with and without deadlock
  detection. Operations return what the kernel must do (wake a task, block).
- `src/sync/order.rs`: ascending key order of `BTreeMap`s.
- `src/syscall/`: decoding of system calls and the deciding part of the
  process-management calls (`mmap`, `munmap`, `sbrk`, `trace`, time of day).
- `app/`: the kernel side, which performs what the library decides through a
  `Kernel` trait of services.
