//! Semaphores with deadlock detection, and the system-call layer of a small
//! teaching kernel: decoding of system-call numbers and arguments, argument
//! checks of the memory-mapping calls, and the arithmetic around them.
//!
//! The kernel services themselves (scheduling, page tables, the clock) stay
//! with the kernel: functions here take what those services report and
//! return what the kernel has to do or answer.
pub mod sync;
pub mod syscall;
