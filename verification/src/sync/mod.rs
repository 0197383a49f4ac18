//! Synchronization primitives: a counting semaphore and the deadlock
//! detector that semaphore operations can report to.
pub mod deadlock;
pub mod monotone;
pub mod order;
pub mod semaphore;

pub use deadlock::DeadlockDetector;
pub use semaphore::Semaphore;
