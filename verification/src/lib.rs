//! Concurrent-collection core: a lock-free LIFO stack together with the
//! epoch-based reclamation discipline that lets such collections retire
//! detached nodes safely.
//!
//! The `stack` module holds the stack itself, specified against a
//! mathematical sequence whose last element is the top. The `epoch`
//! module holds the reclamation bookkeeping: a global epoch, one record
//! per participating thread, and a bag of retired items, with the rule
//! that an item may be reclaimed only once the global epoch has moved
//! two generations past its retirement. The `history` module gives the
//! linearized semantics of stack operations and proves the laws that
//! hold over every interleaving.

pub mod epoch;
pub mod history;
pub mod stack;

pub use stack::Stack;
