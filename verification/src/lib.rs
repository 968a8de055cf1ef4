//! A time-locked token custody ledger.
//!
//! The crate holds, per depositing account, a locked token balance with a
//! release time, and releases funds to their owner only after a global audit
//! flag has been set and the lock's duration has elapsed. The state machine
//! (registration, fund/merge with an extend-only policy, the audit gate, and
//! the two-phase withdrawal protocol with compensating rollback) is verified;
//! the host runtime that persists the state and delivers calls lives outside
//! this crate and hands it plain values.

pub mod codec;
pub mod contract;
pub mod lockup;
pub mod order;
pub mod store;

pub use contract::LockupContract;
pub use contract::LockupError;
pub use contract::PendingWithdrawal;
pub use contract::MARKER_DEPOSIT;
pub use contract::STORAGE_DEPOSIT;
pub use lockup::Lockup;
pub use store::LockupStore;

pub use order::KeyCmp;
pub use order::lex_cmp;
