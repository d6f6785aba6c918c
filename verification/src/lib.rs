//! A small concurrent ledger: a mapping from account identifiers to signed
//! balances, kept consistent under three coordination strategies (an
//! exclusive lock, a suspend-aware lock, and a single-owner actor).
//!
//! This crate holds the verified core: the ledger state, the deposit
//! semantics shared by every strategy, the actor's state machine, and the
//! sequential workload model that each strategy's serialization reduces to.
//! The coordination plumbing itself (tasks, locks, channels) lives outside.

mod actor;
mod bank;
mod driver;
mod ledger;

pub use actor::apply_requests;
pub use actor::lemma_uniform_requests_total;
pub use actor::requests_in_bounds;
pub use actor::ActorPhase;
pub use actor::DepositRequest;
pub use actor::LedgerActor;
pub use bank::BasicBank;
pub use driver::run_uniform_deposits;
pub use ledger::create_ledger;
pub use ledger::lemma_deposit_commutes;
pub use ledger::lemma_deposit_preserves_dom;
pub use ledger::lemma_deposit_unknown_is_noop;
pub use ledger::spec_deposit;
pub use ledger::spec_outcome;
pub use ledger::DepositOutcome;
pub use ledger::LedgerState;
