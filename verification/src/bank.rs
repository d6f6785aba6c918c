//! The exclusive-lock strategy's core: the whole lookup-and-update runs as
//! one critical section with no suspension inside it, so a blocking lock
//! around a `BasicBank` serializes concurrent callers back-to-back. The lock
//! itself lives with the caller; this module holds the state and the atomic
//! mutation the lock must guard.

use vstd::prelude::*;

use crate::ledger::create_ledger;
use crate::ledger::spec_deposit;
use crate::ledger::DepositOutcome;
use crate::ledger::LedgerState;

verus! {

/// The ledger as the exclusive-lock strategy sees it, seeded with the
/// demonstration account. Mutual exclusion is the caller's duty: exactly one
/// caller may run `deposit` at a time, which a blocking lock around the bank
/// provides.
pub struct BasicBank {
    ledger: LedgerState,
}

impl View for BasicBank {
    type V = Map<Seq<char>, int>;

    closed spec fn view(&self) -> Map<Seq<char>, int> {
        self.ledger@
    }
}

impl BasicBank {
    /// The bank's internal invariant, established by `new` and preserved by
    /// every method.
    pub closed spec fn wf(&self) -> bool {
        self.ledger.wf()
    }

    /// Seeds the ledger with the one demonstration account: "Alice" at
    /// balance 100. Unknown identifiers are absent, not zero.
    pub fn new() -> (r: BasicBank)
        ensures
            r.wf(),
            r@ == Map::<Seq<char>, int>::empty().insert("Alice"@, 100int),
    {
        let mut seed: Vec<(String, i32)> = Vec::new();
        seed.push(("Alice".to_owned(), 100));
        let ghost sv = seed@;
        let ledger = create_ledger(seed);
        let r = BasicBank { ledger };
        proof {
            assert(sv.len() == 1 && sv[0].0@ == "Alice"@ && sv[0].1 == 100);
            assert(r@.dom().contains(sv[0].0@) && r@[sv[0].0@] == sv[0].1 as int);
            assert forall|k: Seq<char>| #[trigger] r@.dom().contains(k) implies k == "Alice"@ by {
                let i = choose|i: int| 0 <= i < sv.len() && (#[trigger] sv[i]).0@ == k;
                assert(i == 0);
            }
            assert(r@ =~= Map::<Seq<char>, int>::empty().insert("Alice"@, 100int));
        }
        r
    }

    /// One atomic deposit: adds `amount` to the named account and returns the
    /// new balance, or returns the not-found error and leaves every balance
    /// exactly as it was. Success is owed precisely when the identifier is
    /// known.
    pub fn deposit(&mut self, account: &str, amount: i32) -> (r: Result<i32, &'static str>)
        requires
            old(self).wf(),
            old(self)@.dom().contains(account@) ==> i32::MIN <= old(self)@[account@] + amount
                <= i32::MAX,
        ensures
            final(self).wf(),
            final(self)@ == spec_deposit(old(self)@, account@, amount as int),
            r is Ok <==> old(self)@.dom().contains(account@),
            r matches Ok(b) ==> b as int == old(self)@[account@] + amount,
            r matches Err(e) ==> e@ == "Account not found"@ && final(self)@ == old(self)@,
    {
        match self.ledger.deposit(account, amount) {
            DepositOutcome::Balance(b) => Ok(b),
            DepositOutcome::NotFound => Err("Account not found"),
        }
    }

    /// Reads one account's balance without mutating anything.
    pub fn balance_of(&self, account: &str) -> (r: Option<i32>)
        requires
            self.wf(),
        ensures
            match r {
                Some(b) => self@.dom().contains(account@) && b as int == self@[account@],
                None => !self@.dom().contains(account@),
            },
    {
        self.ledger.balance_of(account)
    }
}

} // verus!
