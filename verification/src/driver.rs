//! The workload driver's sequential core. A run spawns N concurrent callers
//! against one strategy, each depositing the same amount to the same
//! account; every strategy serializes those mutations into some order, and
//! deposits commute (`lemma_deposit_commutes`), so every serialization
//! reaches the ledger computed here. The driver's plumbing — spawning the
//! callers, awaiting them, and for the actor strategy dropping every inbox
//! handle and awaiting the terminal transition — lives with the runtime.

use vstd::prelude::*;

use crate::ledger::DepositOutcome;
use crate::ledger::LedgerState;

verus! {

/// Runs the N deposits of one uniform workload in sequence and states the
/// no-lost-update law: the final balance is exactly the seeded balance plus
/// `n * amount`, every other balance is untouched, and the caller served
/// i-th observes balance `seeded + (i + 1) * amount`.
pub fn run_uniform_deposits(
    ledger: &mut LedgerState,
    account: &str,
    amount: i32,
    n: usize,
) -> (outcomes: Vec<DepositOutcome>)
    requires
        old(ledger).wf(),
        old(ledger)@.dom().contains(account@),
        i32::MIN <= old(ledger)@[account@] + (n as int) * (amount as int) <= i32::MAX,
    ensures
        final(ledger).wf(),
        final(ledger)@ == old(ledger)@.insert(
            account@,
            old(ledger)@[account@] + (n as int) * (amount as int),
        ),
        outcomes@.len() == n as int,
        forall|i: int|
            0 <= i < n ==> outcomes@[i] == DepositOutcome::Balance(
                ((old(ledger)@[account@] + (i + 1) * (amount as int)) as i32),
            ),
{
    let ghost m0 = old(ledger)@;
    let ghost b0 = m0[account@];
    let ghost a = amount as int;
    proof {
        old(ledger).lemma_balances_bounded();
    }
    let mut outcomes: Vec<DepositOutcome> = Vec::new();
    let mut k: usize = 0;
    while k < n
        invariant
            ledger.wf(),
            m0.dom().contains(account@),
            b0 == m0[account@],
            a == amount as int,
            i32::MIN <= b0 <= i32::MAX,
            i32::MIN <= b0 + (n as int) * a <= i32::MAX,
            0 <= k <= n,
            ledger@.dom() == m0.dom(),
            ledger@[account@] == b0 + (k as int) * a,
            forall|key: Seq<char>|
                #[trigger] m0.dom().contains(key) && key != account@ ==> ledger@[key] == m0[key],
            outcomes@.len() == k as int,
            forall|i: int|
                0 <= i < k ==> outcomes@[i] == DepositOutcome::Balance(((b0 + (i + 1) * a) as i32)),
        decreases n - k,
    {
        proof {
            assert(i32::MIN <= b0 + (k as int + 1) * a <= i32::MAX) by (nonlinear_arith)
                requires
                    0 <= k as int + 1 <= n as int,
                    i32::MIN <= b0 <= i32::MAX,
                    i32::MIN <= b0 + (n as int) * a <= i32::MAX,
            {}
            assert((k as int) * a + a == (k as int + 1) * a) by (nonlinear_arith) {}
        }
        let ghost before = ledger@;
        let outcome = ledger.deposit(account, amount);
        proof {
            assert(ledger@ =~= before.insert(account@, b0 + (k as int + 1) * a));
            assert(ledger@.dom() =~= m0.dom());
        }
        outcomes.push(outcome);
        k += 1;
    }
    proof {
        assert(ledger@ =~= m0.insert(account@, b0 + (n as int) * a));
    }
    outcomes
}

} // verus!
