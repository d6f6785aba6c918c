//! The actor strategy's core: a state machine that exclusively owns a
//! ledger and drains deposit requests in strict arrival order, one mutation
//! at a time. No lock exists because no other task ever holds a reference to
//! the state. The surrounding task runs the loop: it receives each request
//! from the inbox, hands it to the actor, and forwards the outcome on the
//! request's reply channel (a failed send is swallowed — a vanished caller
//! must not stop the actor). When the inbox reports closed, the actor takes
//! its sole terminal transition and the task completes.

use vstd::prelude::*;

use crate::ledger::lemma_deposit_preserves_dom;
use crate::ledger::spec_deposit;
use crate::ledger::spec_outcome;
use crate::ledger::DepositOutcome;
use crate::ledger::LedgerState;

verus! {

/// One deposit request: created by a caller, consumed exactly once by the
/// strategy that processes it, never reused.
pub struct DepositRequest {
    pub account: String,
    pub amount: i32,
}

/// The actor's two states: accepting and draining its inbox, or terminal
/// after the inbox closed.
#[derive(Clone, Copy, Debug, PartialEq, Eq, Structural)]
pub enum ActorPhase {
    Running,
    Stopped,
}

/// The actor: single owner of the ledger state. Every mutator requires the
/// Running phase, so once the actor stops, no further side effect is
/// possible; the Stopped phase is terminal and reached exactly once, by
/// `handle_inbox_closed`.
pub struct LedgerActor {
    ledger: LedgerState,
    phase: ActorPhase,
}

/// The mapping reached by processing the requests one at a time, in arrival
/// order, starting from `m`.
pub open spec fn apply_requests(m: Map<Seq<char>, int>, reqs: Seq<DepositRequest>) -> Map<
    Seq<char>,
    int,
>
    decreases reqs.len(),
{
    if reqs.len() == 0 {
        m
    } else {
        apply_requests(spec_deposit(m, reqs[0].account@, reqs[0].amount as int), reqs.skip(1))
    }
}

/// Every balance met while processing the requests in arrival order from `m`
/// stays within the signed 32-bit range.
pub open spec fn requests_in_bounds(m: Map<Seq<char>, int>, reqs: Seq<DepositRequest>) -> bool
    decreases reqs.len(),
{
    reqs.len() == 0 || {
        &&& (m.dom().contains(reqs[0].account@) ==> i32::MIN <= m[reqs[0].account@]
            + reqs[0].amount <= i32::MAX)
        &&& requests_in_bounds(
            spec_deposit(m, reqs[0].account@, reqs[0].amount as int),
            reqs.skip(1),
        )
    }
}

proof fn lemma_apply_requests_snoc(
    m: Map<Seq<char>, int>,
    reqs: Seq<DepositRequest>,
    r: DepositRequest,
)
    ensures
        apply_requests(m, reqs.push(r)) == spec_deposit(
            apply_requests(m, reqs),
            r.account@,
            r.amount as int,
        ),
    decreases reqs.len(),
{
    if reqs.len() == 0 {
        assert(reqs.push(r)[0] == r);
        assert(reqs.push(r).skip(1) =~= Seq::<DepositRequest>::empty());
        assert(apply_requests(
            spec_deposit(m, r.account@, r.amount as int),
            Seq::<DepositRequest>::empty(),
        ) == spec_deposit(m, r.account@, r.amount as int));
    } else {
        assert(reqs.push(r)[0] == reqs[0]);
        assert(reqs.push(r).skip(1) =~= reqs.skip(1).push(r));
        lemma_apply_requests_snoc(
            spec_deposit(m, reqs[0].account@, reqs[0].amount as int),
            reqs.skip(1),
            r,
        );
    }
}

/// No update is lost on the actor's path either: draining a batch of N
/// requests that all deposit `a` to a known account leaves that account at
/// exactly its old balance plus `N * a`, and touches no other account.
pub proof fn lemma_uniform_requests_total(
    m: Map<Seq<char>, int>,
    reqs: Seq<DepositRequest>,
    id: Seq<char>,
    a: int,
)
    requires
        m.dom().contains(id),
        forall|i: int|
            0 <= i < reqs.len() ==> (#[trigger] reqs[i]).account@ == id && reqs[i].amount as int
                == a,
    ensures
        apply_requests(m, reqs).dom() == m.dom(),
        apply_requests(m, reqs)[id] == m[id] + reqs.len() * a,
        forall|k: Seq<char>|
            #[trigger] m.dom().contains(k) && k != id ==> apply_requests(m, reqs)[k] == m[k],
    decreases reqs.len(),
{
    if reqs.len() == 0 {
    } else {
        let m1 = spec_deposit(m, reqs[0].account@, reqs[0].amount as int);
        lemma_deposit_preserves_dom(m, reqs[0].account@, reqs[0].amount as int);
        assert forall|i: int|
            0 <= i < reqs.skip(1).len() implies (#[trigger] reqs.skip(1)[i]).account@ == id
            && reqs.skip(1)[i].amount as int == a by {
            assert(reqs.skip(1)[i] == reqs[i + 1]);
        }
        lemma_uniform_requests_total(m1, reqs.skip(1), id, a);
        assert(a + (reqs.len() - 1) * a == reqs.len() * a) by (nonlinear_arith) {}
    }
}

impl View for LedgerActor {
    type V = Map<Seq<char>, int>;

    closed spec fn view(&self) -> Map<Seq<char>, int> {
        self.ledger@
    }
}

impl LedgerActor {
    /// The actor's internal invariant.
    pub closed spec fn wf(&self) -> bool {
        self.ledger.wf()
    }

    /// Whether the actor is still in its Running phase.
    pub closed spec fn running(&self) -> bool {
        self.phase is Running
    }

    /// Creates the actor in its Running phase, taking sole ownership of an
    /// initialized ledger.
    pub fn start(ledger: LedgerState) -> (r: LedgerActor)
        requires
            ledger.wf(),
        ensures
            r.wf(),
            r.running(),
            r@ == ledger@,
    {
        LedgerActor { ledger, phase: ActorPhase::Running }
    }

    /// Reports the actor's phase to the surrounding task.
    pub fn is_running(&self) -> (r: bool)
        ensures
            r == self.running(),
    {
        match self.phase {
            ActorPhase::Running => true,
            ActorPhase::Stopped => false,
        }
    }

    /// Reads one account's balance without mutating anything.
    pub fn balance_of(&self, account: &str) -> (r: Option<i32>)
        requires
            self.wf(),
        ensures
            match r {
                Some(b) => self@.dom().contains(account@) && b as int == self@[account@],
                None => !self@.dom().contains(account@),
            },
    {
        self.ledger.balance_of(account)
    }

    /// Handles the next request taken from the inbox: one atomic mutation,
    /// whose outcome the surrounding task sends back on the request's reply
    /// channel.
    pub fn handle_deposit(&mut self, account: &str, amount: i32) -> (r: DepositOutcome)
        requires
            old(self).wf(),
            old(self).running(),
            old(self)@.dom().contains(account@) ==> i32::MIN <= old(self)@[account@] + amount
                <= i32::MAX,
        ensures
            final(self).wf(),
            final(self).running(),
            final(self)@ == spec_deposit(old(self)@, account@, amount as int),
            r == spec_outcome(old(self)@, account@, amount as int),
    {
        self.ledger.deposit(account, amount)
    }

    /// The sole transition to the terminal phase, taken exactly once, when
    /// the inbox reports closed: every caller handle was dropped and no
    /// message remains. The ledger is left untouched, and since every mutator
    /// requires the Running phase, no further side effect can follow.
    pub fn handle_inbox_closed(&mut self)
        requires
            old(self).running(),
        ensures
            !final(self).running(),
            final(self)@ == old(self)@,
            final(self).wf() == old(self).wf(),
    {
        self.phase = ActorPhase::Stopped;
    }

    /// Surrenders the ledger once the actor has stopped, so the driver can
    /// report the final state.
    pub fn into_ledger(self) -> (r: LedgerState)
        requires
            !self.running(),
        ensures
            r@ == self@,
            r.wf() == self.wf(),
    {
        self.ledger
    }

    /// Drains a batch of requests in strict arrival order: the outcome at
    /// index `i` is computed against the state reached by requests `0..i`
    /// alone, so outcomes leave in exactly the order the requests arrived —
    /// the ordering guarantee the lock-based strategies do not make.
    pub fn process_batch(&mut self, requests: &Vec<DepositRequest>) -> (outcomes: Vec<
        DepositOutcome,
    >)
        requires
            old(self).wf(),
            old(self).running(),
            requests_in_bounds(old(self)@, requests@),
        ensures
            final(self).wf(),
            final(self).running(),
            final(self)@ == apply_requests(old(self)@, requests@),
            outcomes@.len() == requests@.len(),
            forall|i: int|
                0 <= i < requests@.len() ==> outcomes@[i] == spec_outcome(
                    apply_requests(old(self)@, requests@.take(i)),
                    requests@[i].account@,
                    requests@[i].amount as int,
                ),
    {
        let ghost m0 = old(self)@;
        proof {
            assert(requests@.skip(0) =~= requests@);
            assert(requests@.take(0) =~= Seq::<DepositRequest>::empty());
            assert(apply_requests(m0, Seq::<DepositRequest>::empty()) == m0);
        }
        let n = requests.len();
        let mut outcomes: Vec<DepositOutcome> = Vec::new();
        let mut k: usize = 0;
        while k < n
            invariant
                self.wf(),
                self.running(),
                n == requests@.len(),
                0 <= k <= n,
                self@ == apply_requests(m0, requests@.take(k as int)),
                requests_in_bounds(self@, requests@.skip(k as int)),
                outcomes@.len() == k as int,
                forall|i: int|
                    0 <= i < k ==> outcomes@[i] == spec_outcome(
                        apply_requests(m0, requests@.take(i)),
                        requests@[i].account@,
                        requests@[i].amount as int,
                    ),
            decreases n - k,
        {
            proof {
                assert(requests@.skip(k as int)[0] == requests@[k as int]);
            }
            let req = &requests[k];
            let outcome = self.handle_deposit(req.account.as_str(), req.amount);
            proof {
                assert(requests@.take(k as int + 1) =~= requests@.take(k as int).push(
                    requests@[k as int],
                ));
                lemma_apply_requests_snoc(m0, requests@.take(k as int), requests@[k as int]);
                assert(requests@.skip(k as int).skip(1) =~= requests@.skip(k as int + 1));
            }
            outcomes.push(outcome);
            k += 1;
        }
        proof {
            assert(requests@.take(n as int) =~= requests@);
        }
        outcomes
    }
}

} // verus!
