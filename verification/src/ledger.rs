//! The ledger state and the deposit semantics that every coordination
//! strategy serializes: a mapping from account identifier to signed balance,
//! mutated by one atomic lookup-and-update at a time.

use vstd::prelude::*;

verus! {

/// The result of one deposit request: the account's new balance on success,
/// or a signal that the account identifier is unknown. A deposit to an
/// unknown identifier is a reported condition, never a crash, and leaves the
/// ledger unchanged.
#[derive(Clone, Copy, Debug, PartialEq, Eq, Structural)]
pub enum DepositOutcome {
    Balance(i32),
    NotFound,
}

/// One ledger entry: an account identifier and its signed balance.
struct Account {
    id: String,
    balance: i32,
}

/// The ledger state: the single source of truth each strategy must protect.
/// Account identifiers are unique within one instance; unknown identifiers
/// are absent, not zero. Viewed abstractly as a finite map from identifier
/// (as a sequence of characters) to a mathematical integer balance.
pub struct LedgerState {
    accounts: Vec<Account>,
}

/// What one deposit does to the ledger mapping: if the identifier is known,
/// its balance grows by `amount` (which may be of any sign); otherwise the
/// mapping is unchanged.
pub open spec fn spec_deposit(m: Map<Seq<char>, int>, id: Seq<char>, amount: int) -> Map<
    Seq<char>,
    int,
> {
    if m.dom().contains(id) {
        m.insert(id, m[id] + amount)
    } else {
        m
    }
}

/// The outcome one deposit reports: the new balance if the identifier is
/// known, and a not-found signal otherwise.
pub open spec fn spec_outcome(m: Map<Seq<char>, int>, id: Seq<char>, amount: int) -> DepositOutcome {
    if m.dom().contains(id) {
        DepositOutcome::Balance((m[id] + amount) as i32)
    } else {
        DepositOutcome::NotFound
    }
}

/// The mapping that a sequence of entries denotes.
spec fn map_of(s: Seq<Account>) -> Map<Seq<char>, int>
    decreases s.len(),
{
    if s.len() == 0 {
        Map::empty()
    } else {
        map_of(s.drop_last()).insert(s.last().id@, s.last().balance as int)
    }
}

/// No two entries carry the same identifier.
spec fn unique_ids(s: Seq<Account>) -> bool {
    forall|i: int, j: int| 0 <= i < j < s.len() ==> s[i].id@ != s[j].id@
}

/// Some entry carries the identifier `k`.
spec fn holds_id(s: Seq<Account>, k: Seq<char>) -> bool {
    exists|i: int| 0 <= i < s.len() && (#[trigger] s[i]).id@ == k
}

impl View for LedgerState {
    type V = Map<Seq<char>, int>;

    closed spec fn view(&self) -> Map<Seq<char>, int> {
        map_of(self.accounts@)
    }
}

proof fn lemma_map_of_dom(s: Seq<Account>)
    ensures
        forall|k: Seq<char>| #[trigger] map_of(s).dom().contains(k) <==> holds_id(s, k),
    decreases s.len(),
{
    if s.len() == 0 {
        assert forall|k: Seq<char>| #[trigger] map_of(s).dom().contains(k) <==> holds_id(
            s,
            k,
        ) by {
            assert(!map_of(s).dom().contains(k));
        }
    } else {
        let t = s.drop_last();
        lemma_map_of_dom(t);
        assert forall|k: Seq<char>| #[trigger] map_of(s).dom().contains(k) <==> holds_id(
            s,
            k,
        ) by {
            if map_of(s).dom().contains(k) {
                if k == s.last().id@ {
                    assert(0 <= s.len() - 1 < s.len() && s[s.len() - 1].id@ == k);
                } else {
                    assert(map_of(t).dom().contains(k));
                    let i = choose|i: int| 0 <= i < t.len() && (#[trigger] t[i]).id@ == k;
                    assert(s[i] == t[i]);
                }
            }
            if holds_id(s, k) {
                let i = choose|i: int| 0 <= i < s.len() && (#[trigger] s[i]).id@ == k;
                if i < s.len() - 1 {
                    assert(t[i] == s[i]);
                    assert(holds_id(t, k));
                }
            }
        }
    }
}

proof fn lemma_unique_drop_last(s: Seq<Account>)
    requires
        unique_ids(s),
        s.len() > 0,
    ensures
        unique_ids(s.drop_last()),
{
    let t = s.drop_last();
    assert forall|i: int, j: int| 0 <= i < j < t.len() implies t[i].id@ != t[j].id@ by {
        assert(t[i] == s[i]);
        assert(t[j] == s[j]);
    }
}

proof fn lemma_map_of_index(s: Seq<Account>, i: int)
    requires
        unique_ids(s),
        0 <= i < s.len(),
    ensures
        map_of(s).dom().contains(s[i].id@),
        map_of(s)[s[i].id@] == s[i].balance as int,
    decreases s.len(),
{
    let t = s.drop_last();
    if i == s.len() - 1 {
    } else {
        lemma_unique_drop_last(s);
        assert(t[i] == s[i]);
        lemma_map_of_index(t, i);
        assert(s[i].id@ != s.last().id@);
    }
}

proof fn lemma_map_of_update(s: Seq<Account>, i: int, a: Account)
    requires
        unique_ids(s),
        0 <= i < s.len(),
        a.id@ == s[i].id@,
    ensures
        map_of(s.update(i, a)) == map_of(s).insert(a.id@, a.balance as int),
    decreases s.len(),
{
    let s2 = s.update(i, a);
    let t = s.drop_last();
    let k = a.id@;
    if i == s.len() - 1 {
        assert(s2.drop_last() =~= t);
        assert(s2.last() == a);
        assert(map_of(t).insert(k, s.last().balance as int).insert(k, a.balance as int)
            =~= map_of(t).insert(k, a.balance as int));
    } else {
        lemma_unique_drop_last(s);
        assert(t[i] == s[i]);
        lemma_map_of_update(t, i, a);
        assert(s2.drop_last() =~= t.update(i, a));
        assert(s2.last() == s.last());
        let lk = s.last().id@;
        let lb = s.last().balance as int;
        assert(k != lk);
        assert(map_of(t).insert(k, a.balance as int).insert(lk, lb) =~= map_of(t).insert(
            lk,
            lb,
        ).insert(k, a.balance as int));
    }
}

proof fn lemma_map_of_bounded(s: Seq<Account>)
    ensures
        forall|k: Seq<char>| #[trigger] map_of(s).dom().contains(k) ==> i32::MIN <= map_of(s)[k]
            <= i32::MAX,
    decreases s.len(),
{
    if s.len() == 0 {
    } else {
        let t = s.drop_last();
        lemma_map_of_bounded(t);
        assert forall|k: Seq<char>| #[trigger] map_of(s).dom().contains(k) implies i32::MIN
            <= map_of(s)[k] <= i32::MAX by {
            if k != s.last().id@ {
                assert(map_of(t).dom().contains(k));
                assert(map_of(s)[k] == map_of(t)[k]);
            }
        }
    }
}

impl LedgerState {
    /// The ledger's internal invariant: account identifiers are unique, so
    /// the entry list denotes its mapping faithfully.
    pub closed spec fn wf(&self) -> bool {
        unique_ids(self.accounts@)
    }

    /// Every balance held by a well-formed ledger fits a signed 32-bit word.
    pub proof fn lemma_balances_bounded(&self)
        ensures
            forall|k: Seq<char>| #[trigger] self@.dom().contains(k) ==> i32::MIN <= self@[k]
                <= i32::MAX,
    {
        lemma_map_of_bounded(self.accounts@);
    }

    /// Reads one account's balance without mutating anything.
    pub fn balance_of(&self, account: &str) -> (r: Option<i32>)
        requires
            self.wf(),
        ensures
            match r {
                Some(b) => self@.dom().contains(account@) && b as int == self@[account@],
                None => !self@.dom().contains(account@),
            },
    {
        let key: String = account.to_owned();
        let n = self.accounts.len();
        let mut i: usize = 0;
        while i < n
            invariant
                self.wf(),
                n == self.accounts.len(),
                0 <= i <= n,
                key@ == account@,
                forall|j: int| 0 <= j < i ==> (#[trigger] self.accounts@[j]).id@ != account@,
            decreases n - i,
        {
            if self.accounts[i].id == key {
                let b = self.accounts[i].balance;
                proof {
                    lemma_map_of_index(self.accounts@, i as int);
                }
                return Some(b);
            }
            i += 1;
        }
        proof {
            lemma_map_of_dom(self.accounts@);
        }
        None
    }

    /// The atomic lookup-and-update at the heart of every strategy: adds
    /// `amount` to the named account's balance and reports the new balance,
    /// or reports not-found and leaves the ledger exactly as it was.
    pub fn deposit(&mut self, account: &str, amount: i32) -> (r: DepositOutcome)
        requires
            old(self).wf(),
            old(self)@.dom().contains(account@) ==> i32::MIN <= old(self)@[account@] + amount
                <= i32::MAX,
        ensures
            final(self).wf(),
            final(self)@ == spec_deposit(old(self)@, account@, amount as int),
            r == spec_outcome(old(self)@, account@, amount as int),
    {
        let key: String = account.to_owned();
        let n = self.accounts.len();
        let mut i: usize = 0;
        while i < n
            invariant
                self.accounts@ == old(self).accounts@,
                old(self).wf(),
                n == self.accounts.len(),
                0 <= i <= n,
                key@ == account@,
                old(self)@.dom().contains(account@) ==> i32::MIN <= old(self)@[account@] + amount
                    <= i32::MAX,
                forall|j: int| 0 <= j < i ==> (#[trigger] self.accounts@[j]).id@ != account@,
            decreases n - i,
        {
            if self.accounts[i].id == key {
                proof {
                    lemma_map_of_index(self.accounts@, i as int);
                }
                let bal = self.accounts[i].balance;
                let new_balance = bal + amount;
                let id = self.accounts[i].id.clone();
                let ghost s0 = self.accounts@;
                self.accounts[i] = Account { id, balance: new_balance };
                proof {
                    let a = Account { id: s0[i as int].id, balance: new_balance };
                    assert(self.accounts@ =~= s0.update(i as int, a));
                    lemma_map_of_update(s0, i as int, a);
                    assert forall|p: int, q: int|
                        0 <= p < q < self.accounts@.len() implies self.accounts@[p].id@
                        != self.accounts@[q].id@ by {
                        assert(self.accounts@[p].id@ == s0[p].id@);
                        assert(self.accounts@[q].id@ == s0[q].id@);
                    }
                }
                return DepositOutcome::Balance(new_balance);
            }
            i += 1;
        }
        proof {
            lemma_map_of_dom(self.accounts@);
        }
        DepositOutcome::NotFound
    }
}

/// Seeds a fresh ledger from identifier/balance pairs; the pairs must carry
/// distinct identifiers, as identifiers are unique within one ledger. The
/// resulting mapping holds exactly the seeded accounts at their seeded
/// balances.
pub fn create_ledger(seed: Vec<(String, i32)>) -> (r: LedgerState)
    requires
        forall|i: int, j: int| 0 <= i < j < seed@.len() ==> seed@[i].0@ != seed@[j].0@,
    ensures
        r.wf(),
        forall|i: int|
            0 <= i < seed@.len() ==> r@.dom().contains(#[trigger] seed@[i].0@) && r@[seed@[i].0@]
                == seed@[i].1 as int,
        forall|k: Seq<char>| #[trigger] r@.dom().contains(k) ==> exists|i: int|
            0 <= i < seed@.len() && (#[trigger] seed@[i]).0@ == k,
{
    let mut accounts: Vec<Account> = Vec::new();
    let n = seed.len();
    let mut i: usize = 0;
    while i < n
        invariant
            n == seed.len(),
            0 <= i <= n,
            accounts@.len() == i,
            forall|j: int, l: int| 0 <= j < l < seed@.len() ==> seed@[j].0@ != seed@[l].0@,
            forall|j: int|
                0 <= j < i ==> (#[trigger] accounts@[j]).id@ == seed@[j].0@ && accounts@[j].balance
                    == seed@[j].1,
        decreases n - i,
    {
        let id = seed[i].0.clone();
        let balance = seed[i].1;
        accounts.push(Account { id, balance });
        i += 1;
    }
    let r = LedgerState { accounts };
    proof {
        assert(unique_ids(r.accounts@));
        lemma_map_of_dom(r.accounts@);
        assert forall|j: int| 0 <= j < seed@.len() implies r@.dom().contains(
            #[trigger] seed@[j].0@,
        ) && r@[seed@[j].0@] == seed@[j].1 as int by {
            lemma_map_of_index(r.accounts@, j);
        }
    }
    r
}

/// A deposit to an unknown identifier is an exact no-op: the mapping is
/// unchanged and the reported outcome is the not-found signal.
pub proof fn lemma_deposit_unknown_is_noop(m: Map<Seq<char>, int>, id: Seq<char>, amount: int)
    requires
        !m.dom().contains(id),
    ensures
        spec_deposit(m, id, amount) == m,
        spec_outcome(m, id, amount) == DepositOutcome::NotFound,
{
}

/// A deposit never adds or removes accounts: the domain of the mapping is
/// untouched whether the deposit succeeds or reports not-found.
pub proof fn lemma_deposit_preserves_dom(m: Map<Seq<char>, int>, id: Seq<char>, amount: int)
    ensures
        spec_deposit(m, id, amount).dom() == m.dom(),
{
    if m.dom().contains(id) {
        assert(spec_deposit(m, id, amount).dom() =~= m.dom());
    }
}

/// Two deposits commute: applying them in either order yields the same
/// mapping. Hence any serialization of a set of deposits — whatever order a
/// lock grants its waiters — reaches the same final ledger, and no update is
/// lost.
pub proof fn lemma_deposit_commutes(
    m: Map<Seq<char>, int>,
    id1: Seq<char>,
    a1: int,
    id2: Seq<char>,
    a2: int,
)
    ensures
        spec_deposit(spec_deposit(m, id1, a1), id2, a2) == spec_deposit(
            spec_deposit(m, id2, a2),
            id1,
            a1,
        ),
{
    lemma_deposit_preserves_dom(m, id1, a1);
    lemma_deposit_preserves_dom(m, id2, a2);
    assert(spec_deposit(spec_deposit(m, id1, a1), id2, a2) =~= spec_deposit(
        spec_deposit(m, id2, a2),
        id1,
        a1,
    ));
}

} // verus!
