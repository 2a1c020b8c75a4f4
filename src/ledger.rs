//! The voting power ledger: per-account delegation, voting units, vote
//! histories and nonces, with the total supply history.

use crate::checkpoints::{Checkpoint, Checkpoints, latest_of, last_time_of, pushed, lookup};
use crate::signature::{Signature, delegation_message, delegation_message_of, signature_accepts};
use crate::{AccountId, GovernanceError};
use vstd::prelude::*;

verus! {

/// What the ledger knows of one account.
pub struct AccountView {
    /// The explicit delegate, if any.
    pub delegatee: Option<AccountId>,
    /// The voting units that the account holds.
    pub units: u128,
    /// The history of the votes delegated to the account.
    pub votes: Seq<Checkpoint>,
    /// The next nonce that a signed request of the account must carry.
    pub nonce: u64,
}

/// An account never seen by the ledger.
pub open spec fn blank() -> AccountView {
    AccountView { delegatee: None, units: 0, votes: Seq::empty(), nonce: 0 }
}

struct Account {
    id: AccountId,
    delegatee: Option<AccountId>,
    units: u128,
    votes: Checkpoints,
    nonce: u64,
}

spec fn view_of(a: Account) -> AccountView {
    AccountView { delegatee: a.delegatee, units: a.units, votes: a.votes@, nonce: a.nonce }
}

spec fn effective_of(a: Account) -> AccountId {
    match a.delegatee {
        Some(d) => d,
        None => a.id,
    }
}

spec fn known(s: Seq<Account>, a: AccountId) -> bool {
    exists|i: int| 0 <= i < s.len() && s[i].id == a
}

spec fn entry(s: Seq<Account>, a: AccountId) -> AccountView {
    if known(s, a) {
        view_of(s[choose|i: int| 0 <= i < s.len() && s[i].id == a])
    } else {
        blank()
    }
}

spec fn unique(s: Seq<Account>) -> bool {
    forall|i: int, j: int| 0 <= i < s.len() && 0 <= j < s.len() && s[i].id == s[j].id ==> i == j
}

spec fn sum_of(s: Seq<Account>, w: spec_fn(Account) -> int) -> int
    decreases s.len(),
{
    if s.len() == 0 {
        0
    } else {
        sum_of(s.drop_last(), w) + w(s.last())
    }
}

spec fn w_votes() -> spec_fn(Account) -> int {
    |a: Account| latest_of(a.votes@) as int
}

spec fn w_units() -> spec_fn(Account) -> int {
    |a: Account| a.units as int
}

spec fn w_delegated(d: AccountId) -> spec_fn(Account) -> int {
    |a: Account|
        if effective_of(a) == d {
            a.units as int
        } else {
            0
        }
}

proof fn lemma_sum_update(s: Seq<Account>, i: int, r: Account, w: spec_fn(Account) -> int)
    requires
        0 <= i < s.len(),
    ensures
        sum_of(s.update(i, r), w) == sum_of(s, w) - w(s[i]) + w(r),
    decreases s.len(),
{
    let u = s.update(i, r);
    if i == s.len() - 1 {
        assert(u.drop_last() =~= s.drop_last());
    } else {
        assert(u.drop_last() =~= s.drop_last().update(i, r));
        lemma_sum_update(s.drop_last(), i, r, w);
    }
}

proof fn lemma_sum_push(s: Seq<Account>, r: Account, w: spec_fn(Account) -> int)
    ensures
        sum_of(s.push(r), w) == sum_of(s, w) + w(r),
{
    assert(s.push(r).drop_last() =~= s);
}

proof fn lemma_sum_bound(s: Seq<Account>, i: int, w: spec_fn(Account) -> int)
    requires
        0 <= i < s.len(),
        forall|j: int| 0 <= j < s.len() ==> w(#[trigger] s[j]) >= 0,
    ensures
        w(s[i]) <= sum_of(s, w),
    decreases s.len(),
{
    lemma_sum_nonneg(s.drop_last(), w);
    if i < s.len() - 1 {
        assert forall|j: int| 0 <= j < s.drop_last().len() implies w(#[trigger] s.drop_last()[j]) >= 0 by {
            assert(s.drop_last()[j] == s[j]);
        }
        lemma_sum_bound(s.drop_last(), i, w);
    }
}

proof fn lemma_sum_nonneg(s: Seq<Account>, w: spec_fn(Account) -> int)
    requires
        forall|j: int| 0 <= j < s.len() ==> w(#[trigger] s[j]) >= 0,
    ensures
        sum_of(s, w) >= 0,
    decreases s.len(),
{
    if s.len() > 0 {
        assert forall|j: int| 0 <= j < s.drop_last().len() implies w(#[trigger] s.drop_last()[j]) >= 0 by {
            assert(s.drop_last()[j] == s[j]);
        }
        lemma_sum_nonneg(s.drop_last(), w);
    }
}

proof fn lemma_entry_at(s: Seq<Account>, i: int)
    requires
        unique(s),
        0 <= i < s.len(),
    ensures
        entry(s, s[i].id) == view_of(s[i]),
{
    assert(known(s, s[i].id));
}

proof fn lemma_entry_update(s: Seq<Account>, i: int, r: Account)
    requires
        unique(s),
        0 <= i < s.len(),
        r.id == s[i].id,
    ensures
        unique(s.update(i, r)),
        forall|b: AccountId|
            #[trigger] entry(s.update(i, r), b) == if b == r.id {
                view_of(r)
            } else {
                entry(s, b)
            },
{
    let u = s.update(i, r);
    assert forall|b: AccountId| #[trigger] entry(u, b) == if b == r.id {
        view_of(r)
    } else {
        entry(s, b)
    } by {
        if b == r.id {
            lemma_entry_at(u, i);
        } else {
            assert(known(u, b) == known(s, b)) by {
                if known(s, b) {
                    let j = choose|j: int| 0 <= j < s.len() && s[j].id == b;
                    assert(u[j].id == b);
                }
                if known(u, b) {
                    let j = choose|j: int| 0 <= j < u.len() && u[j].id == b;
                    assert(s[j].id == b);
                }
            }
            if known(s, b) {
                let j = choose|j: int| 0 <= j < s.len() && s[j].id == b;
                lemma_entry_at(s, j);
                lemma_entry_at(u, j);
            }
        }
    }
}

proof fn lemma_entry_push(s: Seq<Account>, r: Account)
    requires
        unique(s),
        !known(s, r.id),
    ensures
        unique(s.push(r)),
        forall|b: AccountId|
            #[trigger] entry(s.push(r), b) == if b == r.id {
                view_of(r)
            } else {
                entry(s, b)
            },
{
    let u = s.push(r);
    assert forall|i: int, j: int|
        0 <= i < u.len() && 0 <= j < u.len() && u[i].id == u[j].id implies i == j by {
        if i < s.len() && j == s.len() {
            assert(s[i].id == r.id);
        }
        if j < s.len() && i == s.len() {
            assert(s[j].id == r.id);
        }
    }
    assert forall|b: AccountId| #[trigger] entry(u, b) == if b == r.id {
        view_of(r)
    } else {
        entry(s, b)
    } by {
        if b == r.id {
            lemma_entry_at(u, s.len() as int);
        } else {
            assert(known(u, b) == known(s, b)) by {
                if known(s, b) {
                    let j = choose|j: int| 0 <= j < s.len() && s[j].id == b;
                    assert(u[j].id == b);
                }
            }
            if known(s, b) {
                let j = choose|j: int| 0 <= j < s.len() && s[j].id == b;
                lemma_entry_at(s, j);
                lemma_entry_at(u, j);
            }
        }
    }
}

proof fn lemma_units_bound(s: Seq<Account>, i: int)
    requires
        0 <= i < s.len(),
    ensures
        s[i].units <= sum_of(s, w_units()),
{
    assert forall|j: int| 0 <= j < s.len() implies w_units()(#[trigger] s[j]) >= 0 by {}
    lemma_sum_bound(s, i, w_units());
}

proof fn lemma_votes_bound(s: Seq<Account>, i: int)
    requires
        0 <= i < s.len(),
    ensures
        latest_of(s[i].votes@) <= sum_of(s, w_votes()),
{
    assert forall|j: int| 0 <= j < s.len() implies w_votes()(#[trigger] s[j]) >= 0 by {}
    lemma_sum_bound(s, i, w_votes());
}

proof fn lemma_delegated_bound(s: Seq<Account>, i: int, d: AccountId)
    requires
        0 <= i < s.len(),
        effective_of(s[i]) == d,
    ensures
        s[i].units <= sum_of(s, w_delegated(d)),
{
    assert forall|j: int| 0 <= j < s.len() implies w_delegated(d)(#[trigger] s[j]) >= 0 by {}
    lemma_sum_bound(s, i, w_delegated(d));
}

pub(crate) fn same_account(a: &AccountId, b: &AccountId) -> (r: bool)
    ensures
        r == (*a == *b),
        r == (a@ == b@),
{
    let mut i: usize = 0;
    while i < 32
        invariant
            0 <= i <= 32,
            forall|j: int| 0 <= j < i ==> a[j] == b[j],
        decreases 32 - i,
    {
        if a[i] != b[i] {
            assert(a@[i as int] != b@[i as int]);
            return false;
        }
        i = i + 1;
    }
    proof {
        broadcast use vstd::array::group_array_axioms;

        assert(*a =~= *b);
    }
    true
}

/// The ledger of voting power.
pub struct Votes {
    accounts: Vec<Account>,
    total: Checkpoints,
    clock: u64,
}

impl Votes {
    /// What the ledger knows of account `a`.
    pub closed spec fn account(&self, a: AccountId) -> AccountView {
        entry(self.accounts@, a)
    }

    /// The history of the total supply.
    pub closed spec fn total_series(&self) -> Seq<Checkpoint> {
        self.total@
    }

    /// The latest time at which the ledger was written.
    pub closed spec fn clock(&self) -> u64 {
        self.clock
    }

    /// The accounts that the ledger holds a record for, each once.
    pub closed spec fn known_accounts(&self) -> Seq<AccountId> {
        self.accounts@.map_values(|a: Account| a.id)
    }

    /// The account whose votes `a`'s voting units count towards: its explicit
    /// delegate, or itself when it has none.
    pub open spec fn effective(&self, a: AccountId) -> AccountId {
        match self.account(a).delegatee {
            Some(d) => d,
            None => a,
        }
    }

    /// The current votes of `a`.
    pub open spec fn votes_of(&self, a: AccountId) -> u128 {
        latest_of(self.account(a).votes)
    }

    /// The current total supply.
    pub open spec fn supply(&self) -> u128 {
        latest_of(self.total_series())
    }

    /// The current votes of each of `ids`, added up.
    pub open spec fn votes_sum(&self, ids: Seq<AccountId>) -> int
        decreases ids.len(),
    {
        if ids.len() == 0 {
            0
        } else {
            self.votes_sum(ids.drop_last()) + self.votes_of(ids.last())
        }
    }

    /// The voting units of the accounts whose effective delegate is `d`.
    closed spec fn delegated(&self, d: AccountId) -> int {
        sum_of(self.accounts@, w_delegated(d))
    }

    closed spec fn shape(&self) -> bool {
        &&& unique(self.accounts@)
        &&& forall|i: int|
            0 <= i < self.accounts@.len() ==> (#[trigger] self.accounts@[i]).votes.wf()
                && last_time_of(self.accounts@[i].votes@) <= self.clock
        &&& self.total.wf()
        &&& last_time_of(self.total@) <= self.clock
    }

    /// The ledger's invariant: records are unique per account and their
    /// histories ordered and not ahead of the clock; the votes of each account
    /// are the voting units of the accounts that delegate to it; the votes, as
    /// the voting units, of all accounts add up to the total supply.
    pub closed spec fn wf(&self) -> bool {
        &&& self.shape()
        &&& sum_of(self.accounts@, w_votes()) == self.supply()
        &&& sum_of(self.accounts@, w_units()) == self.supply()
        &&& forall|d: AccountId| #[trigger] self.votes_of(d) == self.delegated(d)
    }

    closed spec fn id_at(&self, i: int) -> AccountId {
        self.accounts@[i].id
    }

    /// A ledger with no accounts and no supply.
    pub fn new() -> (r: Votes)
        ensures
            r.wf(),
            forall|b: AccountId| #[trigger] r.account(b) == blank(),
            r.total_series() == Seq::<Checkpoint>::empty(),
            r.clock() == 0,
    {
        let r = Votes { accounts: Vec::new(), total: Checkpoints::new(), clock: 0 };
        assert forall|d: AccountId| #[trigger] r.votes_of(d) == r.delegated(d) by {
            assert(!known(r.accounts@, d));
        }
        r
    }

    /// The latest time at which the ledger was written.
    pub fn last_write_time(&self) -> (r: u64)
        ensures
            r == self.clock(),
    {
        self.clock
    }

    fn find(&self, a: &AccountId) -> (r: Option<usize>)
        ensures
            match r {
                Some(i) => i < self.accounts@.len() && self.accounts@[i as int].id == *a,
                None => !known(self.accounts@, *a),
            },
    {
        let mut i: usize = 0;
        while i < self.accounts.len()
            invariant
                0 <= i <= self.accounts@.len(),
                forall|j: int| 0 <= j < i ==> self.accounts@[j].id != *a,
            decreases self.accounts@.len() - i,
        {
            if same_account(&self.accounts[i].id, a) {
                return Some(i);
            }
            i = i + 1;
        }
        None
    }

    /// The index of `a`'s record, made blank where there was none.
    fn slot(&mut self, a: &AccountId) -> (i: usize)
        requires
            old(self).shape(),
        ensures
            final(self).shape(),
            i < final(self).accounts@.len(),
            final(self).id_at(i as int) == *a,
            forall|b: AccountId| #[trigger] final(self).account(b) == old(self).account(b),
            final(self).total == old(self).total,
            final(self).clock == old(self).clock,
            sum_of(final(self).accounts@, w_votes()) == sum_of(old(self).accounts@, w_votes()),
            sum_of(final(self).accounts@, w_units()) == sum_of(old(self).accounts@, w_units()),
            forall|d: AccountId| #[trigger] final(self).delegated(d) == old(self).delegated(d),
    {
        match self.find(a) {
            Some(i) => i,
            None => {
                let r = Account { id: *a, delegatee: None, units: 0, votes: Checkpoints::new(), nonce: 0 };
                proof {
                    lemma_entry_push(self.accounts@, r);
                    lemma_sum_push(self.accounts@, r, w_votes());
                    lemma_sum_push(self.accounts@, r, w_units());
                    assert forall|d: AccountId| #[trigger] sum_of(self.accounts@.push(r), w_delegated(d))
                        == sum_of(self.accounts@, w_delegated(d)) by {
                        lemma_sum_push(self.accounts@, r, w_delegated(d));
                    }
                }
                self.accounts.push(r);
                assert(view_of(r) == blank());
                self.accounts.len() - 1
            },
        }
    }

    fn put_units(&mut self, i: usize, units: u128)
        requires
            old(self).shape(),
            i < old(self).accounts@.len(),
        ensures
            final(self).shape(),
            final(self).accounts@.len() == old(self).accounts@.len(),
            forall|j: int| 0 <= j < final(self).accounts@.len() ==> final(self).id_at(j) == old(self).id_at(j),
            forall|b: AccountId| #[trigger] final(self).account(b) == if b == old(self).id_at(i as int) {
                AccountView { units, ..old(self).account(b) }
            } else {
                old(self).account(b)
            },
            final(self).total == old(self).total,
            final(self).clock == old(self).clock,
            sum_of(final(self).accounts@, w_votes()) == sum_of(old(self).accounts@, w_votes()),
            sum_of(final(self).accounts@, w_units()) == sum_of(old(self).accounts@, w_units())
                - old(self).account(old(self).id_at(i as int)).units + units,
            forall|d: AccountId| #[trigger] final(self).delegated(d) == old(self).delegated(d)
                + if old(self).effective(old(self).id_at(i as int)) == d {
                    units - old(self).account(old(self).id_at(i as int)).units
                } else {
                    0
                },
    {
        let ghost s = self.accounts@;
        proof {
            lemma_entry_at(s, i as int);
        }
        self.accounts[i].units = units;
        proof {
            let r = self.accounts@[i as int];
            assert(self.accounts@ =~= s.update(i as int, r));
            lemma_entry_update(s, i as int, r);
            lemma_sum_update(s, i as int, r, w_votes());
            lemma_sum_update(s, i as int, r, w_units());
            assert forall|d: AccountId| #[trigger] sum_of(self.accounts@, w_delegated(d))
                == sum_of(s, w_delegated(d)) - w_delegated(d)(s[i as int]) + w_delegated(d)(r) by {
                lemma_sum_update(s, i as int, r, w_delegated(d));
            }
        }
    }

    fn put_delegatee(&mut self, i: usize, delegatee: AccountId)
        requires
            old(self).shape(),
            i < old(self).accounts@.len(),
        ensures
            final(self).shape(),
            final(self).accounts@.len() == old(self).accounts@.len(),
            forall|j: int| 0 <= j < final(self).accounts@.len() ==> final(self).id_at(j) == old(self).id_at(j),
            forall|b: AccountId| #[trigger] final(self).account(b) == if b == old(self).id_at(i as int) {
                AccountView { delegatee: Some(delegatee), ..old(self).account(b) }
            } else {
                old(self).account(b)
            },
            final(self).total == old(self).total,
            final(self).clock == old(self).clock,
            sum_of(final(self).accounts@, w_votes()) == sum_of(old(self).accounts@, w_votes()),
            sum_of(final(self).accounts@, w_units()) == sum_of(old(self).accounts@, w_units()),
            forall|d: AccountId| #[trigger] final(self).delegated(d) == old(self).delegated(d)
                - (if old(self).effective(old(self).id_at(i as int)) == d {
                    old(self).account(old(self).id_at(i as int)).units as int
                } else {
                    0
                }) + (if delegatee == d {
                    old(self).account(old(self).id_at(i as int)).units as int
                } else {
                    0
                }),
    {
        let ghost s = self.accounts@;
        proof {
            lemma_entry_at(s, i as int);
        }
        self.accounts[i].delegatee = Some(delegatee);
        proof {
            let r = self.accounts@[i as int];
            assert(self.accounts@ =~= s.update(i as int, r));
            lemma_entry_update(s, i as int, r);
            lemma_sum_update(s, i as int, r, w_votes());
            lemma_sum_update(s, i as int, r, w_units());
            assert forall|d: AccountId| #[trigger] sum_of(self.accounts@, w_delegated(d))
                == sum_of(s, w_delegated(d)) - w_delegated(d)(s[i as int]) + w_delegated(d)(r) by {
                lemma_sum_update(s, i as int, r, w_delegated(d));
            }
        }
    }

    fn put_nonce(&mut self, i: usize, nonce: u64)
        requires
            old(self).wf(),
            i < old(self).accounts@.len(),
        ensures
            final(self).wf(),
            forall|b: AccountId| #[trigger] final(self).account(b) == if b == old(self).id_at(i as int) {
                AccountView { nonce, ..old(self).account(b) }
            } else {
                old(self).account(b)
            },
            final(self).total == old(self).total,
            final(self).clock == old(self).clock,
    {
        let ghost s = self.accounts@;
        proof {
            lemma_entry_at(s, i as int);
        }
        self.accounts[i].nonce = nonce;
        proof {
            let r = self.accounts@[i as int];
            assert(self.accounts@ =~= s.update(i as int, r));
            lemma_entry_update(s, i as int, r);
            lemma_sum_update(s, i as int, r, w_votes());
            lemma_sum_update(s, i as int, r, w_units());
            assert forall|d: AccountId| #[trigger] self.delegated(d) == old(self).delegated(d) by {
                lemma_sum_update(s, i as int, r, w_delegated(d));
            }
            assert forall|d: AccountId| #[trigger] self.votes_of(d) == self.delegated(d) by {
                assert(old(self).votes_of(d) == old(self).delegated(d));
            }
        }
    }

    fn put_votes(&mut self, i: usize, value: u128)
        requires
            old(self).shape(),
            i < old(self).accounts@.len(),
        ensures
            final(self).shape(),
            final(self).accounts@.len() == old(self).accounts@.len(),
            forall|j: int| 0 <= j < final(self).accounts@.len() ==> final(self).id_at(j) == old(self).id_at(j),
            forall|b: AccountId| #[trigger] final(self).account(b) == if b == old(self).id_at(i as int) {
                AccountView {
                    votes: pushed(old(self).account(b).votes, Checkpoint { timestamp: old(self).clock, value }),
                    ..old(self).account(b)
                }
            } else {
                old(self).account(b)
            },
            final(self).total == old(self).total,
            final(self).clock == old(self).clock,
            sum_of(final(self).accounts@, w_votes()) == sum_of(old(self).accounts@, w_votes())
                - old(self).votes_of(old(self).id_at(i as int)) + value,
            sum_of(final(self).accounts@, w_units()) == sum_of(old(self).accounts@, w_units()),
            forall|d: AccountId| #[trigger] final(self).delegated(d) == old(self).delegated(d),
    {
        let ghost s = self.accounts@;
        proof {
            lemma_entry_at(s, i as int);
        }
        let now = self.clock;
        self.accounts[i].votes.push(now, value);
        proof {
            let r = self.accounts@[i as int];
            assert(self.accounts@ =~= s.update(i as int, r));
            lemma_entry_update(s, i as int, r);
            lemma_sum_update(s, i as int, r, w_votes());
            lemma_sum_update(s, i as int, r, w_units());
            assert forall|d: AccountId| #[trigger] self.delegated(d) == old(self).delegated(d) by {
                lemma_sum_update(s, i as int, r, w_delegated(d));
            }
        }
    }
}

impl Votes {
    fn lookup_account(&self, a: &AccountId) -> (r: (Option<AccountId>, u128, u64))
        requires
            self.shape(),
        ensures
            r.0 == self.account(*a).delegatee,
            r.1 == self.account(*a).units,
            r.2 == self.account(*a).nonce,
    {
        match self.find(a) {
            Some(i) => {
                proof {
                    lemma_entry_at(self.accounts@, i as int);
                }
                (self.accounts[i].delegatee, self.accounts[i].units, self.accounts[i].nonce)
            },
            None => (None, 0, 0),
        }
    }

    /// The explicit delegate of `account`, if it has one.
    pub fn delegates(&self, account: AccountId) -> (r: Option<AccountId>)
        requires
            self.wf(),
        ensures
            r == self.account(account).delegatee,
    {
        self.lookup_account(&account).0
    }

    /// The account that `account`'s voting units count towards.
    pub fn effective_delegate(&self, account: AccountId) -> (r: AccountId)
        requires
            self.wf(),
        ensures
            r == self.effective(account),
    {
        match self.lookup_account(&account).0 {
            Some(d) => d,
            None => account,
        }
    }

    /// The voting units that `account` holds.
    pub fn voting_units(&self, account: AccountId) -> (r: u128)
        requires
            self.wf(),
        ensures
            r == self.account(account).units,
    {
        self.lookup_account(&account).1
    }

    /// The next nonce that a signed request of `account` must carry.
    pub fn nonces(&self, account: AccountId) -> (r: u64)
        requires
            self.wf(),
        ensures
            r == self.account(account).nonce,
    {
        self.lookup_account(&account).2
    }

    /// The current votes of `account`.
    pub fn get_votes(&self, account: AccountId) -> (r: u128)
        requires
            self.wf(),
        ensures
            r == self.votes_of(account),
    {
        match self.find(&account) {
            Some(i) => {
                proof {
                    lemma_entry_at(self.accounts@, i as int);
                }
                self.accounts[i].votes.latest()
            },
            None => 0,
        }
    }

    /// The votes of `account` at `timestamp`, which may not lie after `now`.
    pub fn get_past_votes(&self, account: AccountId, timestamp: u64, now: u64) -> (r: Result<u128, GovernanceError>)
        requires
            self.wf(),
        ensures
            r == if timestamp > now {
                Err(GovernanceError::FutureLookup)
            } else {
                Ok(lookup(self.account(account).votes, timestamp))
            },
    {
        if timestamp > now {
            return Err(GovernanceError::FutureLookup);
        }
        match self.find(&account) {
            Some(i) => {
                proof {
                    lemma_entry_at(self.accounts@, i as int);
                }
                Ok(self.accounts[i].votes.upper_lookup_recent(timestamp))
            },
            None => Ok(0),
        }
    }

    /// The number of entries in the vote history of `account`.
    pub fn num_checkpoints(&self, account: AccountId) -> (r: usize)
        requires
            self.wf(),
        ensures
            r == self.account(account).votes.len(),
    {
        match self.find(&account) {
            Some(i) => {
                proof {
                    lemma_entry_at(self.accounts@, i as int);
                }
                self.accounts[i].votes.len()
            },
            None => 0,
        }
    }

    /// The entry at position `pos` of the vote history of `account`.
    pub fn checkpoints(&self, account: AccountId, pos: usize) -> (r: Option<Checkpoint>)
        requires
            self.wf(),
        ensures
            r == if pos < self.account(account).votes.len() {
                Some(self.account(account).votes[pos as int])
            } else {
                None::<Checkpoint>
            },
    {
        match self.find(&account) {
            Some(i) => {
                proof {
                    lemma_entry_at(self.accounts@, i as int);
                }
                if pos < self.accounts[i].votes.len() {
                    Some(self.accounts[i].votes.checkpoint(pos))
                } else {
                    None
                }
            },
            None => None,
        }
    }

    /// The current total supply.
    pub fn total_supply(&self) -> (r: u128)
        ensures
            r == self.supply(),
    {
        self.total.latest()
    }

    /// The total supply at `timestamp`, which may not lie after `now`.
    pub fn get_past_total_supply(&self, timestamp: u64, now: u64) -> (r: Result<u128, GovernanceError>)
        requires
            self.wf(),
        ensures
            r == if timestamp > now {
                Err(GovernanceError::FutureLookup)
            } else {
                Ok(lookup(self.total_series(), timestamp))
            },
    {
        if timestamp > now {
            return Err(GovernanceError::FutureLookup);
        }
        Ok(self.total.upper_lookup_recent(timestamp))
    }
}

spec fn shift(df: Option<AccountId>, dt: Option<AccountId>, amount: u128, d: AccountId) -> int {
    (if dt == Some(d) { amount as int } else { 0 }) - (if df == Some(d) { amount as int } else { 0 })
}

/// The vote history `h` of account `b` after `amount` votes moved at `now`
/// from delegate `df` to delegate `dt`: nothing is written when no votes move
/// or both sides are the same.
pub open spec fn votes_shifted(h: Seq<Checkpoint>, df: Option<AccountId>, dt: Option<AccountId>, amount: u128, now: u64, b: AccountId) -> Seq<Checkpoint> {
    if amount == 0 || df == dt {
        h
    } else if df == Some(b) {
        pushed(h, Checkpoint { timestamp: now, value: (latest_of(h) - amount) as u128 })
    } else if dt == Some(b) {
        pushed(h, Checkpoint { timestamp: now, value: (latest_of(h) + amount) as u128 })
    } else {
        h
    }
}

/// The effective delegate of the side of a move, if that side is present.
pub open spec fn side_delegate(v: Votes, side: Option<AccountId>) -> Option<AccountId> {
    match side {
        Some(a) => Some(v.effective(a)),
        None => None,
    }
}

impl Votes {
    /// The error that moving `amount` voting units from `from` to `to` meets,
    /// if any: the giving holder lacks the units, or a mint would take the
    /// supply past `u128::MAX`.
    pub open spec fn move_error(&self, from: Option<AccountId>, to: Option<AccountId>, amount: u128) -> Option<
        GovernanceError,
    > {
        match from {
            Some(f) => if self.account(f).units < amount {
                Some(GovernanceError::InsufficientBalance)
            } else {
                None
            },
            None => if (to is Some) && self.supply() + amount > u128::MAX {
                Some(GovernanceError::Overflow)
            } else {
                None
            },
        }
    }

    /// The voting units of `b` after `amount` moved from `from` to `to`.
    pub open spec fn units_after_move(&self, from: Option<AccountId>, to: Option<AccountId>, amount: u128, b: AccountId) -> u128 {
        let u = self.account(b).units;
        if from == Some(b) && to == Some(b) {
            u
        } else if from == Some(b) {
            (u - amount) as u128
        } else if to == Some(b) {
            (u + amount) as u128
        } else {
            u
        }
    }

    /// The vote history of `b` after `amount` voting units moved at `now`
    /// between the effective delegates of `from` and `to`: nothing is written
    /// when no units move or both sides count towards the same account.
    pub open spec fn votes_after_move(&self, from: Option<AccountId>, to: Option<AccountId>, amount: u128, now: u64, b: AccountId) -> Seq<Checkpoint> {
        votes_shifted(self.account(b).votes, side_delegate(*self, from), side_delegate(*self, to), amount, now, b)
    }

    /// The supply history after `amount` voting units moved at `now`: a mint
    /// (no `from`) adds them, a burn (no `to`) removes them.
    pub open spec fn total_after_move(&self, from: Option<AccountId>, to: Option<AccountId>, amount: u128, now: u64) -> Seq<Checkpoint> {
        let h = self.total_series();
        if amount > 0 && (from is None) && (to is Some) {
            pushed(h, Checkpoint { timestamp: now, value: (latest_of(h) + amount) as u128 })
        } else if amount > 0 && (from is Some) && (to is None) {
            pushed(h, Checkpoint { timestamp: now, value: (latest_of(h) - amount) as u128 })
        } else {
            h
        }
    }

    /// A holder's units count towards its effective delegate's votes and
    /// towards the supply.
    proof fn lemma_holder_bounds(&self, a: AccountId)
        requires
            self.wf(),
        ensures
            self.account(a).units <= self.votes_of(self.effective(a)),
            self.account(a).units <= self.supply(),
    {
        let s = self.accounts@;
        if known(s, a) {
            let i = choose|i: int| 0 <= i < s.len() && s[i].id == a;
            lemma_entry_at(s, i);
            lemma_units_bound(s, i);
            lemma_delegated_bound(s, i, self.effective(a));
            assert(self.votes_of(self.effective(a)) == self.delegated(self.effective(a)));
        }
    }

    fn shift_units(&mut self, from: Option<AccountId>, to: Option<AccountId>, amount: u128)
        requires
            old(self).shape(),
            (from is Some) ==> old(self).account(from->0).units >= amount,
            sum_of(old(self).accounts@, w_units()) + (if (from is None) && (to is Some) { amount as int } else { 0 }) <= u128::MAX,
        ensures
            final(self).shape(),
            final(self).total == old(self).total,
            final(self).clock == old(self).clock,
            forall|b: AccountId| #[trigger] final(self).account(b) == (AccountView {
                units: old(self).units_after_move(from, to, amount, b),
                ..old(self).account(b)
            }),
            sum_of(final(self).accounts@, w_votes()) == sum_of(old(self).accounts@, w_votes()),
            sum_of(final(self).accounts@, w_units()) == sum_of(old(self).accounts@, w_units())
                - (if (from is Some) { amount as int } else { 0 }) + (if (to is Some) { amount as int } else { 0 }),
            forall|d: AccountId| #[trigger] final(self).delegated(d) == old(self).delegated(d)
                + shift(side_delegate(*old(self), from), side_delegate(*old(self), to), amount, d),
    {
        let same_holder = match (&from, &to) {
            (Some(f), Some(t)) => same_account(f, t),
            _ => false,
        };
        if same_holder {
            return;
        }
        let ghost v0 = *self;
        if let Some(f) = from {
            let i = self.slot(&f);
            let u = self.accounts[i].units;
            proof {
                lemma_entry_at(self.accounts@, i as int);
                assert(self.account(f) == v0.account(f));
            }
            self.put_units(i, u - amount);
        }
        let ghost v2 = *self;
        if let Some(t) = to {
            let j = self.slot(&t);
            let u = self.accounts[j].units;
            proof {
                lemma_entry_at(self.accounts@, j as int);
                lemma_units_bound(self.accounts@, j as int);
            }
            self.put_units(j, u + amount);
        }
        assert forall|d: AccountId| #[trigger] self.delegated(d) == v0.delegated(d)
                + shift(side_delegate(v0, from), side_delegate(v0, to), amount, d) by {
            assert(forall|b: AccountId| #[trigger] v2.effective(b) == v0.effective(b));
        }
    }

    fn shift_votes(&mut self, df: Option<AccountId>, dt: Option<AccountId>, amount: u128)
        requires
            old(self).shape(),
            (df is Some) ==> old(self).votes_of(df->0) >= amount,
            sum_of(old(self).accounts@, w_votes()) + (if (df is None) && (dt is Some) { amount as int } else { 0 }) <= u128::MAX,
        ensures
            final(self).shape(),
            final(self).total == old(self).total,
            final(self).clock == old(self).clock,
            forall|b: AccountId| #[trigger] final(self).account(b) == (AccountView {
                votes: votes_shifted(old(self).account(b).votes, df, dt, amount, old(self).clock, b),
                ..old(self).account(b)
            }),
            df != dt ==> sum_of(final(self).accounts@, w_votes()) == sum_of(old(self).accounts@, w_votes())
                - (if (df is Some) { amount as int } else { 0 }) + (if (dt is Some) { amount as int } else { 0 }),
            df == dt ==> sum_of(final(self).accounts@, w_votes()) == sum_of(old(self).accounts@, w_votes()),
            sum_of(final(self).accounts@, w_units()) == sum_of(old(self).accounts@, w_units()),
            forall|d: AccountId| #[trigger] final(self).delegated(d) == old(self).delegated(d),
            forall|d: AccountId| #[trigger] final(self).votes_of(d) == old(self).votes_of(d) + shift(df, dt, amount, d),
    {
        let same_delegate = match (&df, &dt) {
            (Some(a), Some(b)) => same_account(a, b),
            (None, None) => true,
            _ => false,
        };
        if same_delegate || amount == 0 {
            return;
        }
        let ghost v0 = *self;
        if let Some(d) = df {
            let k = self.slot(&d);
            proof {
                lemma_entry_at(self.accounts@, k as int);
                assert(self.account(d) == v0.account(d));
            }
            let v = self.accounts[k].votes.latest();
            self.put_votes(k, v - amount);
        }
        if let Some(d) = dt {
            let k = self.slot(&d);
            proof {
                lemma_entry_at(self.accounts@, k as int);
                lemma_votes_bound(self.accounts@, k as int);
            }
            let v = self.accounts[k].votes.latest();
            self.put_votes(k, v + amount);
        }
    }

    fn advance(&mut self, now: u64)
        requires
            old(self).wf(),
            old(self).clock() <= now,
        ensures
            final(self).wf(),
            final(self).clock() == now,
            final(self).accounts == old(self).accounts,
            final(self).total == old(self).total,
    {
        self.clock = now;
        assert forall|d: AccountId| #[trigger] self.votes_of(d) == self.delegated(d) by {
            assert(old(self).votes_of(d) == old(self).delegated(d));
        }
    }

    /// Records that `amount` voting units moved from holder `from` to holder
    /// `to` at time `now`: a mint has no `from`, a burn no `to`. The votes
    /// move between the two holders' effective delegates, and a mint or a
    /// burn changes the total supply.
    pub fn move_voting_power(&mut self, from: Option<AccountId>, to: Option<AccountId>, amount: u128, now: u64) -> (r: Result<(), GovernanceError>)
        requires
            old(self).wf(),
            old(self).clock() <= now,
        ensures
            final(self).wf(),
            match old(self).move_error(from, to, amount) {
                Some(e) => r == Err::<(), GovernanceError>(e) && *final(self) == *old(self),
                None => {
                    &&& r == Ok::<(), GovernanceError>(())
                    &&& final(self).clock() == now
                    &&& final(self).total_series() == old(self).total_after_move(from, to, amount, now)
                    &&& forall|b: AccountId| #[trigger] final(self).account(b) == AccountView {
                        units: old(self).units_after_move(from, to, amount, b),
                        votes: old(self).votes_after_move(from, to, amount, now, b),
                        ..old(self).account(b)
                    }
                },
            },
    {
        let ghost v0 = *self;
        let df = match from {
            Some(f) => Some(self.effective_delegate(f)),
            None => None,
        };
        let dt = match to {
            Some(t) => Some(self.effective_delegate(t)),
            None => None,
        };
        if let Some(f) = from {
            if self.voting_units(f) < amount {
                return Err(GovernanceError::InsufficientBalance);
            }
            proof {
                self.lemma_holder_bounds(f);
            }
        } else if to.is_some() {
            if amount > u128::MAX - self.total.latest() {
                return Err(GovernanceError::Overflow);
            }
        }
        self.advance(now);
        if amount == 0 {
            return Ok(());
        }
        let ghost v1 = *self;
        self.shift_units(from, to, amount);
        let ghost v3 = *self;
        self.shift_votes(df, dt, amount);
        let ghost v4 = *self;
        if from.is_none() && to.is_some() {
            let v = self.total.latest();
            self.total.push(now, v + amount);
        } else if from.is_some() && to.is_none() {
            let v = self.total.latest();
            self.total.push(now, v - amount);
        }
        assert forall|d: AccountId| #[trigger] self.votes_of(d) == self.delegated(d) by {
            assert(v0.votes_of(d) == v0.delegated(d));
            assert(v4.votes_of(d) == v0.votes_of(d) + shift(df, dt, amount, d));
            assert(v3.delegated(d) == v0.delegated(d) + shift(df, dt, amount, d));
            assert(v4.delegated(d) == v3.delegated(d));
        }
        assert forall|b: AccountId| #[trigger] self.account(b) == AccountView {
            units: v0.units_after_move(from, to, amount, b),
            votes: v0.votes_after_move(from, to, amount, now, b),
            ..v0.account(b)
        } by {
            assert(v4.account(b) == self.account(b));
            assert(v1.account(b) == v0.account(b));
        }
        Ok(())
    }
}

impl Votes {
    /// What the ledger knows of `b` after `delegator` delegated to `delegatee`
    /// at `now`: the delegator's voting units leave its former effective
    /// delegate's votes for the new one's.
    pub open spec fn account_after_delegate(&self, delegator: AccountId, delegatee: AccountId, now: u64, b: AccountId) -> AccountView {
        AccountView {
            delegatee: if b == delegator {
                Some(delegatee)
            } else {
                self.account(b).delegatee
            },
            votes: votes_shifted(
                self.account(b).votes,
                Some(self.effective(delegator)),
                Some(delegatee),
                self.account(delegator).units,
                now,
                b,
            ),
            ..self.account(b)
        }
    }

    /// Makes `delegatee` the delegate of `delegator` at time `now`, moving the
    /// delegator's voting units from its former effective delegate's votes to
    /// the new delegate's.
    pub fn delegate(&mut self, delegator: AccountId, delegatee: AccountId, now: u64) -> (r: Result<(), GovernanceError>)
        requires
            old(self).wf(),
            old(self).clock() <= now,
        ensures
            r == Ok::<(), GovernanceError>(()),
            final(self).wf(),
            final(self).clock() == now,
            final(self).total_series() == old(self).total_series(),
            forall|b: AccountId| #[trigger] final(self).account(b) == old(self).account_after_delegate(delegator, delegatee, now, b),
    {
        let ghost v0 = *self;
        let e0 = self.effective_delegate(delegator);
        proof {
            self.lemma_holder_bounds(delegator);
        }
        self.advance(now);
        let i = self.slot(&delegator);
        let u = self.accounts[i].units;
        proof {
            lemma_entry_at(self.accounts@, i as int);
        }
        let ghost v1 = *self;
        self.put_delegatee(i, delegatee);
        let ghost v2 = *self;
        self.shift_votes(Some(e0), Some(delegatee), u);
        assert forall|d: AccountId| #[trigger] self.votes_of(d) == self.delegated(d) by {
            assert(v0.votes_of(d) == v0.delegated(d));
            assert(v1.votes_of(d) == v0.votes_of(d));
            assert(v1.delegated(d) == v0.delegated(d));
            assert(v2.votes_of(d) == v1.votes_of(d));
        }
        assert forall|b: AccountId| #[trigger] self.account(b) == v0.account_after_delegate(delegator, delegatee, now, b) by {
            assert(v1.account(b) == v0.account(b));
        }
        Ok(())
    }

    /// Consumes `nonce` for `account` when it is the account's next expected
    /// nonce; any other nonce, or one that cannot be followed, is refused.
    pub fn use_checked_nonce(&mut self, account: AccountId, nonce: u64) -> (r: Result<(), GovernanceError>)
        requires
            old(self).wf(),
        ensures
            final(self).wf(),
            if nonce != old(self).account(account).nonce || nonce == u64::MAX {
                r == Err::<(), GovernanceError>(GovernanceError::InvalidAccountNonce) && *final(self) == *old(self)
            } else {
                &&& r == Ok::<(), GovernanceError>(())
                &&& final(self).clock() == old(self).clock()
                &&& final(self).total_series() == old(self).total_series()
                &&& forall|b: AccountId| #[trigger] final(self).account(b) == if b == account {
                    AccountView { nonce: (nonce + 1) as u64, ..old(self).account(b) }
                } else {
                    old(self).account(b)
                }
            },
    {
        let current = self.nonces(account);
        if nonce != current || nonce == u64::MAX {
            return Err(GovernanceError::InvalidAccountNonce);
        }
        let ghost v0 = *self;
        let i = self.slot(&account);
        assert forall|d: AccountId| #[trigger] self.votes_of(d) == self.delegated(d) by {
            assert(v0.votes_of(d) == v0.delegated(d));
        }
        self.put_nonce(i, nonce + 1);
        Ok(())
    }
}

/// The error that a signed delegation request meets, if any, checked in this
/// order: it expired, its signature was not accepted, its nonce is not the
/// signer's next one.
pub open spec fn signed_delegation_error(v: Votes, signer: AccountId, nonce: u64, expiry: u64, signature_ok: bool, now: u64) -> Option<GovernanceError> {
    if now > expiry {
        Some(GovernanceError::ExpiredSignature)
    } else if !signature_ok {
        Some(GovernanceError::InvalidSignature)
    } else if nonce != v.account(signer).nonce || nonce == u64::MAX {
        Some(GovernanceError::InvalidAccountNonce)
    } else {
        None
    }
}

impl Votes {
    /// What the ledger knows of `b` after a signed request of `signer` to
    /// delegate to `delegatee` with `nonce` was carried out at `now`.
    pub open spec fn account_after_signed(&self, signer: AccountId, delegatee: AccountId, nonce: u64, now: u64, b: AccountId) -> AccountView {
        AccountView {
            nonce: if b == signer {
                (nonce + 1) as u64
            } else {
                self.account(b).nonce
            },
            ..self.account_after_delegate(signer, delegatee, now, b)
        }
    }

    /// Carries out a signed delegation request whose signature check gave
    /// `signature_ok`: the request must not have expired at `now`, its
    /// signature must be accepted and its nonce must be the signer's next one,
    /// which it consumes before delegating. A refused request changes nothing.
    pub fn delegate_authorized(
        &mut self,
        signer: AccountId,
        delegatee: AccountId,
        nonce: u64,
        expiry: u64,
        signature_ok: bool,
        now: u64,
    ) -> (r: Result<(), GovernanceError>)
        requires
            old(self).wf(),
            old(self).clock() <= now,
        ensures
            final(self).wf(),
            match signed_delegation_error(*old(self), signer, nonce, expiry, signature_ok, now) {
                Some(e) => r == Err::<(), GovernanceError>(e) && *final(self) == *old(self),
                None => {
                    &&& r == Ok::<(), GovernanceError>(())
                    &&& final(self).clock() == now
                    &&& final(self).total_series() == old(self).total_series()
                    &&& forall|b: AccountId| #[trigger] final(self).account(b)
                        == old(self).account_after_signed(signer, delegatee, nonce, now, b)
                },
            },
    {
        if now > expiry {
            return Err(GovernanceError::ExpiredSignature);
        }
        if !signature_ok {
            return Err(GovernanceError::InvalidSignature);
        }
        let ghost v0 = *self;
        match self.use_checked_nonce(signer, nonce) {
            Err(e) => {
                return Err(e);
            },
            Ok(()) => {},
        }
        let ghost v1 = *self;
        assert(forall|b: AccountId| #[trigger] v1.effective(b) == v0.effective(b));
        let r = self.delegate(signer, delegatee, now);
        assert forall|b: AccountId| #[trigger] self.account(b) == v0.account_after_signed(signer, delegatee, nonce, now, b) by {
            assert(v1.effective(signer) == v0.effective(signer));
            assert(v1.account(signer).units == v0.account(signer).units);
            assert(v1.account(b).votes == v0.account(b).votes);
        }
        r
    }
}

impl Votes {
    /// Carries out `signer`'s signed request to delegate to `delegatee` with
    /// `nonce`, valid up to `expiry`, at time `now`. The signature must be
    /// accepted as the signer's over the delegation message; expiry and
    /// signature are checked before the nonce is consumed.
    pub fn delegate_by_signature(
        &mut self,
        signer: AccountId,
        delegatee: AccountId,
        nonce: u64,
        expiry: u64,
        signature: &Signature,
        now: u64,
    ) -> (r: Result<(), GovernanceError>)
        requires
            old(self).wf(),
            old(self).clock() <= now,
        ensures
            final(self).wf(),
            match signed_delegation_error(
                *old(self),
                signer,
                nonce,
                expiry,
                signature_accepts(*signature, delegation_message_of(delegatee, nonce, expiry), signer),
                now,
            ) {
                Some(e) => r == Err::<(), GovernanceError>(e) && *final(self) == *old(self),
                None => {
                    &&& r == Ok::<(), GovernanceError>(())
                    &&& final(self).clock() == now
                    &&& final(self).total_series() == old(self).total_series()
                    &&& forall|b: AccountId| #[trigger] final(self).account(b)
                        == old(self).account_after_signed(signer, delegatee, nonce, now, b)
                },
            },
    {
        if now > expiry {
            return Err(GovernanceError::ExpiredSignature);
        }
        let message = delegation_message(&delegatee, nonce, expiry);
        let signature_ok = signature.verify(message.as_slice(), &signer);
        self.delegate_authorized(signer, delegatee, nonce, expiry, signature_ok, now)
    }
}

impl Votes {
    proof fn lemma_votes_sum_prefix(&self, k: int)
        requires
            self.shape(),
            0 <= k <= self.accounts@.len(),
        ensures
            self.votes_sum(self.known_accounts().subrange(0, k)) == sum_of(self.accounts@.subrange(0, k), w_votes()),
        decreases k,
    {
        let ids = self.known_accounts().subrange(0, k);
        let s = self.accounts@.subrange(0, k);
        if k > 0 {
            self.lemma_votes_sum_prefix(k - 1);
            assert(ids.drop_last() =~= self.known_accounts().subrange(0, k - 1));
            assert(s.drop_last() =~= self.accounts@.subrange(0, k - 1));
            lemma_entry_at(self.accounts@, k - 1);
        }
    }

    /// Voting power is conserved: listing every account that has any votes,
    /// each once, their current votes add up to the current total supply.
    /// Every ledger that `new` and the ledger's operations produce satisfies
    /// `wf`.
    pub proof fn lemma_votes_conserved(&self)
        requires
            self.wf(),
        ensures
            self.known_accounts().no_duplicates(),
            forall|a: AccountId| self.votes_of(a) != 0 ==> self.known_accounts().contains(a),
            self.votes_sum(self.known_accounts()) == self.supply(),
    {
        let s = self.accounts@;
        let ids = self.known_accounts();
        assert forall|i: int, j: int| 0 <= i < ids.len() && 0 <= j < ids.len() && i != j implies ids[i] != ids[j] by {}
        assert forall|a: AccountId| self.votes_of(a) != 0 implies ids.contains(a) by {
            if known(s, a) {
                let i = choose|i: int| 0 <= i < s.len() && s[i].id == a;
                assert(ids[i] == a);
            }
        }
        self.lemma_votes_sum_prefix(s.len() as int);
        assert(ids.subrange(0, s.len() as int) =~= ids);
        assert(s.subrange(0, s.len() as int) =~= s);
    }

    /// Delegating to the account that already receives one's voting units
    /// writes no vote history.
    pub proof fn lemma_redelegation_keeps_votes(&self, delegator: AccountId, now: u64, b: AccountId)
        ensures
            self.account_after_delegate(delegator, self.effective(delegator), now, b).votes == self.account(b).votes,
    {
    }

    /// A signed delegation request that was carried out cannot be carried out
    /// again: its nonce has been consumed.
    pub proof fn lemma_signed_request_not_replayed(
        &self,
        next: Votes,
        signer: AccountId,
        delegatee: AccountId,
        nonce: u64,
        expiry: u64,
        signature_ok: bool,
        now: u64,
        later: u64,
    )
        requires
            signed_delegation_error(*self, signer, nonce, expiry, signature_ok, now) is None,
            forall|b: AccountId| #[trigger] next.account(b) == self.account_after_signed(signer, delegatee, nonce, now, b),
        ensures
            signed_delegation_error(next, signer, nonce, expiry, signature_ok, later) is Some,
    {
        assert(next.account(signer).nonce == nonce + 1);
    }
}

} // verus!
