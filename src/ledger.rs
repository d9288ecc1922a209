use vstd::prelude::*;

use crate::account::AccountId;

verus! {

/// The one way a ledger operation can fail.
#[derive(Debug, Clone, Copy, PartialEq, Eq, Structural)]
pub enum Error {
    /// The caller's balance is smaller than the amount asked for.
    InsufficientBalance,
}

/// A record of value moving between accounts; `from` is absent for the initial mint.
#[derive(Debug, Clone, Copy, PartialEq, Eq)]
pub struct Transfer {
    pub from: Option<AccountId>,
    pub to: Option<AccountId>,
    pub value: u128,
}

/// Balance stored for `k` in `s`: the last entry with that key, zero if none has it.
pub open spec fn balance_in(s: Seq<(AccountId, u128)>, k: Seq<u8>) -> nat
    decreases s.len(),
{
    if s.len() == 0 {
        0
    } else if s.last().0@ == k {
        s.last().1 as nat
    } else {
        balance_in(s.drop_last(), k)
    }
}

/// Sum of the amounts of all entries of `s`.
pub open spec fn held_in(s: Seq<(AccountId, u128)>) -> nat
    decreases s.len(),
{
    if s.len() == 0 {
        0
    } else {
        held_in(s.drop_last()) + s.last().1 as nat
    }
}

/// No two entries of `s` belong to the same account.
pub open spec fn keys_unique(s: Seq<(AccountId, u128)>) -> bool {
    forall|i: int, j: int|
        0 <= i < s.len() && 0 <= j < s.len() && i != j ==> s[i].0@ != s[j].0@
}

/// Balance of `k` after `value` moves from `from` to `to`, given the balances before.
pub open spec fn moved(
    before: spec_fn(Seq<u8>) -> nat,
    from: Seq<u8>,
    to: Seq<u8>,
    value: nat,
    k: Seq<u8>,
) -> int {
    if k == from && k == to {
        before(k) as int
    } else if k == from {
        before(k) - value
    } else if k == to {
        before(k) + value as int
    } else {
        before(k) as int
    }
}

proof fn lemma_unique_entry(s: Seq<(AccountId, u128)>, i: int)
    requires
        keys_unique(s),
        0 <= i < s.len(),
    ensures
        balance_in(s, s[i].0@) == s[i].1 as nat,
    decreases s.len(),
{
    if i != s.len() - 1 {
        lemma_unique_entry(s.drop_last(), i);
    }
}

proof fn lemma_absent(s: Seq<(AccountId, u128)>, k: Seq<u8>)
    requires
        forall|j: int| 0 <= j < s.len() ==> s[j].0@ != k,
    ensures
        balance_in(s, k) == 0,
    decreases s.len(),
{
    if s.len() > 0 {
        lemma_absent(s.drop_last(), k);
    }
}

proof fn lemma_balance_le_held(s: Seq<(AccountId, u128)>, k: Seq<u8>)
    ensures
        balance_in(s, k) <= held_in(s),
    decreases s.len(),
{
    if s.len() > 0 {
        lemma_balance_le_held(s.drop_last(), k);
    }
}

proof fn lemma_update(s: Seq<(AccountId, u128)>, i: int, e: (AccountId, u128))
    requires
        keys_unique(s),
        0 <= i < s.len(),
        e.0@ == s[i].0@,
    ensures
        keys_unique(s.update(i, e)),
        forall|k: Seq<u8>| balance_in(s.update(i, e), k) == if k == e.0@ {
            e.1 as nat
        } else {
            balance_in(s, k)
        },
        held_in(s.update(i, e)) + s[i].1 == held_in(s) + e.1,
    decreases s.len(),
{
    let t = s.update(i, e);
    if i == s.len() - 1 {
        assert(t.drop_last() =~= s.drop_last());
    } else {
        lemma_update(s.drop_last(), i, e);
        assert(t.drop_last() =~= s.drop_last().update(i, e));
        assert(s.last().0@ != e.0@);
    }
    assert forall|k: Seq<u8>| balance_in(t, k) == if k == e.0@ {
        e.1 as nat
    } else {
        balance_in(s, k)
    } by {
        if i == s.len() - 1 {
            if k != e.0@ {
                assert(balance_in(s, k) == balance_in(s.drop_last(), k));
            }
        } else {
            assert(t.last() == s.last());
            assert(balance_in(t.drop_last(), k) == if k == e.0@ {
                e.1 as nat
            } else {
                balance_in(s.drop_last(), k)
            });
        }
    }
}

proof fn lemma_push(s: Seq<(AccountId, u128)>, e: (AccountId, u128))
    requires
        keys_unique(s),
        forall|j: int| 0 <= j < s.len() ==> s[j].0@ != e.0@,
    ensures
        keys_unique(s.push(e)),
        forall|k: Seq<u8>| balance_in(s.push(e), k) == if k == e.0@ {
            e.1 as nat
        } else {
            balance_in(s, k)
        },
        held_in(s.push(e)) == held_in(s) + e.1,
        balance_in(s, e.0@) == 0,
{
    let t = s.push(e);
    assert(t.drop_last() =~= s);
    lemma_absent(s, e.0@);
}

/// A prefix of the entries holds no more than the whole.
proof fn lemma_held_prefix(s: Seq<(AccountId, u128)>, i: int)
    requires
        0 <= i <= s.len(),
    ensures
        held_in(s.take(i)) <= held_in(s),
    decreases s.len(),
{
    if i < s.len() {
        lemma_held_prefix(s.drop_last(), i);
        assert(s.drop_last().take(i) =~= s.take(i));
    } else {
        assert(s.take(i) =~= s);
    }
}

/// A fixed total supply and the balances of the accounts that hold or held tokens.
pub struct Erc20 {
    total_supply: u128,
    balances: Vec<(AccountId, u128)>,
    events: Vec<Transfer>,
}

impl Erc20 {
    /// The total supply fixed at construction.
    pub closed spec fn supply(&self) -> nat {
        self.total_supply as nat
    }

    /// Balance of account `k`; zero for an account that never held tokens.
    pub closed spec fn balance(&self, k: Seq<u8>) -> nat {
        balance_in(self.balances@, k)
    }

    /// All balances, as a function from account to amount.
    pub open spec fn balances(&self) -> spec_fn(Seq<u8>) -> nat {
        |k: Seq<u8>| self.balance(k)
    }

    /// Sum of the balances of all accounts.
    pub closed spec fn held(&self) -> nat {
        held_in(self.balances@)
    }

    /// Transfer records emitted so far, oldest first.
    pub closed spec fn log(&self) -> Seq<Transfer> {
        self.events@
    }

    /// One entry per account, so that the entries' sum is the sum over accounts.
    closed spec fn entries_ok(&self) -> bool {
        keys_unique(self.balances@)
    }

    /// The ledger's invariant: one entry per account, and the balances add up
    /// to the total supply.
    pub closed spec fn wf(&self) -> bool {
        self.entries_ok() && self.held() == self.supply()
    }

    /// Position of the entry of `owner`, if it has one.
    fn find(&self, owner: &AccountId) -> (r: Option<usize>)
        ensures
            match r {
                Some(i) => i < self.balances@.len() && self.balances@[i as int].0@ == owner@,
                None => forall|j: int|
                    0 <= j < self.balances@.len() ==> self.balances@[j].0@ != owner@,
            },
    {
        let mut i: usize = 0;
        while i < self.balances.len()
            invariant
                0 <= i <= self.balances@.len(),
                forall|j: int| 0 <= j < i ==> self.balances@[j].0@ != owner@,
            decreases self.balances@.len() - i,
        {
            if self.balances[i].0.same_as(owner) {
                return Some(i);
            }
            i = i + 1;
        }
        None
    }

    /// Amount stored for `owner`, zero when it has no entry.
    fn stored_balance(&self, owner: &AccountId) -> (r: u128)
        requires
            self.entries_ok(),
        ensures
            r == self.balance(owner@),
    {
        match self.find(owner) {
            Some(i) => {
                proof {
                    lemma_unique_entry(self.balances@, i as int);
                }
                self.balances[i].1
            },
            None => {
                proof {
                    lemma_absent(self.balances@, owner@);
                }
                0
            },
        }
    }

    /// Sets the balance of `owner` to `value`, adding an entry when it has none.
    fn insert(&mut self, owner: &AccountId, value: u128)
        requires
            old(self).entries_ok(),
        ensures
            final(self).entries_ok(),
            final(self).total_supply == old(self).total_supply,
            final(self).events@ == old(self).events@,
            forall|k: Seq<u8>| #[trigger] final(self).balance(k) == if k == owner@ {
                value as nat
            } else {
                old(self).balance(k)
            },
            final(self).held() + old(self).balance(owner@) == old(self).held() + value,
    {
        let entry = (*owner, value);
        match self.find(owner) {
            Some(i) => {
                proof {
                    lemma_update(self.balances@, i as int, entry);
                    lemma_unique_entry(self.balances@, i as int);
                }
                self.balances.set(i, entry);
            },
            None => {
                proof {
                    lemma_push(self.balances@, entry);
                }
                self.balances.push(entry);
            },
        }
    }

    /// Creates a ledger whose whole `total_supply` belongs to `caller`, and
    /// records that mint.
    pub fn new(caller: AccountId, total_supply: u128) -> (r: Erc20)
        ensures
            r.wf(),
            r.supply() == total_supply,
            r.balance(caller@) == total_supply,
            forall|k: Seq<u8>| k != caller@ ==> r.balance(k) == 0,
            r.log() == seq![Transfer { from: None, to: Some(caller), value: total_supply }],
    {
        let mut balances: Vec<(AccountId, u128)> = Vec::new();
        balances.push((caller, total_supply));
        let mut events: Vec<Transfer> = Vec::new();
        events.push(Transfer { from: None, to: Some(caller), value: total_supply });
        let r = Erc20 { total_supply, balances, events };
        proof {
            lemma_push(Seq::empty(), (caller, total_supply));
            assert(Seq::<(AccountId, u128)>::empty().push((caller, total_supply)) =~= r.balances@);
            assert(r.events@ =~= seq![Transfer { from: None, to: Some(caller), value: total_supply }]);
        }
        r
    }

    /// The total supply.
    pub fn total_supply(&self) -> (r: u128)
        ensures
            r == self.supply(),
    {
        self.total_supply
    }

    /// The balance of `owner`; zero for an account that never held tokens.
    pub fn balance_of(&self, owner: AccountId) -> (r: u128)
        requires
            self.wf(),
        ensures
            r == self.balance(owner@),
    {
        self.stored_balance(&owner)
    }

    /// The stored balance table: one entry per account that holds or held tokens.
    pub fn entries(&self) -> (r: &Vec<(AccountId, u128)>)
        requires
            self.wf(),
        ensures
            keys_unique(r@),
            held_in(r@) == self.supply(),
            forall|k: Seq<u8>| #[trigger] balance_in(r@, k) == self.balance(k),
    {
        &self.balances
    }

    /// Rebuilds a ledger from a stored total supply and balance table, with an
    /// empty record log.
    ///
    /// Returns `None` unless the table names each account at most once and its
    /// amounts add up to `total_supply`.
    pub fn restore(total_supply: u128, entries: Vec<(AccountId, u128)>) -> (r: Option<Erc20>)
        ensures
            r is Some <==> keys_unique(entries@) && held_in(entries@) == total_supply,
            r matches Some(l) ==> l.wf() && l.supply() == total_supply && l.log() == Seq::<
                Transfer,
            >::empty() && forall|k: Seq<u8>| #[trigger] l.balance(k) == balance_in(entries@, k),
    {
        let n = entries.len();
        let mut i: usize = 0;
        while i < n
            invariant
                n == entries@.len(),
                0 <= i <= n,
                forall|a: int, b: int|
                    0 <= a < i && 0 <= b < i && a != b ==> entries@[a].0@ != entries@[b].0@,
            decreases n - i,
        {
            let mut j: usize = 0;
            while j < i
                invariant
                    n == entries@.len(),
                    0 <= j <= i < n,
                    forall|b: int| 0 <= b < j ==> entries@[i as int].0@ != entries@[b].0@,
                decreases i - j,
            {
                if entries[i].0.same_as(&entries[j].0) {
                    return None;
                }
                j = j + 1;
            }
            i = i + 1;
        }
        assert(keys_unique(entries@));
        let mut sum: u128 = 0;
        let mut i: usize = 0;
        while i < n
            invariant
                n == entries@.len(),
                0 <= i <= n,
                sum == held_in(entries@.take(i as int)),
            decreases n - i,
        {
            proof {
                assert(entries@.take(i + 1).drop_last() =~= entries@.take(i as int));
            }
            match sum.checked_add(entries[i].1) {
                Some(t) => sum = t,
                None => {
                    proof {
                        lemma_held_prefix(entries@, i + 1);
                    }
                    return None;
                },
            }
            i = i + 1;
        }
        assert(entries@.take(n as int) =~= entries@);
        if sum != total_supply {
            return None;
        }
        Some(Erc20 { total_supply, balances: entries, events: Vec::new() })
    }

    /// The transfer records emitted so far, oldest first.
    pub fn events(&self) -> (r: &Vec<Transfer>)
        ensures
            r@ == self.log(),
    {
        &self.events
    }

    /// Moves `value` from `caller`'s account to `to`'s, and records it.
    ///
    /// Fails, and changes nothing, when `caller` holds less than `value`.
    /// A transfer to oneself that succeeds leaves every balance as it was.
    pub fn transfer(&mut self, caller: AccountId, to: AccountId, value: u128) -> (r: Result<(), Error>)
        requires
            old(self).wf(),
        ensures
            final(self).wf(),
            final(self).supply() == old(self).supply(),
            old(self).balance(caller@) < value ==> r == Err::<(), Error>(Error::InsufficientBalance)
                && *final(self) == *old(self),
            old(self).balance(caller@) >= value ==> r == Ok::<(), Error>(())
                && (forall|k: Seq<u8>| final(self).balance(k) == moved(old(self).balances(), caller@, to@, value as nat, k))
                && final(self).log() == old(self).log().push(Transfer { from: Some(caller), to: Some(to), value }),
    {
        self.transfer_from_to(&caller, &to, value)
    }

    /// Debits `from`, then credits `to` with a fresh read, so that a transfer
    /// to oneself nets to the original balance.
    fn transfer_from_to(&mut self, from: &AccountId, to: &AccountId, value: u128) -> (r: Result<(), Error>)
        requires
            old(self).wf(),
        ensures
            final(self).wf(),
            final(self).supply() == old(self).supply(),
            old(self).balance(from@) < value ==> r == Err::<(), Error>(Error::InsufficientBalance)
                && *final(self) == *old(self),
            old(self).balance(from@) >= value ==> r == Ok::<(), Error>(())
                && (forall|k: Seq<u8>| final(self).balance(k) == moved(old(self).balances(), from@, to@, value as nat, k))
                && final(self).log() == old(self).log().push(Transfer { from: Some(*from), to: Some(*to), value }),
    {
        let ghost before = *self;
        let from_balance = self.stored_balance(from);
        if from_balance < value {
            return Err(Error::InsufficientBalance);
        }
        self.insert(from, from_balance - value);
        let ghost mid = *self;
        let to_balance = self.stored_balance(to);
        proof {
            lemma_balance_le_held(self.balances@, to@);
        }
        self.insert(to, to_balance + value);
        let ghost credited = *self;
        self.events.push(Transfer { from: Some(*from), to: Some(*to), value });
        proof {
            assert forall|k: Seq<u8>|
                self.balance(k) == moved(before.balances(), from@, to@, value as nat, k) by {
                assert(self.balances@ == credited.balances@);
                assert(credited.balance(k) == if k == to@ {
                    (to_balance + value) as nat
                } else {
                    mid.balance(k)
                });
            }
            assert(self.log() =~= before.log().push(Transfer { from: Some(*from), to: Some(*to), value }));
        }
        Ok(())
    }
}

/// In a well-formed ledger, which `new` creates and every `transfer` keeps,
/// the balances of all accounts add up to the total supply.
pub proof fn supply_conserved(l: &Erc20)
    requires
        l.wf(),
    ensures
        l.held() == l.supply(),
        forall|k: Seq<u8>| #[trigger] l.balance(k) <= l.supply(),
{
    assert forall|k: Seq<u8>| #[trigger] l.balance(k) <= l.supply() by {
        lemma_balance_le_held(l.balances@, k);
    }
}

/// A transfer that the sender's balance covers leaves no balance negative.
pub proof fn transfer_never_negative(l: &Erc20, from: Seq<u8>, to: Seq<u8>, value: nat, k: Seq<u8>)
    requires
        l.wf(),
        l.balance(from) >= value,
    ensures
        moved(l.balances(), from, to, value, k) >= 0,
{
}

/// A transfer from an account to itself, which succeeds whenever the balance
/// covers the amount, leaves every balance unchanged.
pub proof fn self_transfer_neutral(l: &Erc20, a: Seq<u8>, value: nat, k: Seq<u8>)
    requires
        l.wf(),
        l.balance(a) >= value,
    ensures
        moved(l.balances(), a, a, value, k) == l.balance(k),
{
}

} // verus!
