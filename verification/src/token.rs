use vstd::prelude::*;
use crate::errors::Error;

verus! {

/// One account's balance in one value token.
pub struct AccountEntry {
    pub token: u64,
    pub owner: u64,
    pub balance: u64,
}

/// The balance that `s` records for `owner` in `token`; zero when no
/// entry exists.
pub open spec fn bal_in(s: Seq<AccountEntry>, token: u64, owner: u64) -> int
    decreases s.len(),
{
    if s.len() == 0 {
        0
    } else if s.last().token == token && s.last().owner == owner {
        s.last().balance as int
    } else {
        bal_in(s.drop_last(), token, owner)
    }
}

/// The total of all balances that `s` records in `token`.
pub open spec fn supply_in(s: Seq<AccountEntry>, token: u64) -> int
    decreases s.len(),
{
    if s.len() == 0 {
        0
    } else {
        supply_in(s.drop_last(), token) + if s.last().token == token {
            s.last().balance as int
        } else {
            0
        }
    }
}

/// No two entries record the same account of the same token.
pub open spec fn unique_accounts(s: Seq<AccountEntry>) -> bool {
    forall|i: int, j: int|
        0 <= i < j < s.len() ==> !(s[i].token == s[j].token && s[i].owner == s[j].owner)
}

/// A model of the value-token ledger the engine settles in: the
/// balances of every account in every token, with the total supply of
/// each token capped so that no transfer can overflow a balance.  The
/// real transfer primitive is atomic and all-or-nothing; so is this
/// model's.
pub struct TokenLedger {
    pub entries: Vec<AccountEntry>,
}

pub proof fn lemma_supply_nonneg(s: Seq<AccountEntry>, token: u64)
    ensures
        supply_in(s, token) >= 0,
    decreases s.len(),
{
    if s.len() > 0 {
        lemma_supply_nonneg(s.drop_last(), token);
    }
}

pub proof fn lemma_bal_le_supply(s: Seq<AccountEntry>, token: u64, owner: u64)
    ensures
        0 <= bal_in(s, token, owner),
        bal_in(s, token, owner) <= supply_in(s, token),
    decreases s.len(),
{
    if s.len() > 0 {
        lemma_bal_le_supply(s.drop_last(), token, owner);
        lemma_supply_nonneg(s.drop_last(), token);
    }
}

/// With unique accounts, the balance of the account at index `i` is the
/// recorded balance of that entry.
pub proof fn lemma_bal_at(s: Seq<AccountEntry>, i: int)
    requires
        unique_accounts(s),
        0 <= i < s.len(),
    ensures
        bal_in(s, s[i].token, s[i].owner) == s[i].balance,
    decreases s.len(),
{
    if i < s.len() - 1 {
        assert(s.drop_last()[i] == s[i]);
        lemma_bal_at(s.drop_last(), i);
    }
}

/// An account no entry records has balance zero.
pub proof fn lemma_bal_absent(s: Seq<AccountEntry>, token: u64, owner: u64)
    requires
        forall|i: int| 0 <= i < s.len() ==> !(s[i].token == token && s[i].owner == owner),
    ensures
        bal_in(s, token, owner) == 0,
    decreases s.len(),
{
    if s.len() > 0 {
        lemma_bal_absent(s.drop_last(), token, owner);
    }
}

/// Replacing the entry at `i` by one for the same account changes that
/// account's balance, no other balance, and the supply of that token by
/// the difference.
pub proof fn lemma_entry_update(s: Seq<AccountEntry>, i: int, e: AccountEntry, token: u64, owner: u64)
    requires
        unique_accounts(s),
        0 <= i < s.len(),
        s[i].token == e.token,
        s[i].owner == e.owner,
    ensures
        bal_in(s.update(i, e), token, owner) == if token == e.token && owner == e.owner {
            e.balance as int
        } else {
            bal_in(s, token, owner)
        },
        supply_in(s.update(i, e), token) == supply_in(s, token) + if token == e.token {
            e.balance - s[i].balance
        } else {
            0
        },
    decreases s.len(),
{
    let u = s.update(i, e);
    assert(u.len() == s.len());
    if i == s.len() - 1 {
        assert(u.last() == e);
        assert(u.drop_last() =~= s.drop_last());
    } else {
        assert(u.last() == s.last());
        assert(u.drop_last() =~= s.drop_last().update(i, e));
        lemma_entry_update(s.drop_last(), i, e, token, owner);
    }
}

/// Appending an entry for an account not yet recorded adds its balance
/// and leaves every other account's balance unchanged.
pub proof fn lemma_entry_push(s: Seq<AccountEntry>, e: AccountEntry, token: u64, owner: u64)
    ensures
        bal_in(s.push(e), token, owner) == if token == e.token && owner == e.owner {
            e.balance as int
        } else {
            bal_in(s, token, owner)
        },
        supply_in(s.push(e), token) == supply_in(s, token) + if token == e.token {
            e.balance as int
        } else {
            0
        },
{
    assert(s.push(e).drop_last() =~= s);
    assert(s.push(e).last() == e);
}

impl TokenLedger {
    /// Unique accounts, and a supply of every token that fits the
    /// machine word, so that no credit can overflow a balance.
    pub open spec fn wf(self) -> bool {
        &&& unique_accounts(self.entries@)
        &&& forall|t: u64| #[trigger] supply_in(self.entries@, t) <= u64::MAX
    }

    /// The balance of `owner` in `token`.
    pub open spec fn bal(self, token: u64, owner: u64) -> int {
        bal_in(self.entries@, token, owner)
    }

    /// The total supply of `token`.
    pub open spec fn supply(self, token: u64) -> int {
        supply_in(self.entries@, token)
    }

    pub fn new() -> (r: TokenLedger)
        ensures
            r.wf(),
            forall|t: u64, o: u64| r.bal(t, o) == 0,
            forall|t: u64| r.supply(t) == 0,
    {
        let r = TokenLedger { entries: Vec::new() };
        proof {
            assert forall|t: u64, o: u64| r.bal(t, o) == 0 by {
                lemma_bal_absent(r.entries@, t, o);
            }
        }
        r
    }

    /// The index of the entry for `owner` in `token`, if one exists.
    fn find_index(&self, token: u64, owner: u64) -> (r: Option<usize>)
        requires
            unique_accounts(self.entries@),
        ensures
            match r {
                Some(i) => i < self.entries@.len() && self.entries@[i as int].token == token
                    && self.entries@[i as int].owner == owner && self.bal(token, owner)
                    == self.entries@[i as int].balance,
                None => self.bal(token, owner) == 0 && forall|j: int|
                    0 <= j < self.entries@.len() ==> !(self.entries@[j].token == token
                        && self.entries@[j].owner == owner),
            },
    {
        let n = self.entries.len();
        let mut k: usize = 0;
        while k < n
            invariant
                n == self.entries@.len(),
                k <= n,
                unique_accounts(self.entries@),
                forall|j: int| 0 <= j < k ==> !(self.entries@[j].token == token
                    && self.entries@[j].owner == owner),
            decreases n - k,
        {
            if self.entries[k].token == token && self.entries[k].owner == owner {
                proof {
                    lemma_bal_at(self.entries@, k as int);
                }
                return Some(k);
            }
            k += 1;
        }
        proof {
            lemma_bal_absent(self.entries@, token, owner);
        }
        None
    }

    /// The balance of `owner` in `token`.
    pub fn balance(&self, token: u64, owner: u64) -> (r: u64)
        requires
            self.wf(),
        ensures
            r == self.bal(token, owner),
    {
        match self.find_index(token, owner) {
            Some(i) => self.entries[i].balance,
            None => 0,
        }
    }

    /// Replaces the balance of the entry at index `i`.
    fn set_entry_balance(&mut self, i: usize, balance: u64)
        requires
            unique_accounts(old(self).entries@),
            i < old(self).entries@.len(),
        ensures
            unique_accounts(final(self).entries@),
            final(self).entries@ == old(self).entries@.update(
                i as int,
                (AccountEntry {
                    token: old(self).entries@[i as int].token,
                    owner: old(self).entries@[i as int].owner,
                    balance,
                }),
            ),
    {
        let ghost s0 = self.entries@;
        let e = self.entries.remove(i);
        let e2 = AccountEntry { token: e.token, owner: e.owner, balance };
        self.entries.insert(i, e2);
        proof {
            assert(self.entries@ =~= s0.update(i as int, e2));
            assert forall|a: int, b: int|
                0 <= a < b < self.entries@.len() implies !(self.entries@[a].token
                == self.entries@[b].token && self.entries@[a].owner == self.entries@[b].owner) by {
                assert(s0[a].token == self.entries@[a].token && s0[a].owner
                    == self.entries@[a].owner);
                assert(s0[b].token == self.entries@[b].token && s0[b].owner
                    == self.entries@[b].owner);
            }
        }
    }

    /// Creates `amount` new units of `token` for `owner`.  Stands for
    /// the token administrator's issuance; the engine itself never
    /// mints.
    pub fn mint(&mut self, token: u64, owner: u64, amount: u64)
        requires
            old(self).wf(),
            old(self).supply(token) + amount <= u64::MAX,
        ensures
            final(self).wf(),
            final(self).bal(token, owner) == old(self).bal(token, owner) + amount,
            forall|t: u64, o: u64|
                !(t == token && o == owner) ==> final(self).bal(t, o) == old(self).bal(t, o),
            final(self).supply(token) == old(self).supply(token) + amount,
            forall|t: u64| t != token ==> final(self).supply(t) == old(self).supply(t),
    {
        let ghost s0 = self.entries@;
        match self.find_index(token, owner) {
            Some(i) => {
                let cur = self.entries[i].balance;
                proof {
                    lemma_bal_le_supply(s0, token, owner);
                }
                self.set_entry_balance(i, cur + amount);
                proof {
                    let e2 = AccountEntry { token, owner, balance: (cur + amount) as u64 };
                    assert forall|t: u64, o: u64| true implies bal_in(self.entries@, t, o) == if t
                        == token && o == owner {
                        cur + amount
                    } else {
                        bal_in(s0, t, o)
                    } by {
                        lemma_entry_update(s0, i as int, e2, t, o);
                    }
                    assert forall|t: u64| true implies supply_in(self.entries@, t) == supply_in(
                        s0,
                        t,
                    ) + if t == token {
                        amount as int
                    } else {
                        0
                    } by {
                        lemma_entry_update(s0, i as int, e2, t, owner);
                    }
                }
            },
            None => {
                let e = AccountEntry { token, owner, balance: amount };
                self.entries.push(e);
                proof {
                    assert forall|t: u64, o: u64| true implies bal_in(self.entries@, t, o) == if t
                        == token && o == owner {
                        amount as int
                    } else {
                        bal_in(s0, t, o)
                    } by {
                        lemma_entry_push(s0, e, t, o);
                    }
                    assert forall|t: u64| true implies supply_in(self.entries@, t) == supply_in(
                        s0,
                        t,
                    ) + if t == token {
                        amount as int
                    } else {
                        0
                    } by {
                        lemma_entry_push(s0, e, t, owner);
                    }
                    assert forall|a: int, b: int|
                        0 <= a < b < self.entries@.len() implies !(self.entries@[a].token
                        == self.entries@[b].token && self.entries@[a].owner
                        == self.entries@[b].owner) by {
                        if b < self.entries@.len() - 1 {
                            assert(s0[a] == self.entries@[a] && s0[b] == self.entries@[b]);
                        } else {
                            assert(s0[a] == self.entries@[a]);
                        }
                    }
                }
            },
        }
    }

    /// Moves `amount` of `token` from `from` to `to`, atomically: on
    /// failure nothing changes.  Fails exactly when the source balance
    /// is short.
    pub fn transfer(&mut self, token: u64, from: u64, to: u64, amount: u64) -> (r: Result<
        (),
        Error,
    >)
        requires
            old(self).wf(),
        ensures
            final(self).wf(),
            old(self).bal(token, from) < amount ==> r == Err::<(), Error>(
                Error::InsufficientFunds,
            ) && *final(self) == *old(self),
            old(self).bal(token, from) >= amount ==> r == Ok::<(), Error>(()) && if from == to {
                *final(self) == *old(self)
            } else {
                final(self).bal(token, from) == old(self).bal(token, from) - amount
                    && final(self).bal(token, to) == old(self).bal(token, to) + amount && (
                forall|t: u64, o: u64|
                    !(t == token && (o == from || o == to)) ==> final(self).bal(t, o) == old(
                        self,
                    ).bal(t, o)) && forall|t: u64| final(self).supply(t) == old(self).supply(t)
            },
    {
        let ghost s0 = self.entries@;
        if amount == 0 {
            proof {
                lemma_bal_le_supply(s0, token, from);
            }
            return Ok(());
        }
        let i = match self.find_index(token, from) {
            Some(i) => i,
            None => {
                return Err(Error::InsufficientFunds);
            },
        };
        let from_bal = self.entries[i].balance;
        if from_bal < amount {
            return Err(Error::InsufficientFunds);
        }
        if from == to {
            return Ok(());
        }
        proof {
            lemma_bal_le_supply(s0, token, from);
        }
        self.set_entry_balance(i, from_bal - amount);
        let ghost s1 = self.entries@;
        let ghost e1 = AccountEntry { token, owner: from, balance: (from_bal - amount) as u64 };
        proof {
            assert forall|t: u64, o: u64| true implies bal_in(s1, t, o) == if t == token && o
                == from {
                from_bal - amount
            } else {
                bal_in(s0, t, o)
            } by {
                lemma_entry_update(s0, i as int, e1, t, o);
            }
            assert forall|t: u64| true implies supply_in(s1, t) == supply_in(s0, t) - if t
                == token {
                amount as int
            } else {
                0
            } by {
                lemma_entry_update(s0, i as int, e1, t, from);
            }
            lemma_bal_le_supply(s1, token, to);
            lemma_supply_nonneg(s1, token);
        }
        match self.find_index(token, to) {
            Some(j) => {
                let to_bal = self.entries[j].balance;
                self.set_entry_balance(j, to_bal + amount);
                proof {
                    let e2 = AccountEntry { token, owner: to, balance: (to_bal + amount) as u64 };
                    assert forall|t: u64, o: u64| true implies bal_in(self.entries@, t, o) == if t
                        == token && o == to {
                        to_bal + amount
                    } else {
                        bal_in(s1, t, o)
                    } by {
                        lemma_entry_update(s1, j as int, e2, t, o);
                    }
                    assert forall|t: u64| true implies supply_in(self.entries@, t) == supply_in(
                        s1,
                        t,
                    ) + if t == token {
                        amount as int
                    } else {
                        0
                    } by {
                        lemma_entry_update(s1, j as int, e2, t, to);
                    }
                }
            },
            None => {
                let e2 = AccountEntry { token, owner: to, balance: amount };
                self.entries.push(e2);
                proof {
                    assert forall|t: u64, o: u64| true implies bal_in(self.entries@, t, o) == if t
                        == token && o == to {
                        amount as int
                    } else {
                        bal_in(s1, t, o)
                    } by {
                        lemma_entry_push(s1, e2, t, o);
                    }
                    assert forall|t: u64| true implies supply_in(self.entries@, t) == supply_in(
                        s1,
                        t,
                    ) + if t == token {
                        amount as int
                    } else {
                        0
                    } by {
                        lemma_entry_push(s1, e2, t, to);
                    }
                    assert forall|a: int, b: int|
                        0 <= a < b < self.entries@.len() implies !(self.entries@[a].token
                        == self.entries@[b].token && self.entries@[a].owner
                        == self.entries@[b].owner) by {
                        if b < self.entries@.len() - 1 {
                            assert(s1[a] == self.entries@[a] && s1[b] == self.entries@[b]);
                        } else {
                            assert(s1[a] == self.entries@[a]);
                        }
                    }
                }
            },
        }
        Ok(())
    }
}

} // verus!
