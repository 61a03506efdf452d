use vstd::prelude::*;

verus! {

/// The fees accumulated, and not yet withdrawn, in one value token.
pub struct VaultEntry {
    pub token: u64,
    pub amount: u64,
}

/// The unwithdrawn fee balance that `s` records for `token`.
pub open spec fn vault_bal_in(s: Seq<VaultEntry>, token: u64) -> int
    decreases s.len(),
{
    if s.len() == 0 {
        0
    } else if s.last().token == token {
        s.last().amount as int
    } else {
        vault_bal_in(s.drop_last(), token)
    }
}

/// No two entries record the same token.
pub open spec fn unique_tokens(s: Seq<VaultEntry>) -> bool {
    forall|i: int, j: int| 0 <= i < j < s.len() ==> s[i].token != s[j].token
}

/// The fee vault: the protocol fees collected across all markets,
/// segregated per value token, withdrawable only by the administrator.
/// It increases only when a market's fee or rounding residual is
/// credited and decreases only by a withdrawal.
pub struct FeeVault {
    pub entries: Vec<VaultEntry>,
}

pub proof fn lemma_vault_bal_nonneg(s: Seq<VaultEntry>, token: u64)
    ensures
        vault_bal_in(s, token) >= 0,
    decreases s.len(),
{
    if s.len() > 0 {
        lemma_vault_bal_nonneg(s.drop_last(), token);
    }
}

/// With unique tokens, the balance of the token at index `i` is the
/// recorded amount of that entry.
proof fn lemma_vault_bal_at(s: Seq<VaultEntry>, i: int)
    requires
        unique_tokens(s),
        0 <= i < s.len(),
    ensures
        vault_bal_in(s, s[i].token) == s[i].amount,
    decreases s.len(),
{
    if i < s.len() - 1 {
        assert(s.drop_last()[i] == s[i]);
        lemma_vault_bal_at(s.drop_last(), i);
    }
}

proof fn lemma_vault_bal_absent(s: Seq<VaultEntry>, token: u64)
    requires
        forall|i: int| 0 <= i < s.len() ==> s[i].token != token,
    ensures
        vault_bal_in(s, token) == 0,
    decreases s.len(),
{
    if s.len() > 0 {
        lemma_vault_bal_absent(s.drop_last(), token);
    }
}

proof fn lemma_vault_update(s: Seq<VaultEntry>, i: int, e: VaultEntry, token: u64)
    requires
        unique_tokens(s),
        0 <= i < s.len(),
        s[i].token == e.token,
    ensures
        vault_bal_in(s.update(i, e), token) == if token == e.token {
            e.amount as int
        } else {
            vault_bal_in(s, token)
        },
    decreases s.len(),
{
    let u = s.update(i, e);
    if i == s.len() - 1 {
        assert(u.drop_last() =~= s.drop_last());
    } else {
        assert(u.last() == s.last());
        assert(u.drop_last() =~= s.drop_last().update(i, e));
        lemma_vault_update(s.drop_last(), i, e, token);
    }
}

proof fn lemma_vault_push(s: Seq<VaultEntry>, e: VaultEntry, token: u64)
    ensures
        vault_bal_in(s.push(e), token) == if token == e.token {
            e.amount as int
        } else {
            vault_bal_in(s, token)
        },
{
    assert(s.push(e).drop_last() =~= s);
}

impl FeeVault {
    pub open spec fn wf(self) -> bool {
        unique_tokens(self.entries@)
    }

    /// The unwithdrawn balance held in `token`.
    pub open spec fn bal(self, token: u64) -> int {
        vault_bal_in(self.entries@, token)
    }

    pub fn new() -> (r: FeeVault)
        ensures
            r.wf(),
            forall|t: u64| r.bal(t) == 0,
    {
        let r = FeeVault { entries: Vec::new() };
        proof {
            assert forall|t: u64| r.bal(t) == 0 by {
                lemma_vault_bal_absent(r.entries@, t);
            }
        }
        r
    }

    fn find_index(&self, token: u64) -> (r: Option<usize>)
        requires
            self.wf(),
        ensures
            match r {
                Some(i) => i < self.entries@.len() && self.entries@[i as int].token == token
                    && self.bal(token) == self.entries@[i as int].amount,
                None => self.bal(token) == 0 && forall|j: int|
                    0 <= j < self.entries@.len() ==> self.entries@[j].token != token,
            },
    {
        let n = self.entries.len();
        let mut k: usize = 0;
        while k < n
            invariant
                n == self.entries@.len(),
                k <= n,
                self.wf(),
                forall|j: int| 0 <= j < k ==> self.entries@[j].token != token,
            decreases n - k,
        {
            if self.entries[k].token == token {
                proof {
                    lemma_vault_bal_at(self.entries@, k as int);
                }
                return Some(k);
            }
            k += 1;
        }
        proof {
            lemma_vault_bal_absent(self.entries@, token);
        }
        None
    }

    /// The unwithdrawn balance held in `token`.
    pub fn balance(&self, token: u64) -> (r: u64)
        requires
            self.wf(),
        ensures
            r == self.bal(token),
    {
        match self.find_index(token) {
            Some(i) => self.entries[i].amount,
            None => 0,
        }
    }

    /// Adds a collected fee or a rounding residual to the vault.
    pub fn credit(&mut self, token: u64, amount: u64)
        requires
            old(self).wf(),
            old(self).bal(token) + amount <= u64::MAX,
        ensures
            final(self).wf(),
            final(self).bal(token) == old(self).bal(token) + amount,
            forall|t: u64| t != token ==> final(self).bal(t) == old(self).bal(t),
    {
        let ghost s0 = self.entries@;
        match self.find_index(token) {
            Some(i) => {
                let cur = self.entries[i].amount;
                let e = self.entries.remove(i);
                let e2 = VaultEntry { token: e.token, amount: cur + amount };
                self.entries.insert(i, e2);
                proof {
                    assert(self.entries@ =~= s0.update(i as int, e2));
                    assert forall|a: int, b: int|
                        0 <= a < b < self.entries@.len() implies self.entries@[a].token
                        != self.entries@[b].token by {
                        assert(s0[a].token == self.entries@[a].token && s0[b].token
                            == self.entries@[b].token);
                    }
                    assert forall|t: u64| true implies vault_bal_in(self.entries@, t) == if t
                        == token {
                        cur + amount
                    } else {
                        vault_bal_in(s0, t)
                    } by {
                        lemma_vault_update(s0, i as int, e2, t);
                    }
                }
            },
            None => {
                let e = VaultEntry { token, amount };
                self.entries.push(e);
                proof {
                    assert forall|t: u64| true implies vault_bal_in(self.entries@, t) == if t
                        == token {
                        amount as int
                    } else {
                        vault_bal_in(s0, t)
                    } by {
                        lemma_vault_push(s0, e, t);
                    }
                    assert forall|a: int, b: int|
                        0 <= a < b < self.entries@.len() implies self.entries@[a].token
                        != self.entries@[b].token by {
                        if b < self.entries@.len() - 1 {
                            assert(s0[a] == self.entries@[a] && s0[b] == self.entries@[b]);
                        } else {
                            assert(s0[a] == self.entries@[a]);
                        }
                    }
                }
            },
        }
    }

    /// Removes a withdrawn amount from the vault.
    pub fn debit(&mut self, token: u64, amount: u64)
        requires
            old(self).wf(),
            amount <= old(self).bal(token),
        ensures
            final(self).wf(),
            final(self).bal(token) == old(self).bal(token) - amount,
            forall|t: u64| t != token ==> final(self).bal(t) == old(self).bal(t),
    {
        let ghost s0 = self.entries@;
        match self.find_index(token) {
            Some(i) => {
                let cur = self.entries[i].amount;
                let e = self.entries.remove(i);
                let e2 = VaultEntry { token: e.token, amount: cur - amount };
                self.entries.insert(i, e2);
                proof {
                    assert(self.entries@ =~= s0.update(i as int, e2));
                    assert forall|a: int, b: int|
                        0 <= a < b < self.entries@.len() implies self.entries@[a].token
                        != self.entries@[b].token by {
                        assert(s0[a].token == self.entries@[a].token && s0[b].token
                            == self.entries@[b].token);
                    }
                    assert forall|t: u64| true implies vault_bal_in(self.entries@, t) == if t
                        == token {
                        cur - amount
                    } else {
                        vault_bal_in(s0, t)
                    } by {
                        lemma_vault_update(s0, i as int, e2, t);
                    }
                }
            },
            None => {
                // amount <= bal == 0, so amount == 0 and nothing moves.
                proof {
                    assert(self.entries@ =~= s0);
                }
            },
        }
    }
}

} // verus!
