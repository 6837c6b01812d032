//! Accounts and the ledger that holds them.
use vstd::prelude::*;

verus! {

/// The abstract state of a ledger: each account's name and balance, in the
/// ledger's own order.
pub type AccountsView = Seq<(Seq<char>, int)>;

/// No two accounts of the ledger share a name.
pub open spec fn names_unique(accts: AccountsView) -> bool {
    forall|i: int, j: int|
        0 <= i < accts.len() && 0 <= j < accts.len() && i != j ==> #[trigger] accts[i].0
            != #[trigger] accts[j].0
}

/// A lookup by `name` finds an account: the name is non-empty and some
/// account carries it.
pub open spec fn has_account(accts: AccountsView, name: Seq<char>) -> bool {
    name.len() > 0 && exists|i: int| 0 <= i < accts.len() && #[trigger] accts[i].0 == name
}

/// Every balance fits in an `i64`.
pub open spec fn balances_fit(accts: AccountsView) -> bool {
    forall|i: int| 0 <= i < accts.len() ==> i64::MIN <= #[trigger] accts[i].1 <= i64::MAX
}

/// The sum of all balances.
pub open spec fn total(accts: AccountsView) -> int
    decreases accts.len(),
{
    if accts.len() == 0 {
        0
    } else {
        total(accts.drop_last()) + accts.last().1
    }
}

/// Changing one balance changes the sum by the same amount.
pub proof fn lemma_total_update(accts: AccountsView, i: int, entry: (Seq<char>, int))
    requires
        0 <= i < accts.len(),
    ensures
        total(accts.update(i, entry)) == total(accts) - accts[i].1 + entry.1,
    decreases accts.len(),
{
    let u = accts.update(i, entry);
    if i == accts.len() - 1 {
        assert(u.drop_last() =~= accts.drop_last());
    } else {
        lemma_total_update(accts.drop_last(), i, entry);
        assert(u.drop_last() =~= accts.drop_last().update(i, entry));
    }
}

/// Adds `delta` to the balance of the account called `name`; an empty or
/// unknown name changes nothing.
pub open spec fn credit(accts: AccountsView, name: Seq<char>, delta: int) -> AccountsView {
    Seq::new(
        accts.len(),
        |i: int|
            if name.len() > 0 && accts[i].0 == name {
                (accts[i].0, accts[i].1 + delta)
            } else {
                accts[i]
            },
    )
}

/// Crediting an account that a lookup finds changes that account's balance
/// alone.
pub proof fn lemma_credit_found(accts: AccountsView, name: Seq<char>, delta: int, i: int)
    requires
        names_unique(accts),
        name.len() > 0,
        0 <= i < accts.len(),
        accts[i].0 == name,
    ensures
        credit(accts, name, delta) == accts.update(i, (name, accts[i].1 + delta)),
{
    assert(credit(accts, name, delta) =~= accts.update(i, (name, accts[i].1 + delta)));
}

/// Crediting a name that no lookup finds changes nothing.
pub proof fn lemma_credit_missing(accts: AccountsView, name: Seq<char>, delta: int)
    requires
        !has_account(accts, name),
    ensures
        credit(accts, name, delta) == accts,
{
    assert(credit(accts, name, delta) =~= accts);
}

/// Crediting keeps every name, and so keeps names unique.
pub proof fn lemma_credit_keeps_names(accts: AccountsView, name: Seq<char>, delta: int)
    ensures
        credit(accts, name, delta).len() == accts.len(),
        forall|i: int|
            0 <= i < accts.len() ==> (#[trigger] credit(accts, name, delta)[i]).0 == accts[i].0,
        names_unique(accts) ==> names_unique(credit(accts, name, delta)),
        forall|n: Seq<char>| has_account(credit(accts, name, delta), n) == has_account(accts, n),
{
    let c = credit(accts, name, delta);
    assert forall|n: Seq<char>| has_account(c, n) == has_account(accts, n) by {
        if has_account(c, n) {
            let i = choose|i: int| 0 <= i < c.len() && #[trigger] c[i].0 == n;
            assert(accts[i].0 == n);
        }
        if has_account(accts, n) {
            let i = choose|i: int| 0 <= i < accts.len() && #[trigger] accts[i].0 == n;
            assert(c[i].0 == n);
        }
    }
}

/// A named account with its balance, in the smallest unit of currency.
pub struct Account {
    pub name: String,
    pub balance: i64,
}

impl Account {
    pub fn new(name: String, balance: i64) -> (r: Account)
        ensures
            r.name@ == name@,
            r.balance == balance,
    {
        Account { name, balance }
    }
}

/// Why a set of accounts cannot form a ledger.
#[derive(Debug, Clone, Copy, PartialEq, Eq, Structural)]
pub enum LedgerError {
    /// Two accounts carry the same name; the field is the later one's index.
    DuplicateName(usize),
}

/// A fixed set of accounts with unique names. Accounts are neither added nor
/// removed once the ledger exists; only balances change.
pub struct Ledger {
    accounts: Vec<Account>,
}

/// The abstract state of a sequence of accounts.
pub open spec fn accounts_view(accounts: Seq<Account>) -> AccountsView {
    Seq::new(accounts.len(), |i: int| (accounts[i].name@, accounts[i].balance as int))
}

impl View for Ledger {
    type V = AccountsView;

    closed spec fn view(&self) -> AccountsView {
        accounts_view(self.accounts@)
    }
}

impl Ledger {
    /// Well-formed: names are unique and every balance is an `i64`. Every
    /// ledger that `new` returns is, and every operation keeps it so.
    pub open spec fn wf(&self) -> bool {
        names_unique(self@) && balances_fit(self@)
    }

    /// Builds a ledger from accounts, in the given order. Fails on the first
    /// account whose name an earlier account already carries.
    pub fn new(accounts: Vec<Account>) -> (r: Result<Ledger, LedgerError>)
        ensures
            names_unique(accounts_view(accounts@)) <==> r is Ok,
            r matches Ok(l) ==> l@ == accounts_view(accounts@) && l.wf(),
            r matches Err(LedgerError::DuplicateName(k)) ==> {
                &&& 0 < k < accounts.len()
                &&& exists|j: int| 0 <= j < k && accounts@[j].name@ == accounts@[k as int].name@
            },
    {
        let ghost v = accounts_view(accounts@);
        let mut k: usize = 0;
        while k < accounts.len()
            invariant
                0 <= k <= accounts.len(),
                v == accounts_view(accounts@),
                names_unique(v.take(k as int)),
            decreases accounts.len() - k,
        {
            let mut j: usize = 0;
            while j < k
                invariant
                    0 <= j <= k < accounts.len(),
                    v == accounts_view(accounts@),
                    forall|m: int| 0 <= m < j ==> v[m].0 != v[k as int].0,
                decreases k - j,
            {
                if accounts[j].name == accounts[k].name {
                    proof {
                        assert(v[j as int].0 == accounts@[j as int].name@);
                        assert(v[k as int].0 == accounts@[k as int].name@);
                        assert(!names_unique(v));
                    }
                    return Err(LedgerError::DuplicateName(k));
                }
                j = j + 1;
            }
            proof {
                let t = v.take(k as int + 1);
                assert forall|a: int, b: int|
                    0 <= a < t.len() && 0 <= b < t.len() && a != b implies #[trigger] t[a].0
                    != #[trigger] t[b].0 by {
                    if a < k && b < k {
                        assert(v.take(k as int)[a] == t[a]);
                        assert(v.take(k as int)[b] == t[b]);
                    }
                }
            }
            k = k + 1;
        }
        proof {
            assert(v.take(k as int) =~= v);
            assert(balances_fit(v));
        }
        Ok(Ledger { accounts })
    }

    /// The number of accounts.
    pub fn len(&self) -> (r: usize)
        ensures
            r == self@.len(),
    {
        self.accounts.len()
    }

    /// The name of the account at index `i`.
    pub fn name(&self, i: usize) -> (r: &String)
        requires
            i < self@.len(),
        ensures
            r@ == self@[i as int].0,
    {
        &self.accounts[i].name
    }

    /// The balance of the account at index `i`.
    pub fn balance(&self, i: usize) -> (r: i64)
        requires
            i < self@.len(),
        ensures
            r == self@[i as int].1,
    {
        self.accounts[i].balance
    }

    /// Sets the balance of the account at index `i`; names stay as they are.
    pub(crate) fn set_balance(&mut self, i: usize, balance: i64)
        requires
            old(self).wf(),
            i < old(self)@.len(),
        ensures
            final(self).wf(),
            final(self)@ == old(self)@.update(i as int, (old(self)@[i as int].0, balance as int)),
    {
        let name = self.accounts[i].name.clone();
        self.accounts.set(i, Account { name, balance });
        proof {
            assert(self@ =~= old(self)@.update(i as int, (old(self)@[i as int].0, balance as int)));
            assert forall|a: int, b: int|
                0 <= a < self@.len() && 0 <= b < self@.len() && a != b implies #[trigger] self@[a].0
                != #[trigger] self@[b].0 by {
                assert(self@[a].0 == old(self)@[a].0);
                assert(self@[b].0 == old(self)@[b].0);
            }
            assert(balances_fit(self@));
        }
    }

    /// Looks up an account by exact, case-sensitive name. An empty name finds
    /// nothing.
    pub fn find_account(&self, name: &String) -> (r: Option<usize>)
        ensures
            r is None <==> !has_account(self@, name@),
            r matches Some(i) ==> i < self@.len() && self@[i as int].0 == name@,
    {
        if name.as_str().is_empty() {
            return None;
        }
        let mut i: usize = 0;
        while i < self.accounts.len()
            invariant
                0 <= i <= self.accounts.len(),
                name@.len() > 0,
                forall|m: int| 0 <= m < i ==> #[trigger] self@[m].0 != name@,
            decreases self.accounts.len() - i,
        {
            if self.accounts[i].name == *name {
                proof {
                    assert(self@[i as int].0 == name@);
                }
                return Some(i);
            }
            i = i + 1;
        }
        None
    }
}

} // verus!
