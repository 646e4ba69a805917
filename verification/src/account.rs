use vstd::prelude::*;

use crate::digits::dec_chars;
use crate::digits::u64_to_string;
use crate::transaction::Tx;

verus! {

/// The text that [`Accounts::print`] emits for one account.
pub open spec fn render_entry(name: Seq<char>, amount: u64) -> Seq<char> {
    "\n\rAccount:\n            \r   name: "@ + name + "\n            \r   amount: "@ + dec_chars(
        amount as nat,
    ) + "\n            "@
}

/// The text that [`Accounts::print`] emits for a sequence of accounts, in
/// the order given.
pub open spec fn render(entries: Seq<(Seq<char>, u64)>) -> Seq<char>
    decreases entries.len(),
{
    if entries.len() == 0 {
        Seq::<char>::empty()
    } else {
        render(entries.drop_last()) + render_entry(entries.last().0, entries.last().1)
    }
}

/// Why a ledger operation failed.  Each variant carries the name of the
/// account involved and, where relevant, the amount that was requested.
///
/// `AccountOverFunded` is reported both for a deposit that would exceed the
/// maximum representable balance and, historically, for a transfer whose
/// sender or recipient does not exist; see [`Accounts::send`].
#[derive(Debug)]
pub enum AccountingError {
    AccountNotFound(String),
    AccountUnderFunded(String, u64),
    AccountOverFunded(String, u64),
}

/// The ledger: the single owner of the mapping from account name to balance.
///
/// Its abstract value (the [`View`] impl) is a map from account name, as a
/// sequence of characters, to the current balance of that account.
#[derive(Debug)]
pub struct Accounts {
    accounts: Vec<(String, u64)>,
}

/// The balance table read as a mathematical map: a later entry for a name
/// overrides an earlier one, though a well-formed table never repeats a name.
spec fn map_of(entries: Seq<(String, u64)>) -> Map<Seq<char>, u64>
    decreases entries.len(),
{
    if entries.len() == 0 {
        Map::empty()
    } else {
        map_of(entries.drop_last()).insert(entries.last().0@, entries.last().1)
    }
}

/// No account name occurs twice among the entries.
spec fn distinct_keys(entries: Seq<(String, u64)>) -> bool {
    forall|i: int, j: int|
        0 <= i < j < entries.len() ==> entries[i].0@ != entries[j].0@
}

/// Whether depositing `amount` for `name` succeeds on table `m`: a deposit
/// on a fresh name always succeeds (it creates the account), and one on an
/// existing name succeeds exactly when the new balance still fits in `u64`.
pub open spec fn deposit_ok(m: Map<Seq<char>, u64>, name: Seq<char>, amount: u64) -> bool {
    !m.contains_key(name) || m[name] + amount <= u64::MAX
}

/// The table after a successful deposit of `amount` for `name`.
pub open spec fn deposit_map(m: Map<Seq<char>, u64>, name: Seq<char>, amount: u64) -> Map<
    Seq<char>,
    u64,
> {
    if m.contains_key(name) {
        m.insert(name, (m[name] + amount) as u64)
    } else {
        m.insert(name, amount)
    }
}

/// Whether withdrawing `amount` from `name` succeeds on table `m`: the
/// account must exist and hold at least `amount`.
pub open spec fn withdraw_ok(m: Map<Seq<char>, u64>, name: Seq<char>, amount: u64) -> bool {
    m.contains_key(name) && m[name] >= amount
}

/// The table after a successful withdrawal of `amount` from `name`.
pub open spec fn withdraw_map(m: Map<Seq<char>, u64>, name: Seq<char>, amount: u64) -> Map<
    Seq<char>,
    u64,
> {
    m.insert(name, (m[name] - amount) as u64)
}

proof fn lemma_map_of_contains(entries: Seq<(String, u64)>, k: Seq<char>)
    ensures
        map_of(entries).contains_key(k) <==> exists|i: int|
            0 <= i < entries.len() && entries[i].0@ == k,
    decreases entries.len(),
{
    if entries.len() > 0 {
        let prefix = entries.drop_last();
        lemma_map_of_contains(prefix, k);
        if entries.last().0@ == k {
            assert(entries[entries.len() - 1].0@ == k);
        } else {
            if map_of(entries).contains_key(k) {
                let i: int = choose|i: int| 0 <= i < prefix.len() && prefix[i].0@ == k;
                assert(entries[i].0@ == k);
            }
            if exists|i: int| 0 <= i < entries.len() && entries[i].0@ == k {
                let i: int = choose|i: int| 0 <= i < entries.len() && entries[i].0@ == k;
                assert(prefix[i].0@ == k);
            }
        }
    }
}

proof fn lemma_map_of_index(entries: Seq<(String, u64)>, i: int)
    requires
        distinct_keys(entries),
        0 <= i < entries.len(),
    ensures
        map_of(entries).contains_key(entries[i].0@),
        map_of(entries)[entries[i].0@] == entries[i].1,
    decreases entries.len(),
{
    let prefix = entries.drop_last();
    if i < entries.len() - 1 {
        assert(distinct_keys(prefix));
        lemma_map_of_index(prefix, i);
        assert(entries[i].0@ != entries.last().0@);
    }
}

proof fn lemma_map_of_update(entries: Seq<(String, u64)>, i: int, name: String, v: u64)
    requires
        distinct_keys(entries),
        0 <= i < entries.len(),
        name@ == entries[i].0@,
    ensures
        map_of(entries.update(i, (name, v))) == map_of(entries).insert(entries[i].0@, v),
    decreases entries.len(),
{
    let u = entries.update(i, (name, v));
    let prefix = entries.drop_last();
    let k = entries[i].0@;
    if i == entries.len() - 1 {
        assert(u.drop_last() =~= prefix);
        assert(map_of(u) == map_of(prefix).insert(k, v));
        assert(map_of(prefix).insert(k, entries[i].1).insert(k, v) =~= map_of(prefix).insert(
            k,
            v,
        ));
    } else {
        assert(distinct_keys(prefix));
        assert(u.drop_last() =~= prefix.update(i, (name, v)));
        lemma_map_of_update(prefix, i, name, v);
        let lk = entries.last().0@;
        let lv = entries.last().1;
        assert(k != lk);
        assert(u.last() == entries.last());
        assert(map_of(u) == map_of(prefix).insert(k, v).insert(lk, lv));
        assert(map_of(prefix).insert(k, v).insert(lk, lv) =~= map_of(prefix).insert(
            lk,
            lv,
        ).insert(k, v));
    }
}

proof fn lemma_map_of_push(entries: Seq<(String, u64)>, name: String, v: u64)
    ensures
        map_of(entries.push((name, v))) == map_of(entries).insert(name@, v),
{
    let p = entries.push((name, v));
    assert(p.drop_last() =~= entries);
    assert(p.last() == (name, v));
}

impl View for Accounts {
    type V = Map<Seq<char>, u64>;

    closed spec fn view(&self) -> Map<Seq<char>, u64> {
        map_of(self.accounts@)
    }
}

impl Accounts {
    /// Well-formedness of the table: no account name occurs twice.  Every
    /// constructor establishes it and every operation preserves it.
    pub closed spec fn wf(&self) -> bool {
        distinct_keys(self.accounts@)
    }

    /// Creates an empty ledger: no accounts, no balances.
    pub fn new() -> (result: Self)
        ensures
            result.wf(),
            result@ == Map::<Seq<char>, u64>::empty(),
    {
        Accounts { accounts: Vec::new() }
    }

    /// Index of the entry for `name`, if the account exists.
    fn find_index(&self, name: &str) -> (r: Option<usize>)
        ensures
            match r {
                Some(i) => i < self.accounts@.len() && self.accounts@[i as int].0@ == name@,
                None => forall|i: int|
                    0 <= i < self.accounts@.len() ==> self.accounts@[i].0@ != name@,
            },
    {
        let key = String::from_str(name);
        let n: usize = self.accounts.len();
        let mut i: usize = 0;
        while i < n
            invariant
                n == self.accounts@.len(),
                i <= n,
                key@ == name@,
                forall|j: int| 0 <= j < i ==> self.accounts@[j].0@ != name@,
            decreases n - i,
        {
            if self.accounts[i].0 == key {
                return Some(i);
            }
            i += 1;
        }
        None
    }

    /// Deposits `amount` into the account named `signer`.
    ///
    /// A fresh name is created with balance `amount`; an existing account is
    /// credited, with overflow detection.  On overflow the operation fails
    /// with `AccountOverFunded` and the table is unchanged.  On success the
    /// returned record carries the name and the deposited amount.
    pub fn deposit(&mut self, signer: &str, amount: u64) -> (r: Result<Tx, AccountingError>)
        requires
            old(self).wf(),
        ensures
            final(self).wf(),
            deposit_ok(old(self)@, signer@, amount) ==> ({
                &&& final(self)@ == deposit_map(old(self)@, signer@, amount)
                &&& (r matches Ok(Tx::Deposit { account, amount: moved }) && account@ == signer@
                    && moved == amount)
            }),
            !deposit_ok(old(self)@, signer@, amount) ==> ({
                &&& final(self)@ == old(self)@
                &&& (r matches Err(AccountingError::AccountOverFunded(account, moved))
                    && account@ == signer@ && moved == amount)
            }),
    {
        let ghost s0 = self.accounts@;
        match self.find_index(signer) {
            Some(i) => {
                proof {
                    lemma_map_of_index(s0, i as int);
                }
                let balance: u64 = self.accounts[i].1;
                match balance.checked_add(amount) {
                    Some(credited) => {
                        let name = self.accounts[i].0.clone();
                        self.accounts[i] = (name, credited);
                        proof {
                            lemma_map_of_update(s0, i as int, self.accounts@[i as int].0, credited);
                            assert(distinct_keys(self.accounts@));
                        }
                        Ok(Tx::Deposit { account: String::from_str(signer), amount })
                    },
                    None => Err(
                        AccountingError::AccountOverFunded(String::from_str(signer), amount),
                    ),
                }
            },
            None => {
                proof {
                    lemma_map_of_contains(s0, signer@);
                }
                let name = String::from_str(signer);
                self.accounts.push((name, amount));
                proof {
                    lemma_map_of_push(s0, self.accounts@.last().0, amount);
                    assert(distinct_keys(self.accounts@));
                }
                Ok(Tx::Deposit { account: String::from_str(signer), amount })
            },
        }
    }

    /// Withdraws `amount` from the account named `signer`.
    ///
    /// Fails with `AccountNotFound` when the account does not exist and with
    /// `AccountUnderFunded` when its balance is below `amount`; in either
    /// case the table is unchanged.  On success the balance is debited and
    /// the returned record carries the name and the withdrawn amount.
    pub fn withdraw(&mut self, signer: &str, amount: u64) -> (r: Result<Tx, AccountingError>)
        requires
            old(self).wf(),
        ensures
            final(self).wf(),
            withdraw_ok(old(self)@, signer@, amount) ==> ({
                &&& final(self)@ == withdraw_map(old(self)@, signer@, amount)
                &&& (r matches Ok(Tx::Withdraw { account, amount: moved }) && account@ == signer@
                    && moved == amount)
            }),
            !old(self)@.contains_key(signer@) ==> ({
                &&& final(self)@ == old(self)@
                &&& (r matches Err(AccountingError::AccountNotFound(account)) && account@
                    == signer@)
            }),
            old(self)@.contains_key(signer@) && old(self)@[signer@] < amount ==> ({
                &&& final(self)@ == old(self)@
                &&& (r matches Err(AccountingError::AccountUnderFunded(account, moved))
                    && account@ == signer@ && moved == amount)
            }),
    {
        let ghost s0 = self.accounts@;
        match self.find_index(signer) {
            Some(i) => {
                proof {
                    lemma_map_of_index(s0, i as int);
                }
                let balance: u64 = self.accounts[i].1;
                match balance.checked_sub(amount) {
                    Some(debited) => {
                        let name = self.accounts[i].0.clone();
                        self.accounts[i] = (name, debited);
                        proof {
                            lemma_map_of_update(s0, i as int, self.accounts@[i as int].0, debited);
                            assert(distinct_keys(self.accounts@));
                        }
                        Ok(Tx::Withdraw { account: String::from_str(signer), amount })
                    },
                    None => Err(
                        AccountingError::AccountUnderFunded(String::from_str(signer), amount),
                    ),
                }
            },
            None => {
                proof {
                    lemma_map_of_contains(s0, signer@);
                }
                Err(AccountingError::AccountNotFound(String::from_str(signer)))
            },
        }
    }

    /// Transfers `amount` from `sender` to `recipient`: one withdrawal from
    /// the sender followed by one deposit into the recipient, in that order,
    /// with no rollback between the two steps.
    ///
    /// Both accounts must already exist; a transfer never creates one.  When
    /// either is missing the operation fails with
    /// `AccountOverFunded(sender, amount)` — the historical error shape for
    /// this condition — and the table is unchanged.  When the withdrawal
    /// fails the whole transfer fails with that error and the recipient is
    /// untouched.  When the withdrawal succeeds but crediting the recipient
    /// would overflow, the transfer reports `AccountOverFunded(recipient,
    /// amount)` while the sender's balance stays debited: the operation is
    /// deliberately not atomic, and no compensating rollback is attempted.
    pub fn send(&mut self, sender: &str, recipient: &str, amount: u64) -> (r: Result<
        (Tx, Tx),
        AccountingError,
    >)
        requires
            old(self).wf(),
        ensures
            final(self).wf(),
            !(old(self)@.contains_key(sender@) && old(self)@.contains_key(recipient@)) ==> ({
                &&& final(self)@ == old(self)@
                &&& (r matches Err(AccountingError::AccountOverFunded(account, moved))
                    && account@ == sender@ && moved == amount)
            }),
            old(self)@.contains_key(sender@) && old(self)@.contains_key(recipient@) && old(
                self,
            )@[sender@] < amount ==> ({
                &&& final(self)@ == old(self)@
                &&& (r matches Err(AccountingError::AccountUnderFunded(account, moved))
                    && account@ == sender@ && moved == amount)
            }),
            old(self)@.contains_key(sender@) && old(self)@.contains_key(recipient@) && old(
                self,
            )@[sender@] >= amount ==> ({
                let mid = withdraw_map(old(self)@, sender@, amount);
                if deposit_ok(mid, recipient@, amount) {
                    &&& final(self)@ == deposit_map(mid, recipient@, amount)
                    &&& (r matches Ok((Tx::Withdraw { account: wa, amount: wx }, Tx::Deposit {
                        account: da,
                        amount: dx,
                    })) && wa@ == sender@ && wx == amount && da@ == recipient@ && dx == amount)
                } else {
                    &&& final(self)@ == mid
                    &&& (r matches Err(AccountingError::AccountOverFunded(account, moved))
                        && account@ == recipient@ && moved == amount)
                }
            }),
    {
        let sender_exists = self.find_index(sender).is_some();
        let recipient_exists = self.find_index(recipient).is_some();
        proof {
            lemma_map_of_contains(self.accounts@, sender@);
            lemma_map_of_contains(self.accounts@, recipient@);
        }
        if sender_exists && recipient_exists {
            let sender_tx = match self.withdraw(sender, amount) {
                Ok(tx) => tx,
                Err(e) => {
                    return Err(e);
                },
            };
            let recipient_tx = match self.deposit(recipient, amount) {
                Ok(tx) => tx,
                Err(e) => {
                    return Err(e);
                },
            };
            Ok((sender_tx, recipient_tx))
        } else {
            Err(AccountingError::AccountOverFunded(String::from_str(sender), amount))
        }
    }

    /// The table as a sequence of (name, balance) pairs, in insertion order.
    /// [`Accounts::snapshot`] and [`Accounts::print`] report the entries in
    /// exactly this order; [`Accounts::lemma_entries_view`] relates it to
    /// the abstract map.
    pub closed spec fn entries(&self) -> Seq<(Seq<char>, u64)> {
        self.accounts@.map_values(|p: (String, u64)| (p.0@, p.1))
    }

    /// In a well-formed ledger the entry sequence lists each account of the
    /// abstract map exactly once, with its current balance: no name repeats,
    /// every listed balance is the mapped one, and no account is omitted.
    pub proof fn lemma_entries_view(&self)
        requires
            self.wf(),
        ensures
            self.entries().len() == self@.dom().len(),
            forall|i: int, j: int|
                0 <= i < j < self.entries().len() ==> self.entries()[i].0 != self.entries()[j].0,
            forall|i: int|
                0 <= i < self.entries().len() ==> self@.contains_key(
                    (#[trigger] self.entries()[i]).0,
                ) && self@[self.entries()[i].0] == self.entries()[i].1,
            forall|k: Seq<char>|
                self@.contains_key(k) ==> exists|i: int|
                    0 <= i < self.entries().len() && (#[trigger] self.entries()[i]).0 == k,
    {
        let es = self.entries();
        assert forall|i: int|
            0 <= i < es.len() implies self@.contains_key((#[trigger] es[i]).0) && self@[es[i].0]
            == es[i].1 by {
            lemma_map_of_index(self.accounts@, i);
        }
        assert forall|k: Seq<char>| self@.contains_key(k) implies exists|i: int|
            0 <= i < es.len() && (#[trigger] es[i]).0 == k by {
            lemma_map_of_contains(self.accounts@, k);
            let i: int = choose|i: int|
                0 <= i < self.accounts@.len() && self.accounts@[i].0@ == k;
            assert(es[i].0 == k);
        }
        lemma_map_of_dom_len(self.accounts@);
    }

    /// The balance of the account named `name`, or `None` when no such
    /// account exists.
    pub fn balance(&self, name: &str) -> (r: Option<u64>)
        requires
            self.wf(),
        ensures
            r == if self@.contains_key(name@) {
                Some(self@[name@])
            } else {
                None::<u64>
            },
    {
        match self.find_index(name) {
            Some(i) => {
                proof {
                    lemma_map_of_index(self.accounts@, i as int);
                }
                Some(self.accounts[i].1)
            },
            None => {
                proof {
                    lemma_map_of_contains(self.accounts@, name@);
                }
                None
            },
        }
    }

    /// A read-only dump of the table: every account with its current
    /// balance, each exactly once, in insertion order.
    pub fn snapshot(&self) -> (r: Vec<(String, u64)>)
        requires
            self.wf(),
        ensures
            r@.len() == self.entries().len(),
            forall|i: int|
                0 <= i < r@.len() ==> ((#[trigger] r@[i]).0@, r@[i].1) == self.entries()[i],
            forall|i: int, j: int| 0 <= i < j < r@.len() ==> r@[i].0@ != r@[j].0@,
            forall|i: int|
                0 <= i < r@.len() ==> self@.contains_key((#[trigger] r@[i]).0@) && self@[r@[i].0@]
                    == r@[i].1,
            forall|k: Seq<char>|
                self@.contains_key(k) ==> exists|i: int|
                    0 <= i < r@.len() && (#[trigger] r@[i]).0@ == k,
    {
        let mut r: Vec<(String, u64)> = Vec::new();
        let n: usize = self.accounts.len();
        let mut i: usize = 0;
        while i < n
            invariant
                n == self.accounts@.len(),
                i <= n,
                r@.len() == i,
                forall|j: int| 0 <= j < i ==> (#[trigger] r@[j]) == self.accounts@[j],
            decreases n - i,
        {
            let name = self.accounts[i].0.clone();
            let amount: u64 = self.accounts[i].1;
            r.push((name, amount));
            i += 1;
        }
        proof {
            self.lemma_entries_view();
            assert forall|j: int|
                0 <= j < r@.len() implies self@.contains_key((#[trigger] r@[j]).0@)
                && self@[r@[j].0@] == r@[j].1 by {
                lemma_map_of_index(self.accounts@, j);
            }
            assert forall|k: Seq<char>| self@.contains_key(k) implies exists|j: int|
                0 <= j < r@.len() && (#[trigger] r@[j]).0@ == k by {
                let j: int = choose|j: int|
                    0 <= j < self.entries().len() && (#[trigger] self.entries()[j]).0 == k;
                assert(r@[j].0@ == k);
            }
        }
        r
    }

    /// Renders the table for display: one block per account, in insertion
    /// order, showing the name and the balance in decimal.
    pub fn print(&self) -> (r: String)
        ensures
            r@ == render(self.entries()),
    {
        let mut output = String::new();
        let n: usize = self.accounts.len();
        let mut i: usize = 0;
        while i < n
            invariant
                n == self.accounts@.len(),
                i <= n,
                output@ == render(self.entries().subrange(0, i as int)),
            decreases n - i,
        {
            output.append("\n\rAccount:\n            \r   name: ");
            output.append(self.accounts[i].0.as_str());
            output.append("\n            \r   amount: ");
            let num = u64_to_string(self.accounts[i].1);
            output.append(num.as_str());
            output.append("\n            ");
            proof {
                let es = self.entries();
                assert(es.subrange(0, i as int + 1).drop_last() =~= es.subrange(0, i as int));
                assert(es.subrange(0, i as int + 1).last() == es[i as int]);
                assert(output@ =~= render(es.subrange(0, i as int + 1)));
            }
            i += 1;
        }
        proof {
            assert(self.entries().subrange(0, n as int) =~= self.entries());
        }
        output
    }
}

/// A well-formed entry sequence has exactly one entry per key of its map.
proof fn lemma_map_of_dom_len(entries: Seq<(String, u64)>)
    requires
        distinct_keys(entries),
    ensures
        map_of(entries).dom().finite(),
        map_of(entries).dom().len() == entries.len(),
    decreases entries.len(),
{
    if entries.len() == 0 {
        assert(map_of(entries).dom() =~= Set::<Seq<char>>::empty());
    } else {
        let prefix = entries.drop_last();
        assert(distinct_keys(prefix));
        lemma_map_of_dom_len(prefix);
        lemma_map_of_contains(prefix, entries.last().0@);
        assert(!map_of(prefix).contains_key(entries.last().0@));
        assert(map_of(entries).dom() =~= map_of(prefix).dom().insert(entries.last().0@));
        vstd::set::axiom_set_insert_len(map_of(prefix).dom(), entries.last().0@);
    }
}

/// Law: depositing into a fresh account sets its balance to exactly the
/// deposited amount, and a second deposit accumulates: after depositing
/// `first` and then `second` (whose sum fits in `u64`), the balance is
/// `first + second`.
pub proof fn lemma_deposit_fresh_then_accumulate(
    m: Map<Seq<char>, u64>,
    name: Seq<char>,
    first: u64,
    second: u64,
)
    requires
        !m.contains_key(name),
        first + second <= u64::MAX,
    ensures
        deposit_ok(m, name, first),
        deposit_map(m, name, first)[name] == first,
        deposit_ok(deposit_map(m, name, first), name, second),
        deposit_map(deposit_map(m, name, first), name, second)[name] == first + second,
{
}

/// Law: a deposit that would push an existing balance past `u64::MAX` is
/// rejected; by the contract of [`Accounts::deposit`] it then fails with
/// `AccountOverFunded` and leaves the table unchanged.
pub proof fn lemma_deposit_overflow_rejected(m: Map<Seq<char>, u64>, name: Seq<char>, amount: u64)
    requires
        m.contains_key(name),
        m[name] + amount > u64::MAX,
    ensures
        !deposit_ok(m, name, amount),
{
}

/// Law: withdrawing exactly the current balance succeeds and leaves the
/// balance at zero.
pub proof fn lemma_withdraw_exact_balance(m: Map<Seq<char>, u64>, name: Seq<char>)
    requires
        m.contains_key(name),
    ensures
        withdraw_ok(m, name, m[name]),
        withdraw_map(m, name, m[name])[name] == 0,
{
}

/// Law: a transfer between two distinct existing accounts, with the sender
/// sufficiently funded and no overflow at the recipient, moves exactly the
/// requested amount and touches no other account.
pub proof fn lemma_send_moves_amount(
    m: Map<Seq<char>, u64>,
    sender: Seq<char>,
    recipient: Seq<char>,
    amount: u64,
)
    requires
        m.contains_key(sender),
        m.contains_key(recipient),
        sender != recipient,
        m[sender] >= amount,
        m[recipient] + amount <= u64::MAX,
    ensures
        ({
            let f = deposit_map(withdraw_map(m, sender, amount), recipient, amount);
            &&& deposit_ok(withdraw_map(m, sender, amount), recipient, amount)
            &&& f.dom() == m.dom()
            &&& f[sender] == m[sender] - amount
            &&& f[recipient] == m[recipient] + amount
            &&& forall|other: Seq<char>|
                m.contains_key(other) && other != sender && other != recipient ==> (
                #[trigger] f[other]) == m[other]
        }),
{
    let f = deposit_map(withdraw_map(m, sender, amount), recipient, amount);
    assert(f.dom() =~= m.dom());
}

/// Law: when the withdrawal leg of a transfer succeeds but crediting the
/// recipient would overflow, the intermediate table — which the contract of
/// [`Accounts::send`] says is the final one — already has the sender
/// debited while the recipient is unchanged: the failure is partial, with
/// no rollback.
pub proof fn lemma_send_partial_failure(
    m: Map<Seq<char>, u64>,
    sender: Seq<char>,
    recipient: Seq<char>,
    amount: u64,
)
    requires
        m.contains_key(sender),
        m.contains_key(recipient),
        sender != recipient,
        m[sender] >= amount,
        m[recipient] + amount > u64::MAX,
    ensures
        ({
            let mid = withdraw_map(m, sender, amount);
            &&& withdraw_ok(m, sender, amount)
            &&& !deposit_ok(mid, recipient, amount)
            &&& mid[sender] == m[sender] - amount
            &&& mid[recipient] == m[recipient]
        }),
{
}

} // verus!
