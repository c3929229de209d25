//! The ledger as mathematics: what an account is, what each kind of
//! transaction does to it, and what a replay of records leaves behind.

use crate::amount::fits;
use crate::transactions::models::{first_deposit, Kind, Record};
use crate::transactions::order::{
    distinct_ids, insert_by_tx, lemma_sorted_ascending, lemma_sorted_fixed,
    lemma_sorted_ignores_order, lemma_sorted_of_permutation, sorted_by_tx, with_tx,
};
use vstd::prelude::*;

verus! {

/// The state of one client's account, balances in ten-thousandths.
pub struct Account {
    pub client: u32,
    pub available: int,
    pub held: int,
    pub total: int,
    pub locked: bool,
}

impl Account {
    /// The account of a client of whom nothing is known yet.
    pub open spec fn fresh(client: u32) -> Account {
        Account { client, available: 0, held: 0, total: 0, locked: false }
    }

    /// Whether the total is the sum of what is available and what is held.
    pub open spec fn balanced(self) -> bool {
        self.total == self.available + self.held
    }

    /// Whether each balance can be held in an `Amount`.
    pub open spec fn fits(self) -> bool {
        fits(self.available) && fits(self.held) && fits(self.total)
    }

    /// The account after a transaction of the given kind and amount. A
    /// withdrawal that would not leave more than nothing available changes
    /// nothing; a resolve releases all that is held but takes only `amount`
    /// off it. The total is made up anew each time. The lock is not looked
    /// at here.
    pub open spec fn apply(self, kind: Kind, amount: int) -> Account {
        let available = match kind {
            Kind::Deposit => self.available + amount,
            Kind::Withdrawal => if self.available - amount > 0 {
                self.available - amount
            } else {
                self.available
            },
            Kind::Dispute => self.available - amount,
            Kind::Resolve => self.available + self.held,
            Kind::Chargeback => self.available,
            Kind::Other => self.available,
        };
        let held = match kind {
            Kind::Dispute => self.held + amount,
            Kind::Resolve => self.held - amount,
            Kind::Chargeback => self.held - amount,
            _ => self.held,
        };
        Account {
            client: self.client,
            available,
            held,
            total: available + held,
            locked: self.locked || kind is Chargeback,
        }
    }
}

/// Where the account of `client` stands in the ledger, if it has one.
pub open spec fn position_of(ledger: Seq<Account>, client: u32) -> Option<int>
    decreases ledger.len(),
{
    if ledger.len() == 0 {
        None
    } else {
        match position_of(ledger.drop_last(), client) {
            Some(i) => Some(i),
            None => if ledger.last().client == client {
                Some(ledger.len() - 1)
            } else {
                None
            },
        }
    }
}

/// The ledger with an account for `client`: a fresh one at the end if it had
/// none.
pub open spec fn opened_for(ledger: Seq<Account>, client: u32) -> Seq<Account> {
    if position_of(ledger, client) is Some {
        ledger
    } else {
        ledger.push(Account::fresh(client))
    }
}

/// The ledger after one more record, `all` being every record of the
/// replay. The client's account is opened if there is none. A locked account
/// stays as it is. A record that refers back takes the amount of the first
/// deposit with its id among `all`, and changes nothing if there is none;
/// any other record brings its own amount.
pub open spec fn step(all: Seq<Record>, ledger: Seq<Account>, r: Record) -> Seq<Account> {
    let opened = opened_for(ledger, r.client);
    let i = match position_of(ledger, r.client) {
        Some(i) => i,
        None => ledger.len() as int,
    };
    if opened[i].locked {
        opened
    } else if r.kind().refers_back() {
        match first_deposit(all, r.tx) {
            Some(d) => opened.update(i, opened[i].apply(r.kind(), all[d].amount)),
            None => opened,
        }
    } else {
        opened.update(i, opened[i].apply(r.kind(), r.amount))
    }
}

/// The ledger after the first `n` records of `all`.
pub open spec fn ledger_after(all: Seq<Record>, n: nat) -> Seq<Account>
    decreases n,
{
    if n == 0 || n > all.len() {
        Seq::<Account>::empty()
    } else {
        step(all, ledger_after(all, (n - 1) as nat), all[n - 1])
    }
}

/// The accounts that a replay of `txs` leaves, in the order in which their
/// clients first appear in replay order.
pub open spec fn replay(txs: Seq<Record>) -> Seq<Account> {
    ledger_after(sorted_by_tx(txs), txs.len())
}

/// Whether every account of the ledger fits.
pub open spec fn ledger_fits(ledger: Seq<Account>) -> bool {
    forall|i: int| 0 <= i < ledger.len() ==> (#[trigger] ledger[i]).fits()
}

/// Whether the ledger fits after each of the first `n` records of `all`.
pub open spec fn run_fits(all: Seq<Record>, n: nat) -> bool {
    forall|k: nat| k <= n ==> ledger_fits(#[trigger] ledger_after(all, k))
}

/// Whether every balance that a replay of `txs` passes through fits.
pub open spec fn replay_fits(txs: Seq<Record>) -> bool {
    run_fits(sorted_by_tx(txs), txs.len())
}

/// The sum of the amounts of `s`.
pub open spec fn amount_sum(s: Seq<Record>) -> int
    decreases s.len(),
{
    if s.len() == 0 {
        0
    } else {
        amount_sum(s.drop_last()) + s.last().amount
    }
}

/// The clients of the records, each once, in the order in which they first
/// appear.
pub open spec fn clients_in_order(s: Seq<Record>) -> Seq<u32>
    decreases s.len(),
{
    if s.len() == 0 {
        Seq::<u32>::empty()
    } else {
        let before = clients_in_order(s.drop_last());
        if before.contains(s.last().client) {
            before
        } else {
            before.push(s.last().client)
        }
    }
}

/// The clients of the accounts, in the order of the accounts.
pub open spec fn clients_of(ledger: Seq<Account>) -> Seq<u32> {
    ledger.map_values(|a: Account| a.client)
}

/// Whether no two accounts of the ledger are for the same client.
pub open spec fn distinct_clients(ledger: Seq<Account>) -> bool {
    forall|i: int, j: int|
        0 <= i < j < ledger.len() ==> (#[trigger] ledger[i]).client != (#[trigger] ledger[j]).client
}

/// The account of a client stands where its client is found, no account
/// before it is for that client, and there is none only if no account is.
pub proof fn lemma_position_of(ledger: Seq<Account>, client: u32)
    ensures
        match position_of(ledger, client) {
            Some(i) => 0 <= i < ledger.len() && ledger[i].client == client && forall|j: int|
                0 <= j < i ==> ledger[j].client != client,
            None => forall|j: int| 0 <= j < ledger.len() ==> ledger[j].client != client,
        },
    decreases ledger.len(),
{
    if ledger.len() > 0 {
        let front = ledger.drop_last();
        lemma_position_of(front, client);
        match position_of(front, client) {
            Some(i) => {
                assert(front[i] == ledger[i]);
                assert forall|j: int| 0 <= j < i implies ledger[j].client != client by {
                    assert(front[j] == ledger[j]);
                }
            },
            None => {
                assert forall|j: int| 0 <= j < ledger.len() - 1 implies ledger[j].client
                    != client by {
                    assert(front[j] == ledger[j]);
                }
            },
        }
    }
}

/// A withdrawal of all that is available changes neither balance: what is
/// available must stay above nothing.
pub proof fn lemma_draining_withdrawal_rejected(account: Account, amount: int)
    requires
        account.available - amount == 0,
    ensures
        account.apply(Kind::Withdrawal, amount).available == account.available,
        account.apply(Kind::Withdrawal, amount).held == account.held,
        account.apply(Kind::Withdrawal, amount).locked == account.locked,
        account.balanced() ==> account.apply(Kind::Withdrawal, amount) == account,
{
}

/// A dispute and then a chargeback of the same amount lock the account,
/// the chargeback taking off what is held exactly what the dispute put on,
/// so that the amount has left the account.
pub proof fn lemma_dispute_then_chargeback(account: Account, amount: int)
    ensures
        ({
            let disputed = account.apply(Kind::Dispute, amount);
            let charged = disputed.apply(Kind::Chargeback, amount);
            &&& charged.locked
            &&& charged.held == disputed.held - amount
            &&& charged.held == account.held
            &&& charged.available == account.available - amount
            &&& charged.total == account.available + account.held - amount
        }),
{
}

/// A record for a client whose account is locked changes nothing.
pub proof fn lemma_locked_account_ignores(all: Seq<Record>, ledger: Seq<Account>, r: Record)
    requires
        position_of(ledger, r.client) matches Some(i) && ledger[i].locked,
    ensures
        step(all, ledger, r) == ledger,
{
}

/// With nothing held before, a dispute and then a resolve of the same
/// amount give back what was available and take off what is held exactly
/// what the dispute put on, and the total is what it was.
pub proof fn lemma_dispute_then_resolve(account: Account, amount: int)
    requires
        account.held == 0,
    ensures
        ({
            let disputed = account.apply(Kind::Dispute, amount);
            let resolved = disputed.apply(Kind::Resolve, amount);
            &&& resolved.available == account.available
            &&& resolved.available == disputed.available + amount
            &&& resolved.held == disputed.held - amount
            &&& resolved.held == 0
            &&& resolved.total == account.available + account.held
            &&& account.balanced() ==> resolved.total == account.total
        }),
{
}

/// Whatever was held before, a dispute and then a resolve of the same
/// amount release all of it, the disputed amount included, and leave held
/// what was held before.
pub proof fn lemma_resolve_releases_all_held(account: Account, amount: int)
    ensures
        ({
            let resolved = account.apply(Kind::Dispute, amount).apply(Kind::Resolve, amount);
            &&& resolved.available == account.available + account.held
            &&& resolved.held == account.held
        }),
{
}

/// After any transaction the total is the sum of what is available and what
/// is held.
pub proof fn lemma_apply_balanced(account: Account, kind: Kind, amount: int)
    ensures
        account.apply(kind, amount).balanced(),
        account.apply(kind, amount).client == account.client,
        account.locked ==> account.apply(kind, amount).locked,
{
}

/// A step keeps the accounts that were there in their places and for their
/// clients, and adds at most one: that of the record's client, at the end.
pub proof fn lemma_step_shape(all: Seq<Record>, ledger: Seq<Account>, r: Record)
    ensures
        ({
            let next = step(all, ledger, r);
            &&& next.len() == if position_of(ledger, r.client) is Some {
                ledger.len()
            } else {
                ledger.len() + 1
            }
            &&& forall|i: int| 0 <= i < ledger.len() ==> (#[trigger] next[i]).client == ledger[i].client
            &&& position_of(ledger, r.client) is None ==> next[ledger.len() as int].client
                == r.client
            &&& forall|i: int|
                0 <= i < ledger.len() && ledger[i].client != r.client ==> #[trigger] next[i]
                    == ledger[i]
        }),
{
    lemma_position_of(ledger, r.client);
}

/// A step keeps every account balanced, and the clients distinct.
pub proof fn lemma_step_keeps(all: Seq<Record>, ledger: Seq<Account>, r: Record)
    requires
        distinct_clients(ledger),
        forall|i: int| 0 <= i < ledger.len() ==> (#[trigger] ledger[i]).balanced(),
    ensures
        distinct_clients(step(all, ledger, r)),
        forall|i: int|
            0 <= i < step(all, ledger, r).len() ==> (#[trigger] step(all, ledger, r)[i]).balanced(),
{
    lemma_position_of(ledger, r.client);
    lemma_step_shape(all, ledger, r);
    let next = step(all, ledger, r);
    assert forall|i: int, j: int| 0 <= i < j < next.len() implies (#[trigger] next[i]).client != (
    #[trigger] next[j]).client by {
        if j < ledger.len() {
            assert(ledger[i].client != ledger[j].client);
        }
    }
}

/// In the ledger that a replay leaves, no two accounts are for the same
/// client, and in each the total is the sum of what is available and what
/// is held.
pub proof fn lemma_ledger_after_sound(all: Seq<Record>, n: nat)
    ensures
        distinct_clients(ledger_after(all, n)),
        forall|i: int|
            0 <= i < ledger_after(all, n).len() ==> (#[trigger] ledger_after(all, n)[i]).balanced(),
    decreases n,
{
    if n == 0 || n > all.len() {
    } else {
        lemma_ledger_after_sound(all, (n - 1) as nat);
        lemma_step_keeps(all, ledger_after(all, (n - 1) as nat), all[n - 1]);
    }
}

/// In the accounts that a replay leaves, no two are for the same client,
/// and in each the total is the sum of what is available and what is held.
pub proof fn lemma_replay_sound(txs: Seq<Record>)
    ensures
        distinct_clients(replay(txs)),
        forall|i: int| 0 <= i < replay(txs).len() ==> (#[trigger] replay(txs)[i]).balanced(),
{
    lemma_ledger_after_sound(sorted_by_tx(txs), txs.len());
}

/// Once an account is locked, no later record of the replay changes it.
pub proof fn lemma_locked_account_stays(all: Seq<Record>, n: nat, m: nat, i: int)
    requires
        n <= m <= all.len(),
        0 <= i < ledger_after(all, n).len(),
        ledger_after(all, n)[i].locked,
    ensures
        i < ledger_after(all, m).len(),
        ledger_after(all, m)[i] == ledger_after(all, n)[i],
    decreases m - n,
{
    if n < m {
        lemma_locked_account_stays(all, n, (m - 1) as nat, i);
        let before = ledger_after(all, (m - 1) as nat);
        let r = all[m - 1];
        lemma_ledger_after_sound(all, (m - 1) as nat);
        lemma_position_of(before, r.client);
        lemma_step_shape(all, before, r);
        if before[i].client == r.client {
            assert(position_of(before, r.client) == Some(i));
        }
    }
}

/// The ledger has one account for each client among the records replayed
/// so far, in the order in which the clients first appear.
pub proof fn lemma_ledger_clients(all: Seq<Record>, n: nat)
    requires
        n <= all.len(),
    ensures
        clients_of(ledger_after(all, n)) == clients_in_order(all.take(n as int)),
    decreases n,
{
    if n == 0 {
        assert(clients_of(ledger_after(all, n)) =~= Seq::<u32>::empty());
    } else {
        lemma_ledger_clients(all, (n - 1) as nat);
        let before = ledger_after(all, (n - 1) as nat);
        let r = all[n - 1];
        assert(all.take(n as int).drop_last() =~= all.take(n - 1));
        assert(all.take(n as int).last() == r);
        lemma_position_of(before, r.client);
        lemma_step_shape(all, before, r);
        let seen = clients_of(before);
        if position_of(before, r.client) is Some {
            let i = position_of(before, r.client)->0;
            assert(seen[i] == r.client);
            assert(seen.contains(r.client));
            assert(clients_of(step(all, before, r)) =~= seen);
        } else {
            if seen.contains(r.client) {
                let j = choose|j: int| 0 <= j < seen.len() && seen[j] == r.client;
                assert(before[j].client == r.client);
            }
            assert(clients_of(step(all, before, r)) =~= seen.push(r.client));
        }
    }
}

/// A replay leaves one account for each client among the records, in the
/// order in which the clients first appear in replay order.
pub proof fn lemma_replay_clients(txs: Seq<Record>)
    ensures
        clients_of(replay(txs)) == clients_in_order(sorted_by_tx(txs)),
{
    let all = sorted_by_tx(txs);
    lemma_sorted_ascending(txs);
    lemma_ledger_clients(all, txs.len());
    assert(all.take(txs.len() as int) =~= all);
}

/// A replay of no records leaves no accounts.
pub proof fn lemma_replay_of_nothing()
    ensures
        replay(Seq::<Record>::empty()) == Seq::<Account>::empty(),
{
}

/// Putting a record in by id adds its amount to the sum.
pub proof fn lemma_insert_amount_sum(s: Seq<Record>, r: Record)
    ensures
        amount_sum(insert_by_tx(s, r)) == amount_sum(s) + r.amount,
    decreases s.len(),
{
    if s.len() > 0 && s.last().tx > r.tx {
        lemma_insert_amount_sum(s.drop_last(), r);
        assert(insert_by_tx(s.drop_last(), r).push(s.last()).drop_last() =~= insert_by_tx(
            s.drop_last(),
            r,
        ));
    } else {
        assert(s.push(r).drop_last() =~= s);
    }
}

/// Replay order leaves the sum of the amounts as it was.
pub proof fn lemma_sorted_amount_sum(s: Seq<Record>)
    ensures
        amount_sum(sorted_by_tx(s)) == amount_sum(s),
    decreases s.len(),
{
    if s.len() > 0 {
        lemma_sorted_amount_sum(s.drop_last());
        lemma_insert_amount_sum(sorted_by_tx(s.drop_last()), s.last());
    }
}

/// After the first `n` of records that are all deposits for one client, the
/// ledger is that client's account alone, with the sum of those deposits
/// available and nothing held.
pub proof fn lemma_deposits_ledger(all: Seq<Record>, client: u32, n: nat)
    requires
        0 < n <= all.len(),
        forall|i: int| 0 <= i < all.len() ==> all[i].client == client && all[i].kind() is Deposit,
    ensures
        ledger_after(all, n) == seq![
            Account {
                client,
                available: amount_sum(all.take(n as int)),
                held: 0,
                total: amount_sum(all.take(n as int)),
                locked: false,
            },
        ],
    decreases n,
{
    let r = all[n - 1];
    assert(all.take(n as int).drop_last() =~= all.take(n - 1));
    assert(all.take(n as int).last() == r);
    if n == 1 {
        let before = ledger_after(all, 0);
        assert(before =~= Seq::<Account>::empty());
        assert(all.take(0) =~= Seq::<Record>::empty());
        assert(amount_sum(all.take(0)) == 0);
        assert(step(all, before, r) =~= seq![
            Account { client, available: r.amount, held: 0, total: r.amount, locked: false },
        ]);
    } else {
        lemma_deposits_ledger(all, client, (n - 1) as nat);
        let before = ledger_after(all, (n - 1) as nat);
        lemma_position_of(before, client);
        assert(before[0].client == client);
        assert(position_of(before, client) == Some(0int));
        assert(step(all, before, r) =~= seq![
            Account {
                client,
                available: amount_sum(all.take(n as int)),
                held: 0,
                total: amount_sum(all.take(n as int)),
                locked: false,
            },
        ]);
    }
}

/// A replay of deposits for one client, one or more, leaves that client's
/// account alone: the sum of the deposits is available, the total is that
/// sum too, nothing is held and the account is not locked.
pub proof fn lemma_deposits_add_up(txs: Seq<Record>, client: u32)
    requires
        txs.len() > 0,
        forall|i: int| 0 <= i < txs.len() ==> txs[i].client == client && txs[i].kind() is Deposit,
    ensures
        replay(txs) == seq![
            Account {
                client,
                available: amount_sum(txs),
                held: 0,
                total: amount_sum(txs),
                locked: false,
            },
        ],
{
    let all = sorted_by_tx(txs);
    lemma_sorted_ascending(txs);
    lemma_sorted_amount_sum(txs);
    assert forall|i: int| 0 <= i < all.len() implies all[i].client == client && all[i].kind()
        is Deposit by {
        let j = choose|j: int| 0 <= j < txs.len() && txs[j] == all[i];
        assert(txs[j].client == client);
    }
    lemma_deposits_ledger(all, client, txs.len());
    assert(all.take(txs.len() as int) =~= all);
}

/// The order in which records are given matters to a replay only among
/// records that share an id: two inputs that agree, id by id, on the records
/// with that id leave the same accounts.
pub proof fn lemma_replay_ignores_order(a: Seq<Record>, b: Seq<Record>)
    requires
        forall|tx: u32| with_tx(a, tx) == with_tx(b, tx),
    ensures
        replay(a) == replay(b),
{
    lemma_sorted_ignores_order(a, b);
    lemma_sorted_ascending(a);
    lemma_sorted_ascending(b);
}

/// Records that were put in replay order before leave the same accounts.
pub proof fn lemma_replay_of_sorted(txs: Seq<Record>)
    ensures
        replay(sorted_by_tx(txs)) == replay(txs),
{
    lemma_sorted_ascending(txs);
    lemma_sorted_fixed(sorted_by_tx(txs));
}

/// Where no two records share an id, a replay does not depend on the order
/// in which the records are given: the same records in any order leave the
/// same accounts.
pub proof fn lemma_replay_of_permutation(a: Seq<Record>, b: Seq<Record>)
    requires
        a.to_multiset() == b.to_multiset(),
        distinct_ids(a),
    ensures
        replay(a) == replay(b),
{
    lemma_sorted_of_permutation(a, b);
    a.to_multiset_ensures();
    b.to_multiset_ensures();
}

} // verus!
