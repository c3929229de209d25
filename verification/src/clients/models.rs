//! Client accounts: the transition that a transaction makes, the replay of a
//! list of transactions, and the report of the accounts it leaves.

use crate::amount::{amount_of_text, amount_text, lemma_amount_text_round_trip, Amount};
use crate::clients::ledger::{
    ledger_after, ledger_fits, lemma_position_of, opened_for, position_of, replay, replay_fits,
    run_fits, step, Account,
};
use crate::table::{csv_bytes, even_rows, write_table};
use vstd::utf8::{decode_utf8, valid_utf8};
use crate::text::{decimal_text, lemma_u32_text_round_trip, push_decimal, u32_of_text};
use crate::transactions::models::{classify, kind_of, records_of, Kind, Transaction};
use crate::transactions::order::{lemma_sorted_ascending, sort_by_tx, sorted_by_tx};
use vstd::pervasive::unreached;
use vstd::prelude::*;
use vstd::string::*;

verus! {

/// The account of one client.
#[derive(Clone, Copy, Debug, PartialEq, Eq, Structural)]
pub struct Client {
    pub client: u32,
    pub available: Amount,
    pub held: Amount,
    pub total: Amount,
    pub locked: bool,
}

impl View for Client {
    type V = Account;

    open spec fn view(&self) -> Account {
        Account {
            client: self.client,
            available: self.available@,
            held: self.held@,
            total: self.total@,
            locked: self.locked,
        }
    }
}

/// The state of each of the accounts.
pub open spec fn accounts_of(clients: Seq<Client>) -> Seq<Account> {
    clients.map_values(|c: Client| c@)
}

/// The names of the report's columns.
pub open spec fn report_header() -> Seq<Seq<char>> {
    seq!["client"@, "available"@, "held"@, "total"@, "locked"@]
}

/// How the lock is written in the report.
pub open spec fn lock_text(locked: bool) -> Seq<char> {
    if locked {
        "true"@
    } else {
        "false"@
    }
}

/// The report's row for an account: client, available, held, total, locked.
pub open spec fn report_row(account: Account) -> Seq<Seq<char>> {
    seq![
        decimal_text(account.client as nat),
        amount_text(account.available),
        amount_text(account.held),
        amount_text(account.total),
        lock_text(account.locked),
    ]
}

/// The report of the accounts: the header and one row for each account, in
/// their order; no rows at all where there is no account.
pub open spec fn report_of(accounts: Seq<Account>) -> Seq<Seq<Seq<char>>> {
    if accounts.len() == 0 {
        Seq::<Seq<Seq<char>>>::empty()
    } else {
        seq![report_header()] + accounts.map_values(|a: Account| report_row(a))
    }
}

/// Every row of a report has as many fields as its header.
pub proof fn lemma_report_even(accounts: Seq<Account>)
    ensures
        even_rows(report_of(accounts)),
{
    let report = report_of(accounts);
    assert forall|i: int| 0 <= i < report.len() implies (#[trigger] report[i]).len()
        == report[0].len() by {
        assert(report[0] == report_header());
        if i > 0 {
            assert(report[i] == report_row(accounts[i - 1]));
        }
    }
}

/// What a field of the lock column says.
pub open spec fn lock_of_text(s: Seq<char>) -> Option<bool> {
    if s == "true"@ {
        Some(true)
    } else if s == "false"@ {
        Some(false)
    } else {
        None
    }
}

/// Each field of an account's row in the report reads back as the value
/// that it was written from.
pub proof fn lemma_report_row_reads_back(account: Account)
    requires
        account.fits(),
    ensures
        report_row(account).len() == report_header().len(),
        u32_of_text(report_row(account)[0]) == Some(account.client),
        amount_of_text(report_row(account)[1]) == Some(account.available),
        amount_of_text(report_row(account)[2]) == Some(account.held),
        amount_of_text(report_row(account)[3]) == Some(account.total),
        lock_of_text(report_row(account)[4]) == Some(account.locked),
{
    lemma_u32_text_round_trip(account.client);
    lemma_amount_text_round_trip(account.available);
    lemma_amount_text_round_trip(account.held);
    lemma_amount_text_round_trip(account.total);
    reveal_strlit("true");
    reveal_strlit("false");
    assert("true"@.len() != "false"@.len());
}

impl Client {
    /// The account of a client of whom nothing is known yet.
    pub fn new(client: u32) -> (r: Self)
        ensures
            r@ == Account::fresh(client),
    {
        Self {
            client,
            available: Amount::zero(),
            held: Amount::zero(),
            total: Amount::zero(),
            locked: false,
        }
    }

    /// The account after a transaction of the given kind and amount, where
    /// its balances fit.
    pub fn apply(self, kind: Kind, amount: Amount) -> (r: Option<Self>)
        ensures
            match r {
                Some(next) => next@ == self@.apply(kind, amount@),
                None => !self@.apply(kind, amount@).fits(),
            },
    {
        let available: Option<Amount> = match kind {
            Kind::Deposit => self.available.checked_add(amount),
            Kind::Withdrawal => if self.available.units > amount.units {
                self.available.checked_sub(amount)
            } else {
                Some(self.available)
            },
            Kind::Dispute => self.available.checked_sub(amount),
            Kind::Resolve => self.available.checked_add(self.held),
            Kind::Chargeback => Some(self.available),
            Kind::Other => Some(self.available),
        };
        let held: Option<Amount> = match kind {
            Kind::Dispute => self.held.checked_add(amount),
            Kind::Resolve => self.held.checked_sub(amount),
            Kind::Chargeback => self.held.checked_sub(amount),
            _ => Some(self.held),
        };
        let locked: bool = match kind {
            Kind::Chargeback => true,
            _ => self.locked,
        };
        match (available, held) {
            (Some(available), Some(held)) => match available.checked_add(held) {
                Some(total) => Some(Self { client: self.client, available, held, total, locked }),
                None => None,
            },
            _ => None,
        }
    }

    /// The account after a transaction of the given type and amount. A type
    /// that is none of the five changes no balance.
    pub fn new_transaction(self, tx_type: String, amount: Amount) -> (r: Self)
        requires
            self@.apply(kind_of(tx_type@), amount@).fits(),
        ensures
            r@ == self@.apply(kind_of(tx_type@), amount@),
            r@.balanced(),
    {
        match self.apply(classify(tx_type.as_str()), amount) {
            Some(next) => next,
            None => unreached(),
        }
    }

    /// Where the account of `client` stands among `clients`.
    pub fn position(clients: &Vec<Client>, client: u32) -> (r: Option<usize>)
        ensures
            match r {
                Some(i) => i < clients@.len() && position_of(accounts_of(clients@), client)
                    == Some(i as int),
                None => position_of(accounts_of(clients@), client) is None,
            },
    {
        let n: usize = clients.len();
        let mut i: usize = 0;
        while i < n
            invariant
                n == clients@.len(),
                i <= n,
                forall|j: int| 0 <= j < i ==> accounts_of(clients@)[j].client != client,
            decreases n - i,
        {
            if clients[i].client == client {
                proof {
                    assert(accounts_of(clients@)[i as int].client == client);
                    lemma_position_of(accounts_of(clients@), client);
                }
                return Some(i);
            }
            i += 1;
        }
        proof {
            lemma_position_of(accounts_of(clients@), client);
        }
        None
    }

    /// Takes the accounts through one more transaction, `all` being every
    /// transaction of the replay. Answers `false` where a balance would not
    /// fit: the client's account is then there, opened if need be, and no
    /// account is changed.
    pub fn advance(all: &Vec<Transaction>, clients: &mut Vec<Client>, t: &Transaction) -> (done: bool)
        ensures
            done ==> accounts_of(final(clients)@) == step(
                records_of(all@),
                accounts_of(old(clients)@),
                t@,
            ),
            !done ==> !ledger_fits(step(records_of(all@), accounts_of(old(clients)@), t@)),
            !done ==> accounts_of(final(clients)@) == opened_for(
                accounts_of(old(clients)@),
                t.client,
            ),
    {
        let ghost before = accounts_of(clients@);
        let ghost records = records_of(all@);
        let at: usize = match Client::position(clients, t.client) {
            Some(at) => at,
            None => {
                clients.push(Client::new(t.client));
                clients.len() - 1
            },
        };
        let ghost opened = accounts_of(clients@);
        assert(opened =~= opened_for(before, t.client));
        assert(at as int == match position_of(before, t.client) {
            Some(i) => i,
            None => before.len() as int,
        });
        assert(opened[at as int] == clients@[at as int]@);
        if clients[at].locked {
            assert(step(records, before, t@) == opened);
            return true;
        }
        let kind = classify(t.tx_type.as_str());
        let amount: Amount = if t.is_dispute() {
            match Transaction::get_prev_trans(all, t.tx) {
                Some(d) => {
                    assert(records[d as int] == all@[d as int]@);
                    all[d].amount
                },
                None => {
                    assert(step(records, before, t@) == opened);
                    return true;
                },
            }
        } else {
            t.amount
        };
        assert(step(records, before, t@) == opened.update(
            at as int,
            opened[at as int].apply(kind, amount@),
        ));
        match clients[at].apply(kind, amount) {
            Some(next) => {
                clients[at] = next;
                assert(accounts_of(clients@) =~= opened.update(at as int, next@));
                true
            },
            None => {
                assert(!step(records, before, t@)[at as int].fits());
                false
            },
        }
    }

    /// The accounts that a replay of the transactions leaves, in the order
    /// in which their clients first appear in replay order; `None` where a
    /// balance on the way would not fit.
    pub fn try_process_transactions(txs: &Vec<Transaction>) -> (r: Option<Vec<Client>>)
        ensures
            match r {
                Some(clients) => replay_fits(records_of(txs@)) && accounts_of(clients@) == replay(
                    records_of(txs@),
                ),
                None => !replay_fits(records_of(txs@)),
            },
    {
        let all = sort_by_tx(txs);
        let n: usize = all.len();
        let mut clients: Vec<Client> = Vec::new();
        let mut i: usize = 0;
        proof {
            lemma_sorted_ascending(records_of(txs@));
            assert(accounts_of(clients@) =~= ledger_after(records_of(all@), 0));
        }
        while i < n
            invariant
                n == all@.len(),
                n == txs@.len(),
                i <= n,
                records_of(all@) == sorted_by_tx(records_of(txs@)),
                accounts_of(clients@) == ledger_after(records_of(all@), i as nat),
                run_fits(records_of(all@), i as nat),
            decreases n - i,
        {
            let ghost before = accounts_of(clients@);
            let done = Client::advance(&all, &mut clients, &all[i]);
            assert(records_of(all@)[i as int] == all@[i as int]@);
            assert(ledger_after(records_of(all@), (i + 1) as nat) == step(
                records_of(all@),
                before,
                all@[i as int]@,
            ));
            if !done {
                return None;
            }
            proof {
                let after = accounts_of(clients@);
                assert(ledger_fits(after)) by {
                    assert forall|j: int| 0 <= j < after.len() implies (#[trigger] after[j]).fits() by {
                        assert(after[j] == clients@[j]@);
                    }
                }
                assert(run_fits(records_of(all@), (i + 1) as nat)) by {
                    assert(ledger_fits(ledger_after(records_of(all@), (i + 1) as nat)));
                }
            }
            i += 1;
        }
        Some(clients)
    }

    /// The accounts that a replay of the transactions leaves, in the order
    /// in which their clients first appear in replay order.
    pub fn process_transactions(txs: &Vec<Transaction>) -> (r: Vec<Client>)
        requires
            replay_fits(records_of(txs@)),
        ensures
            accounts_of(r@) == replay(records_of(txs@)),
    {
        match Client::try_process_transactions(txs) {
            Some(clients) => clients,
            None => unreached(),
        }
    }

    /// The report's row for the account.
    pub fn report_fields(&self) -> (r: Vec<String>)
        ensures
            r.deep_view() == report_row(self@),
    {
        let mut client = String::new();
        push_decimal(&mut client, self.client as u64);
        let locked = if self.locked {
            "true".to_owned()
        } else {
            "false".to_owned()
        };
        let mut r: Vec<String> = Vec::new();
        r.push(client);
        r.push(self.available.to_text());
        r.push(self.held.to_text());
        r.push(self.total.to_text());
        r.push(locked);
        assert(r.deep_view() =~= report_row(self@));
        r
    }

    /// The report of the accounts, as rows of fields.
    pub fn report_rows(clients: &Vec<Client>) -> (r: Vec<Vec<String>>)
        ensures
            r.deep_view() == report_of(accounts_of(clients@)),
    {
        let mut rows: Vec<Vec<String>> = Vec::new();
        let n: usize = clients.len();
        if n == 0 {
            assert(rows.deep_view() =~= report_of(accounts_of(clients@)));
            return rows;
        }
        let mut header: Vec<String> = Vec::new();
        header.push("client".to_owned());
        header.push("available".to_owned());
        header.push("held".to_owned());
        header.push("total".to_owned());
        header.push("locked".to_owned());
        assert(header.deep_view() =~= report_header());
        rows.push(header);
        let mut i: usize = 0;
        assert(rows.deep_view() =~= seq![report_header()]);
        while i < n
            invariant
                n == clients@.len(),
                i <= n,
                rows.deep_view() == seq![report_header()] + accounts_of(clients@).take(
                    i as int,
                ).map_values(|a: Account| report_row(a)),
            decreases n - i,
        {
            let fields = clients[i].report_fields();
            proof {
                let accounts = accounts_of(clients@);
                assert(rows.deep_view().push(fields.deep_view()) =~= seq![report_header()]
                    + accounts.take(i + 1).map_values(|a: Account| report_row(a)));
            }
            rows.push(fields);
            i += 1;
        }
        assert(accounts_of(clients@).take(n as int) =~= accounts_of(clients@));
        rows
    }

    /// The report of the accounts as a table in text form: the characters
    /// that the bytes written for the report's rows encode; `None` where
    /// those bytes are no text.
    pub fn clients_to_csv(clients: Vec<Client>) -> (r: Option<String>)
        ensures
            match r {
                Some(text) => valid_utf8(csv_bytes(report_of(accounts_of(clients@)))) && text@
                    == decode_utf8(csv_bytes(report_of(accounts_of(clients@)))),
                None => !valid_utf8(csv_bytes(report_of(accounts_of(clients@)))),
            },
    {
        let rows = Client::report_rows(&clients);
        proof {
            lemma_report_even(accounts_of(clients@));
        }
        write_table(&rows)
    }
}

} // verus!
