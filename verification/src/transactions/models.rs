//! Transaction records: what one input event holds, and how a row of text
//! fields is read as one.

use crate::amount::{amount_of_text, Amount};
use crate::table::{csv_rows, read_table};
use crate::text::{chars_of, parse_u32, same_text, trim_bounds, trimmed, u32_of_text};
use crate::transactions::order::{sort_by_tx, sorted_by_tx};
use vstd::prelude::*;
use vstd::slice::slice_subrange;
use vstd::string::*;

verus! {

/// What a transaction does to an account.
#[derive(Clone, Copy, Debug, PartialEq, Eq, Structural)]
pub enum Kind {
    Deposit,
    Withdrawal,
    Dispute,
    Resolve,
    Chargeback,
    /// Any type name that is none of the five: it changes nothing.
    Other,
}

impl Kind {
    /// Whether the kind refers back to an earlier deposit: a dispute, a
    /// resolve or a chargeback.
    pub open spec fn refers_back(self) -> bool {
        self is Dispute || self is Resolve || self is Chargeback
    }
}

/// The kind that a type name stands for.
pub open spec fn kind_of(name: Seq<char>) -> Kind {
    if name == "deposit"@ {
        Kind::Deposit
    } else if name == "withdrawal"@ {
        Kind::Withdrawal
    } else if name == "dispute"@ {
        Kind::Dispute
    } else if name == "resolve"@ {
        Kind::Resolve
    } else if name == "chargeback"@ {
        Kind::Chargeback
    } else {
        Kind::Other
    }
}

/// The kind that a type name stands for.
pub fn classify(name: &str) -> (kind: Kind)
    ensures
        kind == kind_of(name@),
{
    if same_text(name, "deposit") {
        Kind::Deposit
    } else if same_text(name, "withdrawal") {
        Kind::Withdrawal
    } else if same_text(name, "dispute") {
        Kind::Dispute
    } else if same_text(name, "resolve") {
        Kind::Resolve
    } else if same_text(name, "chargeback") {
        Kind::Chargeback
    } else {
        Kind::Other
    }
}

/// One input event.
#[derive(Debug, PartialEq)]
pub struct Transaction {
    pub tx_type: String,
    pub client: u32,
    pub tx: u32,
    pub amount: Amount,
}

/// What a transaction holds: its type name, the client it is for, its id
/// and its amount in ten-thousandths.
pub struct Record {
    pub name: Seq<char>,
    pub client: u32,
    pub tx: u32,
    pub amount: int,
}

impl Record {
    /// What the record does to an account.
    pub open spec fn kind(self) -> Kind {
        kind_of(self.name)
    }

    /// What the record adds to what is available when nothing stands in its
    /// way: a deposit its amount, a withdrawal its amount taken off, any
    /// other kind nothing.
    pub open spec fn change(self) -> int {
        match self.kind() {
            Kind::Deposit => self.amount,
            Kind::Withdrawal => -self.amount,
            _ => 0,
        }
    }

    /// Whether the record is the deposit with the id `tx`.
    pub open spec fn is_deposit_of(self, tx: u32) -> bool {
        self.tx == tx && self.kind() is Deposit
    }
}

impl View for Transaction {
    type V = Record;

    open spec fn view(&self) -> Record {
        Record { name: self.tx_type@, client: self.client, tx: self.tx, amount: self.amount@ }
    }
}

impl Clone for Transaction {
    fn clone(&self) -> (r: Self)
        ensures
            r == *self,
    {
        Transaction {
            tx_type: self.tx_type.clone(),
            client: self.client,
            tx: self.tx,
            amount: self.amount,
        }
    }
}

/// What each of the transactions holds.
pub open spec fn records_of(txs: Seq<Transaction>) -> Seq<Record> {
    txs.map_values(|t: Transaction| t@)
}

/// Where the first deposit with the id `tx` stands in `s`, if there is one.
pub open spec fn first_deposit(s: Seq<Record>, tx: u32) -> Option<int>
    decreases s.len(),
{
    if s.len() == 0 {
        None
    } else {
        match first_deposit(s.drop_last(), tx) {
            Some(i) => Some(i),
            None => if s.last().is_deposit_of(tx) {
                Some(s.len() - 1)
            } else {
                None
            },
        }
    }
}

/// The first deposit with the id `tx` is a deposit with that id and no
/// record before it is one; there is none only if no record is one.
pub proof fn lemma_first_deposit(s: Seq<Record>, tx: u32)
    ensures
        match first_deposit(s, tx) {
            Some(i) => 0 <= i < s.len() && s[i].is_deposit_of(tx) && forall|j: int|
                0 <= j < i ==> !s[j].is_deposit_of(tx),
            None => forall|j: int| 0 <= j < s.len() ==> !s[j].is_deposit_of(tx),
        },
    decreases s.len(),
{
    if s.len() > 0 {
        let front = s.drop_last();
        lemma_first_deposit(front, tx);
        match first_deposit(front, tx) {
            Some(i) => {
                assert(front[i] == s[i]);
                assert forall|j: int| 0 <= j < i implies !s[j].is_deposit_of(tx) by {
                    assert(front[j] == s[j]);
                }
            },
            None => {
                assert forall|j: int| 0 <= j < s.len() - 1 implies !s[j].is_deposit_of(tx) by {
                    assert(front[j] == s[j]);
                }
            },
        }
    }
}

/// Why a row of fields is no transaction.
#[derive(Clone, Copy, Debug, PartialEq, Eq, Structural)]
pub enum RecordError {
    /// The row has fewer than three fields.
    MissingField,
    /// The second field is not an unsigned 32-bit number.
    BadClient,
    /// The third field is not an unsigned 32-bit number.
    BadTx,
    /// The fourth field is neither empty nor an amount.
    BadAmount,
}

/// Why a text is no list of transactions.
#[derive(Clone, Copy, Debug, PartialEq, Eq, Structural)]
pub enum ReadError {
    /// The text could not be split into rows.
    Table,
    /// The text was split into rows, and this is what is wrong with the first
    /// row that is no transaction.
    Row(RecordError),
}

/// The amount that a row gives: nothing where the row has no fourth field
/// or only white space in it.
pub open spec fn amount_of_row(row: Seq<Seq<char>>) -> Option<int> {
    if row.len() < 4 || trimmed(row[3]).len() == 0 {
        Some(0)
    } else {
        amount_of_text(trimmed(row[3]))
    }
}

/// The transaction that a row of fields stands for: type, client, id and,
/// if it is there, amount, each without the white space around it.
pub open spec fn record_of_row(row: Seq<Seq<char>>) -> Result<Record, RecordError> {
    if row.len() < 3 {
        Err(RecordError::MissingField)
    } else {
        match u32_of_text(trimmed(row[1])) {
            None => Err(RecordError::BadClient),
            Some(client) => match u32_of_text(trimmed(row[2])) {
                None => Err(RecordError::BadTx),
                Some(tx) => match amount_of_row(row) {
                    None => Err(RecordError::BadAmount),
                    Some(amount) => Ok(Record { name: trimmed(row[0]), client, tx, amount }),
                },
            },
        }
    }
}

/// The transactions that rows of fields stand for, in the order of the
/// rows; the error of the first row that stands for none.
pub open spec fn records_of_rows(rows: Seq<Seq<Seq<char>>>) -> Result<Seq<Record>, RecordError>
    decreases rows.len(),
{
    if rows.len() == 0 {
        Ok(Seq::<Record>::empty())
    } else {
        match records_of_rows(rows.drop_last()) {
            Err(e) => Err(e),
            Ok(records) => match record_of_row(rows.last()) {
                Err(e) => Err(e),
                Ok(record) => Ok(records.push(record)),
            },
        }
    }
}

/// An error among the first rows is the error of all the rows.
pub proof fn lemma_records_of_rows_error(rows: Seq<Seq<Seq<char>>>, k: int)
    requires
        0 <= k <= rows.len(),
        records_of_rows(rows.take(k)) is Err,
    ensures
        records_of_rows(rows) == records_of_rows(rows.take(k)),
    decreases rows.len(),
{
    if k == rows.len() {
        assert(rows.take(k) =~= rows);
    } else {
        assert(rows.drop_last().take(k) =~= rows.take(k));
        lemma_records_of_rows_error(rows.drop_last(), k);
    }
}

/// The field without the white space around it.
pub fn trim_field(field: &str) -> (r: String)
    ensures
        r@ == trimmed(field@),
{
    let chars = chars_of(field);
    let (lo, hi) = trim_bounds(chars.as_slice());
    field.substring_char(lo, hi).to_owned()
}

/// Reads a field as an unsigned 32-bit number, white space around it left
/// out.
pub fn number_of_field(field: &str) -> (r: Option<u32>)
    ensures
        r == u32_of_text(trimmed(field@)),
{
    let chars = chars_of(field);
    let (lo, hi) = trim_bounds(chars.as_slice());
    parse_u32(slice_subrange(chars.as_slice(), lo, hi))
}

/// Reads a field as an amount, white space around it left out; nothing
/// there is the amount of nothing.
pub fn amount_of_field(field: &str) -> (r: Option<Amount>)
    ensures
        match r {
            Some(a) => Some(a@) == (if trimmed(field@).len() == 0 {
                Some(0int)
            } else {
                amount_of_text(trimmed(field@))
            }),
            None => trimmed(field@).len() > 0 && amount_of_text(trimmed(field@)) is None,
        },
{
    let chars = chars_of(field);
    let (lo, hi) = trim_bounds(chars.as_slice());
    if lo == hi {
        Some(Amount::zero())
    } else {
        Amount::from_chars(slice_subrange(chars.as_slice(), lo, hi))
    }
}

impl Transaction {
    /// A transaction of the given type for `client`, with the id `tx`.
    pub fn new(tx_type: String, client: u32, tx: u32, amount: Amount) -> (r: Self)
        ensures
            r == (Transaction { tx_type, client, tx, amount }),
    {
        Self { tx_type, client, tx, amount }
    }

    /// Whether the transaction refers back to an earlier deposit.
    pub fn is_dispute(&self) -> (r: bool)
        ensures
            r == self@.kind().refers_back(),
    {
        match classify(self.tx_type.as_str()) {
            Kind::Dispute => true,
            Kind::Resolve => true,
            Kind::Chargeback => true,
            _ => false,
        }
    }

    /// What the transaction adds to what is available when nothing stands in
    /// its way.
    pub fn get_amount_change(&self) -> (r: Amount)
        requires
            self@.kind() is Withdrawal ==> self.amount.units > i64::MIN,
        ensures
            r@ == self@.change(),
    {
        match classify(self.tx_type.as_str()) {
            Kind::Deposit => self.amount,
            Kind::Withdrawal => Amount { units: -self.amount.units },
            _ => Amount::zero(),
        }
    }

    /// Where the first deposit with the id `tx_id` stands among `txs`.
    pub fn get_prev_trans(txs: &Vec<Transaction>, tx_id: u32) -> (r: Option<usize>)
        ensures
            match r {
                Some(i) => i < txs@.len() && first_deposit(records_of(txs@), tx_id) == Some(
                    i as int,
                ),
                None => first_deposit(records_of(txs@), tx_id) is None,
            },
    {
        let n: usize = txs.len();
        let mut i: usize = 0;
        while i < n
            invariant
                n == txs@.len(),
                i <= n,
                forall|j: int| 0 <= j < i ==> !records_of(txs@)[j].is_deposit_of(tx_id),
            decreases n - i,
        {
            if txs[i].tx == tx_id {
                match classify(txs[i].tx_type.as_str()) {
                    Kind::Deposit => {
                        proof {
                            assert(records_of(txs@)[i as int].is_deposit_of(tx_id));
                            lemma_first_deposit(records_of(txs@), tx_id);
                        }
                        return Some(i);
                    },
                    _ => {},
                }
            }
            i += 1;
        }
        proof {
            lemma_first_deposit(records_of(txs@), tx_id);
        }
        None
    }

    /// Reads a row of fields as a transaction.
    pub fn new_from_csv(sr: &Vec<String>) -> (r: Result<Self, RecordError>)
        ensures
            match r {
                Ok(t) => record_of_row(sr.deep_view()) == Ok::<Record, RecordError>(t@),
                Err(e) => record_of_row(sr.deep_view()) == Err::<Record, RecordError>(e),
            },
    {
        if sr.len() < 3 {
            return Err(RecordError::MissingField);
        }
        assert(sr.deep_view()[0] == sr@[0]@);
        assert(sr.deep_view()[1] == sr@[1]@);
        assert(sr.deep_view()[2] == sr@[2]@);
        let client: u32 = match number_of_field(sr[1].as_str()) {
            Some(client) => client,
            None => {
                return Err(RecordError::BadClient);
            },
        };
        let tx: u32 = match number_of_field(sr[2].as_str()) {
            Some(tx) => tx,
            None => {
                return Err(RecordError::BadTx);
            },
        };
        let amount = if sr.len() < 4 {
            Amount::zero()
        } else {
            assert(sr.deep_view()[3] == sr@[3]@);
            match amount_of_field(sr[3].as_str()) {
                Some(amount) => amount,
                None => {
                    return Err(RecordError::BadAmount);
                },
            }
        };
        Ok(Self { tx_type: trim_field(sr[0].as_str()), client, tx, amount })
    }

    /// Reads rows of fields as transactions and puts them in replay order.
    pub fn from_rows(rows: &Vec<Vec<String>>) -> (r: Result<Vec<Transaction>, RecordError>)
        ensures
            match r {
                Ok(txs) => records_of_rows(rows.deep_view()) matches Ok(given) && records_of(txs@)
                    == sorted_by_tx(given),
                Err(e) => records_of_rows(rows.deep_view()) == Err::<Seq<Record>, RecordError>(e),
            },
    {
        let n: usize = rows.len();
        let mut given: Vec<Transaction> = Vec::new();
        let mut i: usize = 0;
        assert(rows.deep_view().take(0) =~= Seq::<Seq<Seq<char>>>::empty());
        assert(records_of(given@) =~= Seq::<Record>::empty());
        while i < n
            invariant
                n == rows@.len(),
                i <= n,
                records_of_rows(rows.deep_view().take(i as int)) == Ok::<Seq<Record>, RecordError>(
                    records_of(given@),
                ),
            decreases n - i,
        {
            proof {
                let all = rows.deep_view();
                assert(all.take(i + 1).drop_last() =~= all.take(i as int));
                assert(all.take(i + 1).last() == rows@[i as int].deep_view());
            }
            match Transaction::new_from_csv(&rows[i]) {
                Ok(t) => {
                    assert(records_of(given@.push(t)) =~= records_of(given@).push(t@));
                    given.push(t);
                },
                Err(e) => {
                    proof {
                        lemma_records_of_rows_error(rows.deep_view(), i + 1);
                    }
                    return Err(e);
                },
            }
            i += 1;
        }
        assert(rows.deep_view().take(n as int) =~= rows.deep_view());
        Ok(sort_by_tx(&given))
    }

    /// Reads the transactions of a table in text form, its first row being
    /// the header, and puts them in replay order.
    pub fn get_transactions(tx: String) -> (r: Result<Vec<Transaction>, ReadError>)
        ensures
            match r {
                Ok(txs) => csv_rows(tx@) matches Some(rows) && records_of_rows(rows) matches Ok(
                    given,
                ) && records_of(txs@) == sorted_by_tx(given),
                Err(ReadError::Row(e)) => csv_rows(tx@) matches Some(rows) && records_of_rows(rows)
                    == Err::<Seq<Record>, RecordError>(e),
                Err(ReadError::Table) => csv_rows(tx@) is None,
            },
    {
        match read_table(tx.as_str()) {
            Some(rows) => match Transaction::from_rows(&rows) {
                Ok(txs) => Ok(txs),
                Err(e) => Err(ReadError::Row(e)),
            },
            None => Err(ReadError::Table),
        }
    }
}

} // verus!
