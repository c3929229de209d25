//! Tables in text form: rows of fields, read and written by the `csv` crate.
//!
//! What that crate makes of a text, and what bytes it makes of rows, is not
//! defined here: both are named, and the contracts of this module say which
//! calls give which named result. When it refuses a row that it is given is
//! stated. The loops over the rows are verified against those contracts.

use vstd::prelude::*;
use vstd::utf8::{decode_utf8, valid_utf8};

verus! {

/// `csv::Reader`, a reader of rows from a source of bytes. Nothing of its
/// inside is known here.
#[verifier::external_type_specification]
#[verifier::external_body]
#[verifier::reject_recursive_types(R)]
pub struct ExReader<R>(csv::Reader<R>);

/// `csv::Error`, what the `csv` crate reports when it fails. Nothing of its
/// inside is known here.
#[verifier::external_type_specification]
#[verifier::external_body]
pub struct ExError(csv::Error);

/// A `csv::Writer` that writes into memory, with the rows given to it so
/// far. Nothing of its inside is known here.
#[verifier::external_body]
pub struct TableWriter {
    inner: csv::Writer<Vec<u8>>,
}

/// The rows that `csv` reads from `text`, each a sequence of fields: the rows
/// that follow the header row, read with rows of any length allowed; `None`
/// where `csv` fails on a row before it comes to the end of the text.
pub uninterp spec fn csv_rows(text: Seq<char>) -> Option<Seq<Seq<Seq<char>>>>;

/// The rows that `reader` has still to give before it comes to its end or
/// fails.
pub uninterp spec fn unread(reader: csv::Reader<&[u8]>) -> Seq<Seq<Seq<char>>>;

/// Whether `reader`, once it has given those rows, fails where it should
/// come to its end.
pub uninterp spec fn broken(reader: csv::Reader<&[u8]>) -> bool;

/// The rows that `writer` was given.
pub uninterp spec fn written(writer: TableWriter) -> Seq<Seq<Seq<char>>>;

/// The bytes that `csv` writes for `rows`, given to it one by one in order.
pub uninterp spec fn csv_bytes(rows: Seq<Seq<Seq<char>>>) -> Seq<u8>;

/// Whether a row of these fields has as many fields as the first of
/// `rows`; any row has where there is no first.
pub open spec fn same_width(rows: Seq<Seq<Seq<char>>>, fields: Seq<Seq<char>>) -> bool {
    rows.len() == 0 || fields.len() == rows[0].len()
}

/// Whether all the rows have as many fields as the first.
pub open spec fn even_rows(rows: Seq<Seq<Seq<char>>>) -> bool {
    forall|i: int| 0 <= i < rows.len() ==> (#[trigger] rows[i]).len() == rows[0].len()
}

/// The text that `csv` writes for `rows`: the characters that its bytes
/// encode. There is none where the rows differ in their number of fields,
/// nor where the bytes are no text.
pub open spec fn csv_text(rows: Seq<Seq<Seq<char>>>) -> Option<Seq<char>> {
    if even_rows(rows) && valid_utf8(csv_bytes(rows)) {
        Some(decode_utf8(csv_bytes(rows)))
    } else {
        None
    }
}

/// Calls `csv::ReaderBuilder::new`, `flexible(true)` and `from_reader` on the
/// bytes of `text`. The contract claims only that what the reader has to
/// give is what `csv_rows(text)` names: all of the rows, or a failure on
/// the way. It defines that name.
#[verifier::external_body]
fn open_reader(text: &str) -> (reader: csv::Reader<&[u8]>)
    ensures
        csv_rows(text@) == (if broken(reader) {
            None
        } else {
            Some(unread(reader))
        }),
{
    csv::ReaderBuilder::new().flexible(true).from_reader(text.as_bytes())
}

/// Calls `csv::Reader::read_record` and copies the fields of the record it
/// filled. The contract claims: where a row came back, it is the first of
/// those the reader had to give, and the reader has the others left, to
/// end as it would have ended; where the reader said that it is at the end,
/// it had no row to give and does not fail; where the call failed, it had no
/// row to give and fails.
#[verifier::external_body]
fn read_row(reader: &mut csv::Reader<&[u8]>) -> (row: Result<Option<Vec<String>>, csv::Error>)
    ensures
        match row {
            Ok(Some(fields)) => unread(*old(reader)).len() > 0 && fields.deep_view() == unread(
                *old(reader),
            )[0] && unread(*final(reader)) == unread(*old(reader)).drop_first() && broken(
                *final(reader),
            ) == broken(*old(reader)),
            Ok(None) => unread(*old(reader)).len() == 0 && !broken(*old(reader)),
            Err(_) => unread(*old(reader)).len() == 0 && broken(*old(reader)),
        },
{
    let mut record = csv::StringRecord::new();
    match reader.read_record(&mut record) {
        Ok(true) => Ok(Some(record.iter().map(String::from).collect())),
        Ok(false) => Ok(None),
        Err(e) => Err(e),
    }
}

/// Calls `csv::Writer::from_writer` on an empty vector of bytes. The
/// contract claims that the new writer was given no row yet.
#[verifier::external_body]
fn open_writer() -> (writer: TableWriter)
    ensures
        written(writer) == Seq::<Seq<Seq<char>>>::empty(),
{
    TableWriter { inner: csv::Writer::from_writer(Vec::new()) }
}

/// Calls `csv::Writer::write_record` with the fields, and hands the writer
/// on where the call succeeded. The contract claims that the call succeeds
/// exactly on a row with as many fields as the first row that the writer
/// was given, and that the writer was then given this row after those it
/// had. A writer made by `from_writer` fails a call in two ways: on a row
/// of another number of fields than the first (`UnequalLengths`), and on a
/// failure of what it writes into, which a vector of bytes never gives.
#[verifier::external_body]
fn write_row(writer: TableWriter, fields: &Vec<String>) -> (next: Option<TableWriter>)
    ensures
        match next {
            Some(w) => same_width(written(writer), fields.deep_view()) && written(w) == written(
                writer,
            ).push(fields.deep_view()),
            None => !same_width(written(writer), fields.deep_view()),
        },
{
    let mut writer = writer;
    match writer.inner.write_record(fields) {
        Ok(()) => Some(writer),
        Err(_) => None,
    }
}

/// Calls `csv::Writer::into_inner`, which writes out what it still holds and
/// hands back the bytes written. The contract claims that the call succeeds,
/// as it fails only on a failure of what it writes into, which a vector of
/// bytes never gives; and that the bytes are those named `csv_bytes` of the
/// rows that the writer was given: it defines that name.
#[verifier::external_body]
fn close_writer(writer: TableWriter) -> (bytes: Option<Vec<u8>>)
    ensures
        bytes is Some,
        bytes->0@ == csv_bytes(written(writer)),
{
    writer.inner.into_inner().ok()
}

/// Calls `String::from_utf8`. The contract claims what its documentation
/// says: the call succeeds exactly on bytes that are valid UTF-8, and the
/// string then holds the characters that they encode.
#[verifier::external_body]
fn text_of_bytes(bytes: Vec<u8>) -> (text: Option<String>)
    ensures
        match text {
            Some(t) => valid_utf8(bytes@) && t@ == decode_utf8(bytes@),
            None => !valid_utf8(bytes@),
        },
{
    String::from_utf8(bytes).ok()
}

/// The rows up to and with the one at `k` are even exactly when those before
/// it are and it has as many fields as the first of them.
pub proof fn lemma_even_rows_step(rows: Seq<Seq<Seq<char>>>, k: int)
    requires
        0 <= k < rows.len(),
    ensures
        even_rows(rows.take(k + 1)) == (even_rows(rows.take(k)) && same_width(
            rows.take(k),
            rows[k],
        )),
{
    let before = rows.take(k);
    let after = rows.take(k + 1);
    if even_rows(after) {
        assert forall|i: int| 0 <= i < before.len() implies (#[trigger] before[i]).len()
            == before[0].len() by {
            assert(before[i] == after[i] && before[0] == after[0]);
        }
        if k > 0 {
            assert(after[k].len() == after[0].len());
            assert(before[0] == after[0]);
        }
    }
    if even_rows(before) && same_width(before, rows[k]) {
        assert forall|i: int| 0 <= i < after.len() implies (#[trigger] after[i]).len()
            == after[0].len() by {
            if i < k {
                assert(before[i] == after[i] && before[0] == after[0]);
            } else if k > 0 {
                assert(before[0] == after[0]);
            }
        }
    }
}

/// The first `k` of even rows are even.
pub proof fn lemma_even_rows_prefix(rows: Seq<Seq<Seq<char>>>, k: int)
    requires
        0 <= k <= rows.len(),
        even_rows(rows),
    ensures
        even_rows(rows.take(k)),
{
    let front = rows.take(k);
    assert forall|i: int| 0 <= i < front.len() implies (#[trigger] front[i]).len()
        == front[0].len() by {
        assert(front[i] == rows[i] && front[0] == rows[0]);
    }
}

/// The rows of a table in text form, its header row left out; `None` where
/// the text could not be read to its end.
pub fn read_table(text: &str) -> (table: Option<Vec<Vec<String>>>)
    ensures
        match table {
            Some(rows) => csv_rows(text@) == Some(rows.deep_view()),
            None => csv_rows(text@) is None,
        },
{
    let mut reader = open_reader(text);
    let mut rows: Vec<Vec<String>> = Vec::new();
    assert(rows.deep_view() + unread(reader) =~= unread(reader));
    loop
        invariant
            csv_rows(text@) == (if broken(reader) {
                None
            } else {
                Some(rows.deep_view() + unread(reader))
            }),
        decreases unread(reader).len(),
    {
        let ghost left = unread(reader);
        match read_row(&mut reader) {
            Ok(Some(fields)) => {
                assert(rows.deep_view().push(fields.deep_view()) + unread(reader)
                    =~= rows.deep_view() + left);
                rows.push(fields);
            },
            Ok(None) => {
                assert(rows.deep_view() + left =~= rows.deep_view());
                return Some(rows);
            },
            Err(_) => {
                return None;
            },
        }
    }
}

/// The rows as a table in text form; `None` where the rows differ in their
/// number of fields, or where what was written is no text.
pub fn write_table(rows: &Vec<Vec<String>>) -> (text: Option<String>)
    ensures
        match text {
            Some(t) => csv_text(rows.deep_view()) == Some(t@),
            None => csv_text(rows.deep_view()) is None,
        },
{
    let mut writer = open_writer();
    let n: usize = rows.len();
    let mut i: usize = 0;
    assert(rows.deep_view().take(0) =~= Seq::<Seq<Seq<char>>>::empty());
    while i < n
        invariant
            n == rows@.len(),
            i <= n,
            written(writer) == rows.deep_view().take(i as int),
            even_rows(rows.deep_view().take(i as int)),
        decreases n - i,
    {
        proof {
            let all = rows.deep_view();
            assert(all.take(i + 1) =~= all.take(i as int).push(rows@[i as int].deep_view()));
            lemma_even_rows_step(all, i as int);
        }
        match write_row(writer, &rows[i]) {
            Some(next) => {
                writer = next;
            },
            None => {
                proof {
                    if even_rows(rows.deep_view()) {
                        lemma_even_rows_prefix(rows.deep_view(), i + 1);
                    }
                }
                return None;
            },
        }
        i += 1;
    }
    assert(rows.deep_view().take(n as int) =~= rows.deep_view());
    match close_writer(writer) {
        Some(bytes) => text_of_bytes(bytes),
        None => None,
    }
}

} // verus!
