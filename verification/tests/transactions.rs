use accounts_cli::amount::Amount;
use accounts_cli::transactions::models::{
    amount_of_field, classify, number_of_field, trim_field, Kind, ReadError, RecordError,
    Transaction,
};
use accounts_cli::transactions::order::sort_by_tx;

fn money(text: &str) -> Amount {
    Amount::parse(text).unwrap()
}

fn row(fields: &[&str]) -> Vec<String> {
    fields.iter().map(|f| f.to_string()).collect()
}

fn tx(tx_type: &str, client: u32, tx: u32, amount: &str) -> Transaction {
    Transaction::new(tx_type.to_string(), client, tx, money(amount))
}

#[test]
fn models_new_transaction_test() {
    let sr: Vec<String> = row(&["deposit", "1", "1", "1.0"]);
    let tx_csv: Transaction = Transaction::new_from_csv(&sr).unwrap();
    let tx: Transaction = Transaction {
        tx_type: "deposit".to_string(),
        client: 1,
        tx: 1,
        amount: money("1.0"),
    };
    assert_eq!(tx, tx_csv);
}

#[test]
fn amount_test() {
    let tx: Transaction = Transaction {
        tx_type: "deposit".to_string(),
        client: 1,
        tx: 1,
        amount: money("1.0"),
    };

    assert_eq!(tx.get_amount_change(), money("1.0"))
}

#[test]
fn get_transactions_test() {
    let tx_string: String = String::from("type, client, tx, amount\ndeposit, 1, 1, 1.0");
    let tx_csv: Vec<Transaction> = Transaction::get_transactions(tx_string).unwrap();

    let tx: Transaction = Transaction {
        tx_type: "deposit".to_string(),
        client: 1,
        tx: 1,
        amount: money("1.0"),
    };
    let txs: Vec<Transaction> = vec![tx];

    assert_eq!(txs, tx_csv);
}

#[test]
fn amount_change_has_the_sign_of_the_kind() {
    assert_eq!(tx("withdrawal", 1, 1, "1.5").get_amount_change(), money("-1.5"));
    assert_eq!(tx("withdrawal", 1, 1, "-1.5").get_amount_change(), money("1.5"));
    assert_eq!(tx("dispute", 1, 1, "1.5").get_amount_change(), money("0"));
    assert_eq!(tx("anything", 1, 1, "1.5").get_amount_change(), money("0"));
}

#[test]
fn kinds_are_told_by_their_exact_name() {
    assert_eq!(classify("deposit"), Kind::Deposit);
    assert_eq!(classify("withdrawal"), Kind::Withdrawal);
    assert_eq!(classify("dispute"), Kind::Dispute);
    assert_eq!(classify("resolve"), Kind::Resolve);
    assert_eq!(classify("chargeback"), Kind::Chargeback);
    assert_eq!(classify("Deposit"), Kind::Other);
    assert_eq!(classify(" deposit"), Kind::Other);
    assert_eq!(classify("deposi"), Kind::Other);
    assert_eq!(classify(""), Kind::Other);
}

#[test]
fn is_dispute_holds_of_the_three_kinds_that_refer_back() {
    assert!(tx("dispute", 1, 1, "0").is_dispute());
    assert!(tx("resolve", 1, 1, "0").is_dispute());
    assert!(tx("chargeback", 1, 1, "0").is_dispute());
    assert!(!tx("deposit", 1, 1, "0").is_dispute());
    assert!(!tx("withdrawal", 1, 1, "0").is_dispute());
    assert!(!tx("disputes", 1, 1, "0").is_dispute());
}

#[test]
fn get_prev_trans_finds_the_first_deposit_with_the_id() {
    let txs = vec![
        tx("withdrawal", 1, 7, "1"),
        tx("dispute", 1, 7, "0"),
        tx("deposit", 2, 8, "1"),
        tx("deposit", 1, 7, "2"),
        tx("deposit", 3, 7, "3"),
    ];
    assert_eq!(Transaction::get_prev_trans(&txs, 7), Some(3));
    assert_eq!(Transaction::get_prev_trans(&txs, 8), Some(2));
    assert_eq!(Transaction::get_prev_trans(&txs, 9), None);
    assert_eq!(Transaction::get_prev_trans(&Vec::new(), 7), None);
}

#[test]
fn a_clone_is_the_same_transaction() {
    let t = tx("deposit", 3, 4, "5.25");
    assert_eq!(t.clone(), t);
}

#[test]
fn fields_are_read_without_the_space_around_them() {
    let t = Transaction::new_from_csv(&row(&["  withdrawal\t", " 12 ", "\u{a0}34\u{3000}", " 5.5 "]))
        .unwrap();
    assert_eq!(t, tx("withdrawal", 12, 34, "5.5"));
    assert_eq!(trim_field(" \t deposit \r\n"), "deposit");
    assert_eq!(trim_field("a b"), "a b");
    assert_eq!(trim_field(" \u{2003} "), "");
    assert_eq!(trim_field(""), "");
    assert_eq!(number_of_field(" +7 "), Some(7));
    assert_eq!(number_of_field("1 2"), None);
    assert_eq!(number_of_field("   "), None);
}

#[test]
fn a_missing_or_empty_amount_is_nothing() {
    assert_eq!(
        Transaction::new_from_csv(&row(&["dispute", "1", "2"])).unwrap(),
        tx("dispute", 1, 2, "0")
    );
    assert_eq!(
        Transaction::new_from_csv(&row(&["dispute", "1", "2", ""])).unwrap(),
        tx("dispute", 1, 2, "0")
    );
    assert_eq!(
        Transaction::new_from_csv(&row(&["deposit", "1", "2", "   "])).unwrap(),
        tx("deposit", 1, 2, "0")
    );
    assert_eq!(amount_of_field(""), Some(Amount::zero()));
    assert_eq!(amount_of_field(" 2.5"), Some(money("2.5")));
    assert_eq!(amount_of_field(" two "), None);
}

#[test]
fn fields_after_the_fourth_are_left_out() {
    assert_eq!(
        Transaction::new_from_csv(&row(&["deposit", "1", "2", "3.0", "x", "y"])).unwrap(),
        tx("deposit", 1, 2, "3.0")
    );
}

#[test]
fn each_row_error_has_its_input() {
    assert_eq!(
        Transaction::new_from_csv(&row(&[])),
        Err(RecordError::MissingField)
    );
    assert_eq!(
        Transaction::new_from_csv(&row(&["deposit", "1"])),
        Err(RecordError::MissingField)
    );
    assert_eq!(
        Transaction::new_from_csv(&row(&["deposit", "x", "1", "1.0"])),
        Err(RecordError::BadClient)
    );
    assert_eq!(
        Transaction::new_from_csv(&row(&["deposit", "-1", "1", "1.0"])),
        Err(RecordError::BadClient)
    );
    assert_eq!(
        Transaction::new_from_csv(&row(&["deposit", "4294967296", "1", "1.0"])),
        Err(RecordError::BadClient)
    );
    assert_eq!(
        Transaction::new_from_csv(&row(&["deposit", "1", "", "1.0"])),
        Err(RecordError::BadTx)
    );
    assert_eq!(
        Transaction::new_from_csv(&row(&["deposit", "1", "1", "1.0.0"])),
        Err(RecordError::BadAmount)
    );
    assert_eq!(
        Transaction::new_from_csv(&row(&["deposit", "x", "y", "z"])),
        Err(RecordError::BadClient)
    );
}

#[test]
fn replay_order_is_by_id_and_keeps_ties_as_given() {
    let txs = vec![
        tx("deposit", 1, 3, "1"),
        tx("dispute", 1, 1, "0"),
        tx("deposit", 2, 2, "2"),
        tx("deposit", 1, 1, "3"),
        tx("resolve", 1, 1, "0"),
        tx("withdrawal", 1, 0, "4"),
    ];
    let sorted = sort_by_tx(&txs);
    assert_eq!(
        sorted,
        vec![
            tx("withdrawal", 1, 0, "4"),
            tx("dispute", 1, 1, "0"),
            tx("deposit", 1, 1, "3"),
            tx("resolve", 1, 1, "0"),
            tx("deposit", 2, 2, "2"),
            tx("deposit", 1, 3, "1"),
        ]
    );
    assert_eq!(sort_by_tx(&sorted), sorted);
    assert_eq!(sort_by_tx(&Vec::new()), Vec::new());
}

#[test]
fn from_rows_reads_and_sorts() {
    let rows = vec![
        row(&["deposit", "1", "2", "2.0"]),
        row(&["deposit", "1", "1", "1.0"]),
        row(&["dispute", "1", "2"]),
    ];
    assert_eq!(
        Transaction::from_rows(&rows),
        Ok(vec![
            tx("deposit", 1, 1, "1.0"),
            tx("deposit", 1, 2, "2.0"),
            tx("dispute", 1, 2, "0"),
        ])
    );
    assert_eq!(Transaction::from_rows(&Vec::new()), Ok(Vec::new()));
}

#[test]
fn from_rows_gives_the_error_of_the_first_bad_row() {
    let rows = vec![
        row(&["deposit", "1", "2", "2.0"]),
        row(&["deposit", "1", "x", "1.0"]),
        row(&["deposit"]),
    ];
    assert_eq!(Transaction::from_rows(&rows), Err(RecordError::BadTx));
}

#[test]
fn get_transactions_leaves_the_header_out_and_sorts() {
    let text = "type,client,tx,amount\nwithdrawal,1,3,1.5\ndeposit,1,1,1.0\ndispute,1,1\ndeposit,1,2,2.0\n";
    assert_eq!(
        Transaction::get_transactions(text.to_string()),
        Ok(vec![
            tx("deposit", 1, 1, "1.0"),
            tx("dispute", 1, 1, "0"),
            tx("deposit", 1, 2, "2.0"),
            tx("withdrawal", 1, 3, "1.5"),
        ])
    );
}

#[test]
fn get_transactions_of_an_empty_text_is_empty() {
    assert_eq!(Transaction::get_transactions(String::new()), Ok(Vec::new()));
    assert_eq!(
        Transaction::get_transactions("type,client,tx,amount\n".to_string()),
        Ok(Vec::new())
    );
}

#[test]
fn get_transactions_reports_a_bad_row() {
    assert_eq!(
        Transaction::get_transactions("type,client,tx,amount\ndeposit,1,1,one\n".to_string()),
        Err(ReadError::Row(RecordError::BadAmount))
    );
    assert_eq!(
        Transaction::get_transactions("type,client,tx,amount\ndeposit,1\n".to_string()),
        Err(ReadError::Row(RecordError::MissingField))
    );
}
