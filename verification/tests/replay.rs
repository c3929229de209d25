use accounts_cli::amount::Amount;
use accounts_cli::clients::models::Client;
use accounts_cli::transactions::models::Transaction;

fn cash(text: &str) -> Amount {
    Amount::parse(text).unwrap()
}

fn event(tx_type: &str, client: u32, tx: u32, amount: &str) -> Transaction {
    Transaction::new(tx_type.to_string(), client, tx, cash(amount))
}

fn account(client: u32, available: &str, held: &str, total: &str, locked: bool) -> Client {
    Client {
        client,
        available: cash(available),
        held: cash(held),
        total: cash(total),
        locked,
    }
}

fn replay_text(text: &str) -> Vec<Client> {
    let txs = Transaction::get_transactions(text.to_string()).unwrap();
    Client::try_process_transactions(&txs).unwrap()
}

#[test]
fn deposits_and_a_withdrawal() {
    let clients = replay_text("type,client,tx,amount\ndeposit,1,1,1.0\ndeposit,1,2,2.0\nwithdrawal,1,3,1.5\n");
    assert_eq!(clients, vec![account(1, "1.5", "0.0", "1.5", false)]);
}

#[test]
fn a_dispute_holds_the_deposit() {
    let clients = replay_text("type,client,tx,amount\ndeposit,1,1,5.0\ndispute,1,1,\n");
    assert_eq!(clients, vec![account(1, "0.0", "5.0", "5.0", false)]);
}

#[test]
fn a_dispute_of_an_unknown_id_changes_nothing() {
    let with = replay_text("type,client,tx,amount\ndeposit,1,1,5.0\ndispute,1,9,\n");
    let without = replay_text("type,client,tx,amount\ndeposit,1,1,5.0\n");
    assert_eq!(with, without);
    assert_eq!(with, vec![account(1, "5.0", "0.0", "5.0", false)]);
}

#[test]
fn a_dispute_of_a_withdrawal_changes_nothing() {
    let txs = vec![
        event("deposit", 1, 1, "5.0"),
        event("withdrawal", 1, 2, "1.0"),
        event("dispute", 1, 2, "0"),
    ];
    assert_eq!(
        Client::process_transactions(&txs),
        vec![account(1, "4.0", "0.0", "4.0", false)]
    );
}

#[test]
fn deposits_to_one_client_add_up() {
    let txs = vec![
        event("deposit", 4, 3, "0.0001"),
        event("deposit", 4, 1, "10"),
        event("deposit", 4, 2, "2.5"),
        event("deposit", 4, 4, "-1"),
    ];
    assert_eq!(
        Client::process_transactions(&txs),
        vec![account(4, "11.5001", "0", "11.5001", false)]
    );
}

#[test]
fn a_withdrawal_of_all_is_rejected() {
    let txs = vec![event("deposit", 1, 1, "2.0"), event("withdrawal", 1, 2, "2.0")];
    assert_eq!(
        Client::process_transactions(&txs),
        vec![account(1, "2.0", "0", "2.0", false)]
    );
}

#[test]
fn after_a_chargeback_nothing_changes_the_account() {
    let txs = vec![
        event("deposit", 1, 1, "3.0"),
        event("deposit", 1, 2, "5.0"),
        event("dispute", 1, 2, "0"),
        event("chargeback", 1, 2, "0"),
        event("deposit", 1, 3, "7.0"),
        event("withdrawal", 1, 4, "1.0"),
        event("dispute", 1, 3, "0"),
        event("resolve", 1, 2, "0"),
        event("deposit", 2, 5, "1.0"),
    ];
    assert_eq!(
        Client::process_transactions(&txs),
        vec![
            account(1, "3.0", "0.0", "3.0", true),
            account(2, "1.0", "0.0", "1.0", false)
        ]
    );
}

#[test]
fn a_resolve_gives_the_disputed_amount_back() {
    let txs = vec![
        event("deposit", 1, 1, "5.0"),
        event("deposit", 1, 2, "3.0"),
        event("dispute", 1, 1, "0"),
        event("resolve", 1, 1, "0"),
    ];
    assert_eq!(
        Client::process_transactions(&txs),
        vec![account(1, "8.0", "0.0", "8.0", false)]
    );
}

#[test]
fn the_order_of_the_input_matters_only_among_equal_ids() {
    let a = vec![
        event("deposit", 1, 1, "5.0"),
        event("dispute", 1, 1, "0"),
        event("deposit", 2, 2, "1.0"),
        event("withdrawal", 1, 3, "0.5"),
        event("resolve", 1, 1, "0"),
    ];
    let b = vec![
        event("withdrawal", 1, 3, "0.5"),
        event("deposit", 2, 2, "1.0"),
        event("deposit", 1, 1, "5.0"),
        event("dispute", 1, 1, "0"),
        event("resolve", 1, 1, "0"),
    ];
    let expected = vec![
        account(1, "4.5", "0.0", "4.5", false),
        account(2, "1.0", "0.0", "1.0", false),
    ];
    assert_eq!(Client::process_transactions(&a), expected);
    assert_eq!(Client::process_transactions(&b), expected);
}

#[test]
fn with_distinct_ids_the_order_of_the_input_does_not_matter() {
    let a = vec![
        event("deposit", 1, 1, "5.0"),
        event("withdrawal", 1, 2, "4.0"),
        event("deposit", 2, 3, "1.0"),
        event("withdrawal", 1, 4, "1.0"),
    ];
    let b = vec![
        event("withdrawal", 1, 4, "1.0"),
        event("withdrawal", 1, 2, "4.0"),
        event("deposit", 2, 3, "1.0"),
        event("deposit", 1, 1, "5.0"),
    ];
    let expected = vec![
        account(1, "1.0", "0.0", "1.0", false),
        account(2, "1.0", "0.0", "1.0", false),
    ];
    assert_eq!(Client::process_transactions(&a), expected);
    assert_eq!(Client::process_transactions(&b), expected);
}

#[test]
fn sorting_before_the_replay_changes_nothing() {
    let given = vec![
        event("resolve", 1, 1, "0"),
        event("deposit", 2, 2, "1.0"),
        event("deposit", 1, 1, "5.0"),
        event("dispute", 1, 1, "0"),
    ];
    let sorted = accounts_cli::transactions::order::sort_by_tx(&given);
    assert_eq!(
        Client::process_transactions(&sorted),
        Client::process_transactions(&given)
    );
    assert_eq!(
        Client::process_transactions(&given),
        vec![
            account(1, "0.0", "0.0", "0.0", false),
            account(2, "1.0", "0.0", "1.0", false)
        ]
    );
}

#[test]
fn the_order_among_equal_ids_can_matter() {
    let a = vec![
        event("deposit", 1, 1, "5.0"),
        event("dispute", 1, 1, "0"),
        event("chargeback", 1, 1, "0"),
    ];
    let b = vec![
        event("deposit", 1, 1, "5.0"),
        event("chargeback", 1, 1, "0"),
        event("dispute", 1, 1, "0"),
    ];
    assert_eq!(
        Client::process_transactions(&a),
        vec![account(1, "0.0", "0.0", "0.0", true)]
    );
    assert_eq!(
        Client::process_transactions(&b),
        vec![account(1, "5.0", "-5.0", "0.0", true)]
    );
}

#[test]
fn accounts_come_in_the_order_of_first_appearance() {
    let txs = vec![
        event("deposit", 7, 3, "1"),
        event("deposit", 9, 1, "1"),
        event("dispute", 8, 2, "0"),
        event("deposit", 9, 4, "1"),
    ];
    let clients = Client::process_transactions(&txs);
    let ids: Vec<u32> = clients.iter().map(|c| c.client).collect();
    assert_eq!(ids, vec![9, 8, 7]);
    assert_eq!(clients[1], Client::new(8));
}

#[test]
fn a_dispute_takes_the_amount_of_the_deposit_whoever_made_it() {
    let txs = vec![event("deposit", 1, 1, "5.0"), event("dispute", 2, 1, "9.0")];
    assert_eq!(
        Client::process_transactions(&txs),
        vec![
            account(1, "5.0", "0.0", "5.0", false),
            account(2, "-5.0", "5.0", "0.0", false)
        ]
    );
}

#[test]
fn no_transactions_leave_no_accounts() {
    assert_eq!(Client::process_transactions(&Vec::new()), Vec::new());
    assert_eq!(Client::try_process_transactions(&Vec::new()), Some(Vec::new()));
}

#[test]
fn a_balance_that_does_not_fit_stops_the_replay() {
    let big = Transaction::new("deposit".to_string(), 1, 1, Amount::from_units(i64::MAX));
    let one = Transaction::new("deposit".to_string(), 1, 2, Amount::from_units(1));
    assert_eq!(Client::try_process_transactions(&vec![big.clone(), one.clone()]), None);
    let back = Transaction::new("withdrawal".to_string(), 1, 3, Amount::from_units(i64::MAX));
    assert_eq!(Client::try_process_transactions(&vec![one, big, back]), None);
}

#[test]
fn advance_opens_the_account_and_applies() {
    let all = vec![event("deposit", 1, 1, "5.0"), event("dispute", 2, 1, "0")];
    let mut clients: Vec<Client> = Vec::new();
    assert!(Client::advance(&all, &mut clients, &all[0]));
    assert_eq!(clients, vec![account(1, "5.0", "0", "5.0", false)]);
    assert!(Client::advance(&all, &mut clients, &all[1]));
    assert_eq!(
        clients,
        vec![account(1, "5.0", "0", "5.0", false), account(2, "-5.0", "5.0", "0", false)]
    );
    let over = Transaction::new("deposit".to_string(), 3, 2, Amount::from_units(i64::MAX));
    assert!(Client::advance(&all, &mut clients, &over));
    assert!(!Client::advance(&all, &mut clients, &over));
    assert_eq!(clients.len(), 3);
    assert_eq!(clients[2].available, Amount::from_units(i64::MAX));
}
