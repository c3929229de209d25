use accounts_cli::amount::Amount;
use accounts_cli::clients::models::Client;
use accounts_cli::table::{read_table, write_table};
use accounts_cli::transactions::models::number_of_field;

fn line(fields: &[&str]) -> Vec<String> {
    fields.iter().map(|f| f.to_string()).collect()
}

#[test]
fn a_table_is_read_without_its_header() {
    assert_eq!(
        read_table("a,b\n1,2\n3,4\n"),
        Some(vec![line(&["1", "2"]), line(&["3", "4"])])
    );
    assert_eq!(read_table("a,b\n"), Some(Vec::new()));
    assert_eq!(read_table(""), Some(Vec::new()));
}

#[test]
fn rows_may_differ_in_length() {
    assert_eq!(
        read_table("type,client,tx,amount\ndispute,1,1\ndeposit,1,1,5.0,extra\n"),
        Some(vec![
            line(&["dispute", "1", "1"]),
            line(&["deposit", "1", "1", "5.0", "extra"])
        ])
    );
}

#[test]
fn fields_are_read_as_they_stand() {
    assert_eq!(
        read_table("h\n\" x, y \", z \n"),
        Some(vec![line(&[" x, y ", " z "])])
    );
}

#[test]
fn a_table_is_written_row_by_row() {
    assert_eq!(
        write_table(&vec![line(&["x", "y"]), line(&["1", "2"])]),
        Some("x,y\n1,2\n".to_string())
    );
    assert_eq!(write_table(&Vec::new()), Some(String::new()));
    assert_eq!(
        write_table(&vec![line(&["a,b", "c\"d", "é"])]),
        Some("\"a,b\",\"c\"\"d\",é\n".to_string())
    );
}

#[test]
fn rows_of_unequal_length_are_refused() {
    assert_eq!(write_table(&vec![line(&["x", "y"]), line(&["1"])]), None);
}

#[test]
fn a_report_reads_back_as_the_accounts() {
    let clients = vec![
        Client {
            client: 1,
            available: Amount::from_units(15_000),
            held: Amount::from_units(-1),
            total: Amount::from_units(14_999),
            locked: false,
        },
        Client {
            client: u32::MAX,
            available: Amount::from_units(i64::MIN),
            held: Amount::from_units(i64::MAX),
            total: Amount::from_units(-1),
            locked: true,
        },
    ];
    let text = Client::clients_to_csv(clients.clone()).unwrap();
    let rows = read_table(&text).unwrap();
    assert_eq!(rows.len(), clients.len());
    for (row, client) in rows.iter().zip(clients.iter()) {
        assert_eq!(row.len(), 5);
        assert_eq!(number_of_field(&row[0]), Some(client.client));
        assert_eq!(Amount::parse(&row[1]), Some(client.available));
        assert_eq!(Amount::parse(&row[2]), Some(client.held));
        assert_eq!(Amount::parse(&row[3]), Some(client.total));
        assert_eq!(row[4], if client.locked { "true" } else { "false" });
    }
}
