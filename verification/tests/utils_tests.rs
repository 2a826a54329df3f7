use fin_agent::data::{Transaction, TransactionType};
use fin_agent::dates::Date;
use fin_agent::money::Money;
use fin_agent::utils::{
    calculate_net_worth, filter_by_date_range, format_currency, get_file_extension,
    group_by_month, is_qif_file, is_valid_account_number, is_valid_amount, is_valid_currency_code,
    is_valid_email, parse_currency, percentage_change, round_currency, same_month,
    simple_moving_average, total_by_type,
};

#[test]
fn test_simple_moving_average() {
    let values = vec![
        Money::from_whole(100),
        Money::from_whole(110),
        Money::from_whole(105),
        Money::from_whole(120),
        Money::from_whole(115),
    ];

    let averages = simple_moving_average(&values, 3);

    assert_eq!(averages.len(), 3);
    assert_eq!(averages[0], Money::from_cents(10500)); // (100 + 110 + 105) / 3
    assert_eq!(round_currency(averages[1]), Money::from_cents(11167)); // (110 + 105 + 120) / 3
    assert_eq!(round_currency(averages[2]), Money::from_cents(11333)); // (105 + 120 + 115) / 3
}

#[test]
fn test_format_currency() {
    assert_eq!(format_currency(Money::from_cents(12345), "USD"), "$123.45");
    assert_eq!(format_currency(Money::from_cents(6789), "EUR"), "\u{20ac}67.89");
    assert_eq!(format_currency(Money::from_cents(10000), "GBP"), "\u{a3}100.00");
    assert_eq!(format_currency(Money::from_cents(5000), "CAD"), "CAD 50.00");
}

#[test]
fn test_parse_currency() {
    assert_eq!(parse_currency("$123.45").unwrap(), Money::from_cents(12345));
    assert_eq!(parse_currency("\u{20ac}67.89").unwrap(), Money::from_cents(6789));
    assert_eq!(parse_currency("1,234.56").unwrap(), Money::from_cents(123456));
    assert_eq!(parse_currency("-100.00").unwrap(), Money::from_cents(-10000));
    assert!(parse_currency("invalid").is_none());
}

#[test]
fn test_percentage_change() {
    assert_eq!(
        percentage_change(Money::from_whole(100), Money::from_whole(110)),
        Money::from_whole(10)
    );
    assert_eq!(
        percentage_change(Money::from_whole(100), Money::from_whole(90)),
        Money::from_whole(-10)
    );
    // avoid division by zero
    assert_eq!(
        percentage_change(Money::from_whole(0), Money::from_whole(100)),
        Money::from_whole(0)
    );
}

#[test]
fn test_net_worth_calculation() {
    let assets = vec![
        Money::from_whole(100000),
        Money::from_whole(50000),
        Money::from_whole(25000),
    ]; // House, savings, car
    let liabilities = vec![Money::from_whole(80000), Money::from_whole(15000)]; // Mortgage, car loan

    let net_worth = calculate_net_worth(&assets, &liabilities);
    assert_eq!(net_worth, Money::from_whole(80000)); // 175000 - 95000
}

#[test]
fn test_transaction_utils() {
    let account_id: u128 = 5;

    let transactions = vec![
        Transaction::new(
            account_id,
            Date::new(2024, 1, 15),
            Money::from_whole(100),
            "Test 1".to_string(),
            TransactionType::Debit,
        ),
        Transaction::new(
            account_id,
            Date::new(2024, 2, 10),
            Money::from_whole(200),
            "Test 2".to_string(),
            TransactionType::Credit,
        ),
    ];

    let grouped = group_by_month(&transactions);
    assert_eq!(grouped.len(), 2);
    assert!(grouped.iter().any(|g| g.0 == (2024, 1)));
    assert!(grouped.iter().any(|g| g.0 == (2024, 2)));

    let debit_total = total_by_type(&transactions, TransactionType::Debit);
    assert_eq!(debit_total, Money::from_whole(100));

    let credit_total = total_by_type(&transactions, TransactionType::Credit);
    assert_eq!(credit_total, Money::from_whole(200));
}

#[test]
fn test_group_by_category() {
    let mut a = Transaction::new(
        1,
        Date::new(2024, 1, 1),
        Money::from_whole(10),
        "a".to_string(),
        TransactionType::Debit,
    );
    a.category = Some("Food".to_string());
    let b = Transaction::new(
        1,
        Date::new(2024, 1, 2),
        Money::from_whole(20),
        "b".to_string(),
        TransactionType::Debit,
    );
    let txs = vec![a, b];
    let grouped = fin_agent::utils::group_by_category(&txs);
    assert_eq!(grouped.len(), 2);
    assert_eq!(grouped[0].0, "Food");
    assert_eq!(grouped[1].0, "Uncategorized");
    assert_eq!(grouped[0].1.len(), 1);
    assert_eq!(grouped[1].1.len(), 1);
}

#[test]
fn test_filter_by_date_range() {
    let txs = vec![
        Transaction::new(
            1,
            Date::new(2024, 1, 15),
            Money::from_whole(1),
            "a".to_string(),
            TransactionType::Debit,
        ),
        Transaction::new(
            1,
            Date::new(2024, 3, 15),
            Money::from_whole(2),
            "b".to_string(),
            TransactionType::Debit,
        ),
    ];
    let hits = filter_by_date_range(&txs, Date::new(2024, 1, 1), Date::new(2024, 2, 1));
    assert_eq!(hits.len(), 1);
    assert_eq!(hits[0].amount, Money::from_whole(1));
}

#[test]
fn test_date_comparisons() {
    let date = Date::new(2024, 6, 15);
    let same = Date::new(2024, 6, 20);
    let different = Date::new(2024, 7, 1);
    assert!(same_month(&date, &same));
    assert!(!same_month(&date, &different));
}

#[test]
fn test_validation() {
    assert!(is_valid_email("test@example.com"));
    assert!(!is_valid_email("invalid-email"));

    assert!(is_valid_account_number("1234567890"));
    assert!(!is_valid_account_number("123")); // Too short
    assert!(!is_valid_account_number("")); // Empty

    assert!(is_valid_currency_code("USD"));
    assert!(is_valid_currency_code("EUR"));
    assert!(!is_valid_currency_code("usd")); // Lowercase
    assert!(!is_valid_currency_code("US")); // Too short

    assert!(is_valid_amount(Money::from_cents(10000)));
    assert!(!is_valid_amount(Money::from_cents(0)));
    assert!(!is_valid_amount(Money::from_cents(-5000)));
}

#[test]
fn test_file_utils() {
    let qif_path = "test.qif";
    let txt_path = "test.txt";

    assert_eq!(get_file_extension(qif_path), Some("qif".to_string()));
    assert_eq!(get_file_extension(txt_path), Some("txt".to_string()));

    assert!(is_qif_file(qif_path));
    assert!(!is_qif_file(txt_path));
}

#[test]
fn test_file_extension_edges() {
    assert_eq!(get_file_extension("dir.d/noext"), None);
    assert_eq!(get_file_extension(".hidden"), None);
    assert_eq!(get_file_extension("a/b/c.QIF"), Some("qif".to_string()));
    assert!(is_qif_file("a/b/c.QIF"));
}

#[test]
fn test_round_currency_half_even() {
    assert_eq!(round_currency(Money::from_minor_units(11150)), Money::from_cents(112)); // 1.115 -> 1.12
    assert_eq!(round_currency(Money::from_minor_units(11250)), Money::from_cents(112)); // 1.125 -> 1.12
    assert_eq!(round_currency(Money::from_minor_units(-11250)), Money::from_cents(-112));
    assert_eq!(round_currency(Money::from_minor_units(11249)), Money::from_cents(112));
    assert_eq!(round_currency(Money::from_minor_units(11251)), Money::from_cents(113));
}

#[test]
fn test_money_parse_grammar() {
    assert_eq!(Money::parse("50.00"), Some(Money::from_cents(5000)));
    assert_eq!(Money::parse("-0.5"), Some(Money::from_minor_units(-5000)));
    assert_eq!(Money::parse("+7"), Some(Money::from_whole(7)));
    assert_eq!(Money::parse("12.3456"), Some(Money::from_minor_units(123456)));
    assert_eq!(Money::parse("1."), None);
    assert_eq!(Money::parse("1.23456"), None); // more than four decimals
    assert_eq!(Money::parse(""), None);
    assert_eq!(Money::parse("10000000001"), None); // beyond the amount bound
}
