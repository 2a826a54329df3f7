use fin_agent::data::{Account, AccountType, FinancialData, Transaction, TransactionType};
use fin_agent::dates::Date;
use fin_agent::money::Money;
use fin_agent::quicken::{QifError, QifExporter, QifImporter};

const SAMPLE_QIF: &str = "!Account\nNChecking Account\nTBank\n^\n!Type:Bank\nD12/1/2023\nT-50.00\nPGrocery Store\nLGroceries\nMWeekly shopping\nC*\n^\nD12/2/2023\nT1000.00\nPPaycheck\nLSalary\nMMonthly salary\n^\n";

#[test]
fn test_qif_import() {
    let result = QifImporter::parse_qif_content(SAMPLE_QIF);
    assert!(result.is_ok());

    let data = result.unwrap();
    assert_eq!(data.accounts.len(), 1);
    assert_eq!(data.transactions.len(), 2);

    let account = &data.accounts[0];
    assert_eq!(account.name, "Checking Account");
    assert_eq!(account.account_type, AccountType::Checking);

    let transactions = data.get_account_transactions(account.id);
    assert_eq!(transactions.len(), 2);

    let debit_tx = transactions
        .iter()
        .find(|t| {
            t.amount == Money::from_cents(5000)
                && matches!(t.transaction_type, TransactionType::Debit)
        })
        .expect("Debit transaction not found");

    assert_eq!(debit_tx.payee, Some("Grocery Store".to_string()));
    assert_eq!(debit_tx.category, Some("Groceries".to_string()));
    assert_eq!(debit_tx.memo, Some("Weekly shopping".to_string()));
    assert!(debit_tx.cleared);

    let credit_tx = transactions
        .iter()
        .find(|t| {
            t.amount == Money::from_cents(100000)
                && matches!(t.transaction_type, TransactionType::Credit)
        })
        .expect("Credit transaction not found");

    assert_eq!(credit_tx.payee, Some("Paycheck".to_string()));
    assert_eq!(credit_tx.category, Some("Salary".to_string()));
    assert!(!credit_tx.cleared);
}

#[test]
fn test_qif_export() {
    let mut data = FinancialData::new();

    let account = Account::new(
        "Test Account".to_string(),
        AccountType::Checking,
        Money::from_cents(100000),
        "USD".to_string(),
    );
    let account_id = account.id;
    data.add_account(account);

    let mut transaction = Transaction::new(
        account_id,
        Date::new(2024, 3, 5),
        Money::from_cents(10000),
        "Test Transaction".to_string(),
        TransactionType::Debit,
    );
    transaction.payee = Some("Test Payee".to_string());
    transaction.category = Some("Test Category".to_string());
    transaction.cleared = true;

    data.add_transaction(transaction);

    let result = QifExporter::export_to_string(&data);
    assert!(result.is_ok());

    let qif_content = result.unwrap();
    assert!(qif_content.contains("!Account"));
    assert!(qif_content.contains("NTest Account"));
    assert!(qif_content.contains("TBank"));
    assert!(qif_content.contains("!Type:Bank"));
    assert!(qif_content.contains("PTest Payee"));
    assert!(qif_content.contains("LTest Category"));
    assert!(qif_content.contains("C*"));
}

#[test]
fn test_qif_date_parsing() {
    let test_dates = [
        ("12/1/2023", true),
        ("1/15/23", true),
        ("12-01-2023", true),
        ("2023-12-01", true),
        ("invalid", false),
    ];

    for (date_str, should_succeed) in test_dates {
        let result = QifImporter::parse_qif_date(date_str);
        assert_eq!(result.is_some(), should_succeed, "Date: {}", date_str);
    }
}

#[test]
fn test_round_trip() {
    // Import, then export, then import again
    let original_data = QifImporter::parse_qif_content(SAMPLE_QIF).unwrap();
    let exported_qif = QifExporter::export_to_string(&original_data).unwrap();
    let reimported_data = QifImporter::parse_qif_content(&exported_qif).unwrap();

    assert_eq!(original_data.accounts.len(), reimported_data.accounts.len());
    assert_eq!(
        original_data.transactions.len(),
        reimported_data.transactions.len()
    );
}

#[test]
fn test_round_trip_preserves_fields() {
    let original = QifImporter::parse_qif_content(SAMPLE_QIF).unwrap();
    let exported = QifExporter::export_to_string(&original).unwrap();
    let again = QifImporter::parse_qif_content(&exported).unwrap();
    for (a, b) in original.transactions.iter().zip(again.transactions.iter()) {
        assert_eq!(a.amount, b.amount);
        assert_eq!(a.transaction_type, b.transaction_type);
        assert_eq!(a.payee, b.payee);
        assert_eq!(a.category, b.category);
        assert_eq!(a.memo, b.memo);
        assert_eq!(a.cleared, b.cleared);
        assert_eq!(a.date, b.date);
    }
    for (a, b) in original.accounts.iter().zip(again.accounts.iter()) {
        assert_eq!(a.name, b.name);
        assert_eq!(a.institution, b.institution);
    }
}

#[test]
fn test_two_record_import() {
    // one cleared debit of 50.00 and one uncleared credit of 1000.00
    // under a single checking account
    let data = QifImporter::parse_qif_content(SAMPLE_QIF).unwrap();
    assert_eq!(data.accounts.len(), 1);
    assert_eq!(data.transactions.len(), 2);
    assert_eq!(data.categories.len(), 2);
    assert!(data.categories.contains(&"Groceries".to_string()));
    assert!(data.categories.contains(&"Salary".to_string()));
    let debit = data
        .transactions
        .iter()
        .find(|t| matches!(t.transaction_type, TransactionType::Debit))
        .unwrap();
    // the stored magnitude is positive even though the field was negative
    assert_eq!(debit.amount, Money::from_cents(5000));
}

#[test]
fn test_section_before_account_fails() {
    let input = "!Type:Bank\nD12/1/2023\nT-5.00\n^\n";
    let result = QifImporter::parse_qif_content(input);
    assert_eq!(result.err(), Some(QifError::NoAccountContext));
}

#[test]
fn test_malformed_record_skipped() {
    // an unparseable date fails only its own record; the next record
    // still decodes
    let input = "!Account\nNA\nTBank\n^\n!Type:Bank\nDnot-a-date\nT-1.00\n^\nD12/1/2023\nT-2.00\n^\n";
    let data = QifImporter::parse_qif_content(input).unwrap();
    assert_eq!(data.transactions.len(), 1);
    assert_eq!(data.transactions[0].amount, Money::from_cents(200));
}

#[test]
fn test_unknown_sections_skipped() {
    let input = "!Option:AutoSwitch\nstray line\n\n!Account\nNA\nTCash\n^\n";
    let data = QifImporter::parse_qif_content(input).unwrap();
    assert_eq!(data.accounts.len(), 1);
    assert_eq!(data.accounts[0].account_type, AccountType::Cash);
}

#[test]
fn test_account_type_lookup() {
    assert_eq!(
        QifImporter::parse_account_type("Bank"),
        AccountType::Checking
    );
    assert_eq!(
        QifImporter::parse_account_type("CHECKING"),
        AccountType::Checking
    );
    assert_eq!(
        QifImporter::parse_account_type("CCard"),
        AccountType::CreditCard
    );
    assert_eq!(
        QifImporter::parse_account_type("OddBall"),
        AccountType::Other("OddBall".to_string())
    );
    assert_eq!(QifExporter::account_type_to_qif(&AccountType::Savings), "Bank");
    assert_eq!(
        QifExporter::account_type_to_qif(&AccountType::Liability),
        "Liability"
    );
}

#[test]
fn test_amount_field_round_trip() {
    // a negative amount writes a minus sign; reimporting restores the
    // same magnitude and kind
    let mut data = FinancialData::new();
    let account = Account::new(
        "A".to_string(),
        AccountType::Checking,
        Money::zero(),
        "USD".to_string(),
    );
    let id = account.id;
    data.add_account(account);
    let t = Transaction::new(
        id,
        Date::new(2020, 12, 31),
        Money::from_minor_units(1234567), // 123.4567
        "x".to_string(),
        TransactionType::Debit,
    );
    data.add_transaction(t);
    let text = QifExporter::export_to_string(&data).unwrap();
    assert!(text.contains("T-123.4567"));
    let back = QifImporter::parse_qif_content(&text).unwrap();
    assert_eq!(back.transactions[0].amount, Money::from_minor_units(1234567));
    assert!(matches!(
        back.transactions[0].transaction_type,
        TransactionType::Debit
    ));
}

#[test]
fn test_empty_input() {
    let data = QifImporter::parse_qif_content("").unwrap();
    assert_eq!(data.accounts.len(), 0);
    assert_eq!(data.transactions.len(), 0);
}

#[test]
fn test_end_of_input_closes_records() {
    // missing terminators at end of input close the open records
    let input = "!Account\nNA\nTBank\n^\n!Type:Bank\nD12/1/2023\nT-2.50";
    let data = QifImporter::parse_qif_content(input).unwrap();
    assert_eq!(data.accounts.len(), 1);
    assert_eq!(data.transactions.len(), 1);
    assert_eq!(data.transactions[0].amount, Money::from_cents(250));
}
