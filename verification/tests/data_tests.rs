use fin_agent::data::{Account, AccountType, FinancialData, Transaction, TransactionType};
use fin_agent::dates::Date;
use fin_agent::money::Money;

#[test]
fn test_account_creation() {
    let account = Account::new(
        "Test Checking".to_string(),
        AccountType::Checking,
        Money::from_cents(100000),
        "USD".to_string(),
    );

    assert_eq!(account.name, "Test Checking");
    assert_eq!(account.account_type, AccountType::Checking);
    assert_eq!(account.balance, Money::from_cents(100000));
    assert_eq!(account.currency, "USD");
}

#[test]
fn test_transaction_creation() {
    let account_id: u128 = 42;
    let transaction = Transaction::new(
        account_id,
        Date::new(2024, 6, 1),
        Money::from_cents(5000),
        "Test purchase".to_string(),
        TransactionType::Debit,
    );

    assert_eq!(transaction.account_id, account_id);
    assert_eq!(transaction.amount, Money::from_cents(5000));
    assert_eq!(transaction.description, "Test purchase");
    assert_eq!(transaction.transaction_type, TransactionType::Debit);
    assert!(!transaction.cleared);
    assert!(!transaction.reconciled);
}

#[test]
fn test_financial_data() {
    let mut data = FinancialData::new();

    let account = Account::new(
        "Test Account".to_string(),
        AccountType::Checking,
        Money::from_cents(100000),
        "USD".to_string(),
    );
    let account_id = account.id;

    data.add_account(account);

    let mut transaction = Transaction::new(
        account_id,
        Date::new(2024, 6, 1),
        Money::from_cents(10000),
        "Test transaction".to_string(),
        TransactionType::Debit,
    );
    transaction.category = Some("Groceries".to_string());
    transaction.payee = Some("Store ABC".to_string());

    data.add_transaction(transaction);

    assert_eq!(data.accounts.len(), 1);
    assert_eq!(data.transactions.len(), 1);
    assert_eq!(data.categories.len(), 1);
    assert_eq!(data.payees.len(), 1);
    assert!(data.categories.contains(&"Groceries".to_string()));
    assert!(data.payees.contains(&"Store ABC".to_string()));
}

#[test]
fn test_account_balance_calculation() {
    let mut data = FinancialData::new();
    let account_id: u128 = 7;

    let credit = Transaction::new(
        account_id,
        Date::new(2024, 6, 1),
        Money::from_cents(100000),
        "Initial deposit".to_string(),
        TransactionType::Credit,
    );

    let debit = Transaction::new(
        account_id,
        Date::new(2024, 6, 2),
        Money::from_cents(25000),
        "Purchase".to_string(),
        TransactionType::Debit,
    );

    data.add_transaction(credit);
    data.add_transaction(debit);

    let balance = data.calculate_account_balance(account_id);
    assert_eq!(balance, Money::from_cents(75000)); // 1000 - 250
}

#[test]
fn test_transaction_state_changes() {
    let mut transaction = Transaction::new(
        9,
        Date::new(2024, 6, 1),
        Money::from_cents(10000),
        "Test".to_string(),
        TransactionType::Debit,
    );

    assert!(!transaction.cleared);
    assert!(!transaction.reconciled);

    transaction.mark_cleared();
    assert!(transaction.cleared);
    assert!(!transaction.reconciled);

    transaction.mark_reconciled();
    assert!(transaction.cleared);
    assert!(transaction.reconciled);
}

#[test]
fn test_basic_functionality() {
    let mut data = FinancialData::new();

    let account = Account::new(
        "Test Account".to_string(),
        AccountType::Checking,
        Money::from_cents(1000), // $10.00
        "USD".to_string(),
    );

    data.add_account(account);
    assert_eq!(data.accounts.len(), 1);
}

#[test]
fn test_reconciled_always_cleared() {
    // reconciling an uncleared transaction clears it too, and nothing
    // that follows can leave it reconciled but uncleared
    let mut t = Transaction::new(
        3,
        Date::new(2023, 2, 28),
        Money::from_cents(199),
        "coffee".to_string(),
        TransactionType::Debit,
    );
    t.mark_reconciled();
    assert!(t.reconciled && t.cleared);
    t.mark_cleared();
    assert!(t.reconciled && t.cleared);
}

#[test]
fn test_category_table_no_duplicates() {
    let mut data = FinancialData::new();
    for i in 0..3u32 {
        let mut t = Transaction::new(
            1,
            Date::new(2024, 1, 1 + i),
            Money::from_cents(100),
            "x".to_string(),
            TransactionType::Debit,
        );
        t.category = Some("Groceries".to_string());
        t.payee = Some("Store".to_string());
        data.add_transaction(t);
    }
    assert_eq!(data.categories, vec!["Groceries".to_string()]);
    assert_eq!(data.payees, vec!["Store".to_string()]);
}
