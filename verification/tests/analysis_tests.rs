use fin_agent::analysis::{AnalysisEngine, TrendDirection};
use fin_agent::data::{Account, AccountType, FinancialData, Transaction, TransactionType};
use fin_agent::dates::Date;
use fin_agent::money::Money;

fn create_test_data() -> FinancialData {
    let mut data = FinancialData::new();

    let account = Account::new(
        "Test Account".to_string(),
        AccountType::Checking,
        Money::from_cents(100000),
        "USD".to_string(),
    );
    let account_id = account.id;
    data.add_account(account);

    let transactions = vec![
        // January transactions
        (Date::new(2024, 1, 15), 50000i64, TransactionType::Debit, "Groceries"),
        (Date::new(2024, 1, 20), 20000i64, TransactionType::Debit, "Gas"),
        (Date::new(2024, 1, 25), 300000i64, TransactionType::Credit, "Salary"),
        // February transactions
        (Date::new(2024, 2, 10), 60000i64, TransactionType::Debit, "Groceries"),
        (Date::new(2024, 2, 15), 25000i64, TransactionType::Debit, "Gas"),
    ];

    for (date, cents, tx_type, category) in transactions {
        let mut transaction = Transaction::new(
            account_id,
            date,
            Money::from_cents(cents),
            "Test".to_string(),
            tx_type,
        );
        transaction.category = Some(category.to_string());
        data.add_transaction(transaction);
    }

    data
}

fn breakdown_lookup(report: &fin_agent::analysis::MonthlyReport, key: &str) -> Option<Money> {
    report
        .category_breakdown
        .iter()
        .find(|p| p.0 == key)
        .map(|p| p.1)
}

#[test]
fn test_monthly_report() {
    let data = create_test_data();
    let report = AnalysisEngine::generate_monthly_report(&data, 2024, 1);

    assert_eq!(report.year, 2024);
    assert_eq!(report.month, 1);
    assert_eq!(report.total_income, Money::from_cents(300000));
    assert_eq!(report.total_expenses, Money::from_cents(70000)); // 500 + 200
    assert_eq!(report.net_income, Money::from_cents(230000)); // 3000 - 700
    assert_eq!(report.transaction_count, 3);

    assert_eq!(breakdown_lookup(&report, "Groceries"), Some(Money::from_cents(50000)));
    assert_eq!(breakdown_lookup(&report, "Gas"), Some(Money::from_cents(20000)));
}

#[test]
fn test_category_analysis() {
    let data = create_test_data();
    let analysis = AnalysisEngine::analyze_categories(&data);

    // Two categories: Groceries and Gas
    assert_eq!(analysis.len(), 2);

    // Groceries first (higher total: 500 + 600 = 1100)
    let groceries = &analysis[0];
    assert_eq!(groceries.category, "Groceries");
    assert_eq!(groceries.total_amount, Money::from_cents(110000));
    assert_eq!(groceries.transaction_count, 2);
    assert_eq!(groceries.average_amount, Money::from_cents(55000));

    // Gas second (450 total)
    let gas = &analysis[1];
    assert_eq!(gas.category, "Gas");
    assert_eq!(gas.total_amount, Money::from_cents(45000));
    assert_eq!(gas.transaction_count, 2);
    assert_eq!(gas.average_amount, Money::from_cents(22500));
}

#[test]
fn test_trend_direction_calculation() {
    let increasing = vec![
        ("2024-01".to_string(), Money::from_cents(10000)),
        ("2024-02".to_string(), Money::from_cents(15000)),
        ("2024-03".to_string(), Money::from_cents(20000)),
        ("2024-04".to_string(), Money::from_cents(25000)),
    ];
    assert_eq!(
        AnalysisEngine::calculate_trend_direction(&increasing),
        TrendDirection::Increasing
    );

    let decreasing = vec![
        ("2024-01".to_string(), Money::from_cents(25000)),
        ("2024-02".to_string(), Money::from_cents(20000)),
        ("2024-03".to_string(), Money::from_cents(15000)),
        ("2024-04".to_string(), Money::from_cents(10000)),
    ];
    assert_eq!(
        AnalysisEngine::calculate_trend_direction(&decreasing),
        TrendDirection::Decreasing
    );

    let stable = vec![
        ("2024-01".to_string(), Money::from_cents(20000)),
        ("2024-02".to_string(), Money::from_cents(19000)),
        ("2024-03".to_string(), Money::from_cents(21000)),
        ("2024-04".to_string(), Money::from_cents(20000)),
    ];
    assert_eq!(
        AnalysisEngine::calculate_trend_direction(&stable),
        TrendDirection::Stable
    );
}

#[test]
fn test_anomaly_detection() {
    // a category whose ordinary members average 500.00: with the
    // 5000.00 outlier the mean is 1625.00, and only the outlier
    // exceeds three times that
    let mut data = FinancialData::new();
    let account = Account::new(
        "Test Account".to_string(),
        AccountType::Checking,
        Money::from_cents(100000),
        "USD".to_string(),
    );
    let account_id = account.id;
    data.add_account(account);

    for cents in [40000i64, 50000, 60000] {
        let mut t = Transaction::new(
            account_id,
            Date::new(2024, 1, 10),
            Money::from_cents(cents),
            "Groceries run".to_string(),
            TransactionType::Debit,
        );
        t.category = Some("Groceries".to_string());
        data.add_transaction(t);
    }

    let mut large_transaction = Transaction::new(
        account_id,
        Date::new(2024, 2, 1),
        Money::from_cents(500000),
        "Huge grocery bill".to_string(),
        TransactionType::Debit,
    );
    large_transaction.category = Some("Groceries".to_string());
    data.add_transaction(large_transaction);

    let anomalies = AnalysisEngine::detect_anomalies(&data);

    assert_eq!(anomalies.len(), 1);
    assert_eq!(anomalies[0].amount, Money::from_cents(500000));
}

#[test]
fn test_singleton_category_never_flags() {
    let mut data = FinancialData::new();
    let mut t = Transaction::new(
        11,
        Date::new(2024, 1, 1),
        Money::from_cents(500000),
        "one-off".to_string(),
        TransactionType::Debit,
    );
    t.category = Some("Rare".to_string());
    data.add_transaction(t);
    let anomalies = AnalysisEngine::detect_anomalies(&data);
    assert_eq!(anomalies.len(), 0);
}

#[test]
fn test_uncategorized_bucket() {
    let mut data = FinancialData::new();
    let t = Transaction::new(
        12,
        Date::new(2024, 1, 1),
        Money::from_cents(1000),
        "no label".to_string(),
        TransactionType::Debit,
    );
    data.add_transaction(t);
    let analysis = AnalysisEngine::analyze_categories(&data);
    assert_eq!(analysis.len(), 1);
    assert_eq!(analysis[0].category, "Uncategorized");
    assert_eq!(analysis[0].percentage_of_total, Money::from_whole(100));
}

#[test]
fn test_zero_division_yields_zero() {
    // an empty document ranks nothing; a zero grand total yields a
    // zero percentage; an empty average is zero
    let empty = FinancialData::new();
    assert_eq!(AnalysisEngine::analyze_categories(&empty).len(), 0);

    let mut data = FinancialData::new();
    let t = Transaction::new(
        13,
        Date::new(2024, 1, 1),
        Money::zero(),
        "nothing".to_string(),
        TransactionType::Debit,
    );
    data.add_transaction(t);
    let analysis = AnalysisEngine::analyze_categories(&data);
    assert_eq!(analysis.len(), 1);
    assert_eq!(analysis[0].percentage_of_total, Money::zero());
    assert_eq!(analysis[0].average_amount, Money::zero());

    let none: Vec<(String, Money)> = Vec::new();
    assert_eq!(AnalysisEngine::calculate_average(&none), Money::zero());
}

#[test]
fn test_trends_cover_each_category() {
    let data = create_test_data();
    let trends = AnalysisEngine::analyze_spending_trends(&data, 3);
    assert_eq!(trends.len(), 3);
    assert_eq!(trends[0].category, "Groceries");
    assert_eq!(trends[1].category, "Gas");
    assert_eq!(trends[2].category, "Salary");
    for trend in &trends {
        assert_eq!(trend.monthly_amounts.len(), 3);
    }
}

#[test]
fn test_period_report_scenario() {
    // a month holding a 500.00 debit and a 3000.00 credit
    let mut data = FinancialData::new();
    let d = Transaction::new(
        21,
        Date::new(2025, 5, 10),
        Money::from_cents(50000),
        "spend".to_string(),
        TransactionType::Debit,
    );
    let c = Transaction::new(
        21,
        Date::new(2025, 5, 20),
        Money::from_cents(300000),
        "earn".to_string(),
        TransactionType::Credit,
    );
    data.add_transaction(d);
    data.add_transaction(c);
    let report = AnalysisEngine::generate_monthly_report(&data, 2025, 5);
    assert_eq!(report.total_income, Money::from_cents(300000));
    assert_eq!(report.total_expenses, Money::from_cents(50000));
    assert_eq!(report.net_income, Money::from_cents(250000));
    assert_eq!(report.transaction_count, 2);
}

#[test]
fn test_percentage_split() {
    let mut data = FinancialData::new();
    let mut a = Transaction::new(
        31,
        Date::new(2024, 4, 1),
        Money::from_whole(300),
        "big".to_string(),
        TransactionType::Debit,
    );
    a.category = Some("Rent".to_string());
    let mut b = Transaction::new(
        31,
        Date::new(2024, 4, 2),
        Money::from_whole(100),
        "small".to_string(),
        TransactionType::Debit,
    );
    b.category = Some("Fun".to_string());
    data.add_transaction(a);
    data.add_transaction(b);
    let analysis = AnalysisEngine::analyze_categories(&data);
    assert_eq!(analysis[0].percentage_of_total, Money::from_whole(75));
    assert_eq!(analysis[1].percentage_of_total, Money::from_whole(25));
}

#[test]
fn test_percentage_truncates() {
    let mut data = FinancialData::new();
    for (cents, cat) in [(100i64, "A"), (200i64, "B")] {
        let mut t = Transaction::new(
            32,
            Date::new(2024, 4, 1),
            Money::from_cents(cents),
            "x".to_string(),
            TransactionType::Debit,
        );
        t.category = Some(cat.to_string());
        data.add_transaction(t);
    }
    let analysis = AnalysisEngine::analyze_categories(&data);
    // 100 of 300 is 33.3333 percent, truncated at four decimal places
    assert_eq!(analysis[1].percentage_of_total, Money::from_minor_units(333333));
}
