//! The record model: accounts, transactions and the document that owns them.
//!
//! A document keeps an ordered list of accounts, an ordered list of
//! transactions, and two derived side tables listing the distinct category
//! and payee labels in order of first appearance.  A transaction's stored
//! amount is always a non-negative magnitude; its direction lives in the
//! kind tag.  A reconciled transaction is always cleared.

use vstd::prelude::*;

use crate::dates::Date;
use crate::money::{Money, MAX_AMOUNT_UNITS};

verus! {

/// The closed set of account kinds, with a free-text escape hatch.
#[derive(Debug, Clone, PartialEq)]
pub enum AccountType {
    Checking,
    Savings,
    CreditCard,
    Investment,
    Cash,
    Liability,
    Asset,
    Other(String),
}

/// Spec-level value of an account kind.
pub enum AccKind {
    Checking,
    Savings,
    CreditCard,
    Investment,
    Cash,
    Liability,
    Asset,
    Other(Seq<char>),
}

impl View for AccountType {
    type V = AccKind;

    open spec fn view(&self) -> AccKind {
        match self {
            AccountType::Checking => AccKind::Checking,
            AccountType::Savings => AccKind::Savings,
            AccountType::CreditCard => AccKind::CreditCard,
            AccountType::Investment => AccKind::Investment,
            AccountType::Cash => AccKind::Cash,
            AccountType::Liability => AccKind::Liability,
            AccountType::Asset => AccKind::Asset,
            AccountType::Other(s) => AccKind::Other(s@),
        }
    }
}

/// The closed set of transaction kinds, with a free-text escape hatch.
#[derive(Debug, Clone, PartialEq)]
pub enum TransactionType {
    Debit,
    Credit,
    Transfer,
    Fee,
    Interest,
    Dividend,
    Other(String),
}

/// Spec-level value of a transaction kind.
pub enum TxKind {
    Debit,
    Credit,
    Transfer,
    Fee,
    Interest,
    Dividend,
    Other(Seq<char>),
}

impl View for TransactionType {
    type V = TxKind;

    open spec fn view(&self) -> TxKind {
        match self {
            TransactionType::Debit => TxKind::Debit,
            TransactionType::Credit => TxKind::Credit,
            TransactionType::Transfer => TxKind::Transfer,
            TransactionType::Fee => TxKind::Fee,
            TransactionType::Interest => TxKind::Interest,
            TransactionType::Dividend => TxKind::Dividend,
            TransactionType::Other(s) => TxKind::Other(s@),
        }
    }
}

/// A financial account.
#[derive(Debug, Clone, PartialEq)]
pub struct Account {
    pub id: u128,
    pub name: String,
    pub account_type: AccountType,
    pub institution: Option<String>,
    pub account_number: Option<String>,
    pub balance: Money,
    pub currency: String,
    pub created_at: i64,
    pub updated_at: i64,
}

/// A financial transaction, always owned by an account.
#[derive(Debug, Clone, PartialEq)]
pub struct Transaction {
    pub id: u128,
    pub account_id: u128,
    pub date: Date,
    pub amount: Money,
    pub description: String,
    pub category: Option<String>,
    pub payee: Option<String>,
    pub memo: Option<String>,
    pub cleared: bool,
    pub reconciled: bool,
    pub transaction_type: TransactionType,
    pub created_at: i64,
    pub updated_at: i64,
}

/// The document: accounts, transactions, and the derived label tables.
#[derive(Debug, Clone)]
pub struct FinancialData {
    pub accounts: Vec<Account>,
    pub transactions: Vec<Transaction>,
    pub categories: Vec<String>,
    pub payees: Vec<String>,
}

/// Relies on `uuid::Uuid::new_v4`: a freshly generated random identifier,
/// reduced to its 128-bit value.  Nothing is assumed of the value.
#[verifier::external_body]
pub(crate) fn fresh_id() -> u128 {
    uuid::Uuid::new_v4().as_u128()
}

/// Relies on `chrono::Utc::now` and the `Datelike` accessors: the current
/// time as a unix timestamp and a calendar day whose month and day numbers
/// are in calendar range.  `Utc::now` refuses (by panicking) a system
/// clock before 1970, so the timestamp is non-negative and the year at
/// least 1970; nothing else is assumed of the value.
#[verifier::external_body]
pub(crate) fn current_clock() -> (r: (i64, Date))
    ensures
        0 <= r.0,
        1970 <= r.1.year,
        1 <= r.1.month <= 12,
        1 <= r.1.day <= 31,
{
    let now = chrono::Utc::now();
    let d = Date {
        year: chrono::Datelike::year(&now),
        month: chrono::Datelike::month(&now),
        day: chrono::Datelike::day(&now),
    };
    (now.timestamp(), d)
}

impl Transaction {
    /// The invariants every transaction in a document keeps: the magnitude
    /// is non-negative and within the amount bound, the date is a real
    /// calendar day, and a reconciled transaction is cleared.
    pub open spec fn wf(self) -> bool {
        &&& 0 <= self.amount@ <= MAX_AMOUNT_UNITS
        &&& self.date.wf()
        &&& (self.reconciled ==> self.cleared)
    }

    /// Create a transaction: uncleared, unreconciled, with no labels, and
    /// stamped with the current time.
    pub fn new(
        account_id: u128,
        date: Date,
        amount: Money,
        description: String,
        transaction_type: TransactionType,
    ) -> (r: Transaction)
        requires
            0 <= amount@ <= MAX_AMOUNT_UNITS,
            date.wf(),
        ensures
            r.account_id == account_id,
            r.date == date,
            r.amount == amount,
            r.description == description,
            r.transaction_type == transaction_type,
            r.category is None,
            r.payee is None,
            r.memo is None,
            !r.cleared,
            !r.reconciled,
            r.created_at == r.updated_at,
            r.wf(),
    {
        let (now, _today) = current_clock();
        Transaction {
            id: fresh_id(),
            account_id,
            date,
            amount,
            description,
            category: None,
            payee: None,
            memo: None,
            cleared: false,
            reconciled: false,
            transaction_type,
            created_at: now,
            updated_at: now,
        }
    }

    /// Mark the transaction cleared and stamp it.
    pub fn mark_cleared(&mut self)
        ensures
            final(self).cleared,
            final(self).reconciled == old(self).reconciled,
            final(self).id == old(self).id,
            final(self).account_id == old(self).account_id,
            final(self).date == old(self).date,
            final(self).amount == old(self).amount,
            final(self).description == old(self).description,
            final(self).category == old(self).category,
            final(self).payee == old(self).payee,
            final(self).memo == old(self).memo,
            final(self).transaction_type == old(self).transaction_type,
            final(self).created_at == old(self).created_at,
            old(self).wf() ==> final(self).wf(),
    {
        self.cleared = true;
        let (now, _today) = current_clock();
        self.updated_at = now;
    }

    /// Mark the transaction reconciled; reconciling also clears, so the
    /// `reconciled ==> cleared` invariant holds afterwards.
    pub fn mark_reconciled(&mut self)
        ensures
            final(self).cleared,
            final(self).reconciled,
            final(self).id == old(self).id,
            final(self).account_id == old(self).account_id,
            final(self).date == old(self).date,
            final(self).amount == old(self).amount,
            final(self).description == old(self).description,
            final(self).category == old(self).category,
            final(self).payee == old(self).payee,
            final(self).memo == old(self).memo,
            final(self).transaction_type == old(self).transaction_type,
            final(self).created_at == old(self).created_at,
            old(self).wf() ==> final(self).wf(),
    {
        self.reconciled = true;
        self.cleared = true;
        let (now, _today) = current_clock();
        self.updated_at = now;
    }
}

impl Account {
    /// Create an account with no institution or account number, stamped
    /// with the current time.
    pub fn new(name: String, account_type: AccountType, balance: Money, currency: String) -> (r:
        Account)
        ensures
            r.name == name,
            r.account_type == account_type,
            r.balance == balance,
            r.currency == currency,
            r.institution is None,
            r.account_number is None,
            r.created_at == r.updated_at,
    {
        let (now, _today) = current_clock();
        Account {
            id: fresh_id(),
            name,
            account_type,
            institution: None,
            account_number: None,
            balance,
            currency,
            created_at: now,
            updated_at: now,
        }
    }

    /// Replace the balance and stamp the account.
    pub fn update_balance(&mut self, new_balance: Money)
        ensures
            final(self).balance == new_balance,
            final(self).id == old(self).id,
            final(self).name == old(self).name,
            final(self).account_type == old(self).account_type,
            final(self).institution == old(self).institution,
            final(self).account_number == old(self).account_number,
            final(self).currency == old(self).currency,
            final(self).created_at == old(self).created_at,
    {
        self.balance = new_balance;
        let (now, _today) = current_clock();
        self.updated_at = now;
    }
}

/// The views of a label list.
pub open spec fn label_views(v: Seq<String>) -> Seq<Seq<char>> {
    v.map_values(|s: String| s@)
}

/// The label a transaction contributes to the category table.
pub open spec fn cat_label(t: Transaction) -> Option<Seq<char>> {
    match t.category {
        Some(s) => Some(s@),
        None => None,
    }
}

/// The label a transaction contributes to the payee table.
pub open spec fn payee_label(t: Transaction) -> Option<Seq<char>> {
    match t.payee {
        Some(s) => Some(s@),
        None => None,
    }
}

/// Append a label to a table unless it is absent or already present.
pub open spec fn table_push(acc: Seq<Seq<char>>, l: Option<Seq<char>>) -> Seq<Seq<char>> {
    match l {
        Some(l) => if acc.contains(l) {
            acc
        } else {
            acc.push(l)
        },
        None => acc,
    }
}

/// The side table derived from a transaction list: the distinct labels it
/// carries, in order of first appearance.
pub open spec fn side_table(
    txs: Seq<Transaction>,
    pick: spec_fn(Transaction) -> Option<Seq<char>>,
) -> Seq<Seq<char>>
    decreases txs.len(),
{
    if txs.len() == 0 {
        Seq::empty()
    } else {
        table_push(side_table(txs.drop_last(), pick), pick(txs.last()))
    }
}

/// The amount a transaction adds to its account's balance: credits and
/// every non-debit kind count positively, debits negatively.
pub open spec fn signed_amount(t: Transaction) -> int {
    match t.transaction_type@ {
        TxKind::Debit => -t.amount@,
        _ => t.amount@,
    }
}

/// Sum of the signed amounts of the transactions owned by `account_id`.
pub open spec fn balance_sum(txs: Seq<Transaction>, account_id: u128) -> int
    decreases txs.len(),
{
    if txs.len() == 0 {
        0
    } else {
        balance_sum(txs.drop_last(), account_id) + if txs.last().account_id == account_id {
            signed_amount(txs.last())
        } else {
            0
        }
    }
}

/// A field-for-field copy of a string option.
fn copy_opt_string(s: &Option<String>) -> (r: Option<String>)
    ensures
        r == *s,
{
    match s {
        Some(x) => Some(x.clone()),
        None => None,
    }
}

/// A field-for-field copy of a transaction kind.
fn copy_tx_type(t: &TransactionType) -> (r: TransactionType)
    ensures
        r == *t,
{
    match t {
        TransactionType::Debit => TransactionType::Debit,
        TransactionType::Credit => TransactionType::Credit,
        TransactionType::Transfer => TransactionType::Transfer,
        TransactionType::Fee => TransactionType::Fee,
        TransactionType::Interest => TransactionType::Interest,
        TransactionType::Dividend => TransactionType::Dividend,
        TransactionType::Other(s) => TransactionType::Other(s.clone()),
    }
}

/// A field-for-field copy of a transaction.
pub(crate) fn copy_transaction(t: &Transaction) -> (r: Transaction)
    ensures
        r == *t,
{
    Transaction {
        id: t.id,
        account_id: t.account_id,
        date: t.date,
        amount: t.amount,
        description: t.description.clone(),
        category: copy_opt_string(&t.category),
        payee: copy_opt_string(&t.payee),
        memo: copy_opt_string(&t.memo),
        cleared: t.cleared,
        reconciled: t.reconciled,
        transaction_type: copy_tx_type(&t.transaction_type),
        created_at: t.created_at,
        updated_at: t.updated_at,
    }
}

/// Whether a label list holds `l`.
fn contains_label(v: &Vec<String>, l: &String) -> (r: bool)
    ensures
        r == label_views(v@).contains(l@),
{
    let n: usize = v.len();
    let mut i: usize = 0;
    while i < n
        invariant
            i <= n,
            n == v@.len(),
            forall|k: int| 0 <= k < i ==> label_views(v@)[k] != l@,
        decreases n - i,
    {
        if v[i] == *l {
            proof {
                assert(label_views(v@)[i as int] == l@);
            }
            return true;
        }
        i = i + 1;
    }
    proof {
        assert(forall|k: int| 0 <= k < v@.len() ==> label_views(v@)[k] != l@);
    }
    false
}

impl FinancialData {
    /// The document invariants: every transaction is well formed, and the
    /// side tables hold exactly the distinct category and payee labels of
    /// the transaction list, in order of first appearance.
    pub open spec fn wf(self) -> bool {
        &&& forall|i: int|
            0 <= i < self.transactions@.len() ==> (#[trigger] self.transactions@[i]).wf()
        &&& label_views(self.categories@) == side_table(self.transactions@, |t: Transaction| cat_label(t))
        &&& label_views(self.payees@) == side_table(self.transactions@, |t: Transaction| payee_label(t))
    }

    /// An empty document.
    pub fn new() -> (r: FinancialData)
        ensures
            r.accounts@.len() == 0,
            r.transactions@.len() == 0,
            r.categories@.len() == 0,
            r.payees@.len() == 0,
            r.wf(),
    {
        let r = FinancialData {
            accounts: Vec::new(),
            transactions: Vec::new(),
            categories: Vec::new(),
            payees: Vec::new(),
        };
        proof {
            assert(label_views(r.categories@) =~= side_table(
                r.transactions@,
                |t: Transaction| cat_label(t),
            ));
            assert(label_views(r.payees@) =~= side_table(
                r.transactions@,
                |t: Transaction| payee_label(t),
            ));
        }
        r
    }

    /// Append an account.
    pub fn add_account(&mut self, account: Account)
        ensures
            final(self).accounts@ == old(self).accounts@.push(account),
            final(self).transactions == old(self).transactions,
            final(self).categories == old(self).categories,
            final(self).payees == old(self).payees,
            old(self).wf() ==> final(self).wf(),
    {
        self.accounts.push(account);
    }

    /// Append a transaction, keeping the label tables current: a new
    /// category or payee label is recorded the first time it appears.
    pub fn add_transaction(&mut self, transaction: Transaction)
        requires
            transaction.wf(),
        ensures
            final(self).transactions@ == old(self).transactions@.push(transaction),
            final(self).accounts == old(self).accounts,
            label_views(final(self).categories@) == table_push(
                label_views(old(self).categories@),
                cat_label(transaction),
            ),
            label_views(final(self).payees@) == table_push(
                label_views(old(self).payees@),
                payee_label(transaction),
            ),
            old(self).wf() ==> final(self).wf(),
    {
        let ghost cats0 = label_views(self.categories@);
        let ghost pays0 = label_views(self.payees@);
        match &transaction.category {
            Some(category) => {
                if !contains_label(&self.categories, category) {
                    let c = category.clone();
                    self.categories.push(c);
                    proof {
                        assert(label_views(self.categories@) =~= cats0.push(c@));
                    }
                }
            },
            None => {},
        }
        match &transaction.payee {
            Some(payee) => {
                if !contains_label(&self.payees, payee) {
                    let p = payee.clone();
                    self.payees.push(p);
                    proof {
                        assert(label_views(self.payees@) =~= pays0.push(p@));
                    }
                }
            },
            None => {},
        }
        self.transactions.push(transaction);
        proof {
            assert(self.transactions@.drop_last() =~= old(self).transactions@);
            assert(self.transactions@.last() == transaction);
        }
    }

    /// The transactions owned by `account_id`, in document order.
    pub fn get_account_transactions(&self, account_id: u128) -> (r: Vec<Transaction>)
        ensures
            r@ == self.transactions@.filter(|t: Transaction| t.account_id == account_id),
    {
        let n: usize = self.transactions.len();
        let mut r: Vec<Transaction> = Vec::new();
        let ghost pred = |t: Transaction| t.account_id == account_id;
        proof {
            assert(self.transactions@.take(0) =~= Seq::<Transaction>::empty());
            assert(Seq::<Transaction>::empty().filter(pred) =~= Seq::<Transaction>::empty());
        }
        let mut i: usize = 0;
        while i < n
            invariant
                i <= n,
                n == self.transactions@.len(),
                r@ == self.transactions@.take(i as int).filter(pred),
                pred == (|t: Transaction| t.account_id == account_id),
            decreases n - i,
        {
            let t = &self.transactions[i];
            if t.account_id == account_id {
                r.push(copy_transaction(t));
            }
            proof {
                reveal(Seq::filter);
                let s1 = self.transactions@.take(i + 1);
                assert(s1.drop_last() =~= self.transactions@.take(i as int));
                assert(s1.last() == self.transactions@[i as int]);
                assert(r@ == s1.filter(pred));
            }
            i = i + 1;
        }
        proof {
            assert(self.transactions@.take(n as int) =~= self.transactions@);
        }
        r
    }

    /// The balance implied by the owned transactions alone: credits (and
    /// all other non-debit kinds) minus debits.
    pub fn calculate_account_balance(&self, account_id: u128) -> (r: Money)
        requires
            self.wf(),
        ensures
            r@ == balance_sum(self.transactions@, account_id),
    {
        let n: usize = self.transactions.len();
        let mut acc: i128 = 0;
        let mut i: usize = 0;
        while i < n
            invariant
                i <= n,
                n == self.transactions@.len(),
                self.wf(),
                acc as int == balance_sum(self.transactions@.take(i as int), account_id),
                -(i as int) * MAX_AMOUNT_UNITS <= acc as int <= (i as int) * MAX_AMOUNT_UNITS,
            decreases n - i,
        {
            proof {
                assert(self.transactions@.take(i + 1).drop_last() =~= self.transactions@.take(
                    i as int,
                ));
                assert(self.transactions@.take(i + 1).last() == self.transactions@[i as int]);
                assert(self.transactions@[i as int].wf());
                assert((i as int) * MAX_AMOUNT_UNITS + MAX_AMOUNT_UNITS == ((i + 1) as int)
                    * MAX_AMOUNT_UNITS) by (nonlinear_arith);
                assert((i as int) * MAX_AMOUNT_UNITS <= (n as int) * MAX_AMOUNT_UNITS && (n as int)
                    * MAX_AMOUNT_UNITS < i128::MAX) by (nonlinear_arith)
                    requires
                        0 <= i as int <= n as int,
                        n as int <= 18446744073709551615,
                        MAX_AMOUNT_UNITS == 100000000000000,
                ;
            }
            let t = &self.transactions[i];
            let signed: i128 = if t.account_id == account_id {
                match t.transaction_type {
                    TransactionType::Debit => -t.amount.units,
                    _ => t.amount.units,
                }
            } else {
                0
            };
            acc = acc + signed;
            i = i + 1;
        }
        proof {
            assert(self.transactions@.take(n as int) =~= self.transactions@);
        }
        Money { units: acc }
    }
}

impl Default for FinancialData {
    /// An empty document.
    fn default() -> (r: FinancialData)
        ensures
            r.accounts@.len() == 0,
            r.transactions@.len() == 0,
            r.categories@.len() == 0,
            r.payees@.len() == 0,
            r.wf(),
    {
        FinancialData::new()
    }
}


/// A well-formed transaction that is reconciled is also cleared; the
/// reconciling mutation establishes this and every mutation keeps it.
pub proof fn lemma_reconciled_implies_cleared(t: Transaction)
    requires
        t.wf(),
    ensures
        t.reconciled ==> t.cleared,
{
}

} // verus!
