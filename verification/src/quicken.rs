//! The interchange-format codec.
//!
//! The decoder walks the input line by line with two nested state
//! machines: the document level tracks which section is open, and the
//! record level accumulates tagged fields until a `^` terminator.  A
//! transaction record whose date or amount field cannot be read is
//! dropped and scanning resumes at the next record boundary; the only
//! fatal condition is a transaction section with no open account.  The
//! encoder writes the same grammar back deterministically, and is the
//! decoder's left inverse on the documents the decoder produces.
//!
//! The whole behaviour of both directions is captured by the spec-level
//! machine `scan` and writer `export_str` below; the executable functions
//! are proved to follow them exactly.

use vstd::prelude::*;

use crate::data::{AccKind, Account, AccountType, FinancialData, Transaction, TransactionType, TxKind};
use crate::dates::{date_is_valid, date_str, parse_date, parse_date_field, valid_date, Date};
use crate::money::{amount_str, parse_amount_chars, Money, MAX_AMOUNT_UNITS};
use crate::text::{
    has_prefix, join_lines, lowered, spec_lines, spec_trim, split_lines, starts_with_text,
    str_eq_str, text_views, trim_text, lower_text,
};

verus! {

/// Reads interchange-format text into a document.
pub struct QifImporter;

/// Writes a document back out as interchange-format text.
pub struct QifExporter;

/// A fatal decode failure.
#[derive(Debug, Clone, PartialEq, Eq, Structural)]
pub enum QifError {
    /// A transaction section appeared before any account section.
    NoAccountContext,
}

impl QifError {
    /// A short description of the failure.
    pub fn message(&self) -> (r: &'static str)
        ensures
            r@ == "No current account for transactions"@,
    {
        "No current account for transactions"
    }
}

/// What one decoded account record holds.
pub struct AccRec {
    pub name: Seq<char>,
    pub kind: AccKind,
    pub institution: Option<Seq<char>>,
}

/// What one decoded transaction record holds.  `owner` is the index of
/// the owning account in the decoded account list.
pub struct TxRec {
    pub owner: int,
    pub date: (int, int, int),
    pub magnitude: int,
    pub kind: TxKind,
    pub description: Seq<char>,
    pub payee: Option<Seq<char>>,
    pub category: Option<Seq<char>>,
    pub memo: Option<Seq<char>>,
    pub cleared: bool,
}

/// The content of a decoded document.
pub struct DocRec {
    pub accounts: Seq<AccRec>,
    pub txs: Seq<TxRec>,
}

/// The field accumulator of a transaction record in progress.
pub struct TxScan {
    pub date: Option<(int, int, int)>,
    pub bad: bool,
    pub amount: int,
    pub description: Seq<char>,
    pub payee: Option<Seq<char>>,
    pub category: Option<Seq<char>>,
    pub memo: Option<Seq<char>>,
    pub cleared: bool,
}

/// Where the document scanner stands.
pub enum ScanMode {
    /// Between sections.
    Top,
    /// Inside an account record.
    Acc(AccRec),
    /// Inside a transaction section, between records.
    Sec,
    /// Inside a transaction record.
    Rec(TxScan),
}

/// Ordering used to show the scanner terminates: steps that consume no
/// line strictly lower the mode rank.
pub open spec fn mode_rank(m: ScanMode) -> int {
    match m {
        ScanMode::Top => 0,
        ScanMode::Acc(_) => 1,
        ScanMode::Rec(_) => 2,
        ScanMode::Sec => 3,
    }
}

/// The starting account accumulator: the defaults an account record
/// keeps for fields it never sets.
pub open spec fn init_acc() -> AccRec {
    AccRec { name: "Unknown Account"@, kind: AccKind::Other("Unknown"@), institution: None }
}

/// The starting transaction accumulator.
pub open spec fn init_tx() -> TxScan {
    TxScan {
        date: None,
        bad: false,
        amount: 0,
        description: "Unknown"@,
        payee: None,
        category: None,
        memo: None,
        cleared: false,
    }
}

/// The account-kind lookup: case-insensitive on ASCII letters, with the
/// free text kept as given when no keyword matches, so unknown kinds
/// round-trip through the in-memory model.
pub open spec fn spec_account_kind(c: Seq<char>) -> AccKind {
    let l = lowered(c);
    if l == "bank"@ || l == "checking"@ {
        AccKind::Checking
    } else if l == "savings"@ {
        AccKind::Savings
    } else if l == "ccard"@ || l == "credit"@ {
        AccKind::CreditCard
    } else if l == "invst"@ || l == "investment"@ {
        AccKind::Investment
    } else if l == "cash"@ {
        AccKind::Cash
    } else if l == "liability"@ {
        AccKind::Liability
    } else if l == "asset"@ {
        AccKind::Asset
    } else {
        AccKind::Other(c)
    }
}

/// One field line of an account record (already trimmed, not a boundary
/// or terminator): `N` sets the name, `T` the kind, `D` the institution;
/// anything else is ignored.
pub open spec fn acc_step(st: AccRec, t: Seq<char>) -> AccRec {
    if t.len() == 0 {
        st
    } else if t[0] == 'N' {
        AccRec { name: t.skip(1), ..st }
    } else if t[0] == 'T' {
        AccRec { kind: spec_account_kind(t.skip(1)), ..st }
    } else if t[0] == 'D' {
        AccRec { institution: Some(t.skip(1)), ..st }
    } else {
        st
    }
}

/// The cleared marker: `*`, or `x` of either case.
pub open spec fn is_cleared_marker(c: Seq<char>) -> bool {
    c == seq!['*'] || lowered(c) == seq!['x']
}

/// One field line of a transaction record (already trimmed, not the
/// terminator).  A date or amount field that does not parse poisons the
/// record.  A payee seeds the description; a memo overrides it; the last
/// field wins.
pub open spec fn tx_step(st: TxScan, t: Seq<char>) -> TxScan {
    if t.len() == 0 {
        st
    } else if t[0] == 'D' {
        match parse_date_field(t.skip(1)) {
            Some(d) => TxScan { date: Some(d), ..st },
            None => TxScan { bad: true, ..st },
        }
    } else if t[0] == 'T' {
        match parse_amount_chars(spec_trim(t.skip(1))) {
            Some(v) => TxScan { amount: v, ..st },
            None => TxScan { bad: true, ..st },
        }
    } else if t[0] == 'P' {
        TxScan { payee: Some(t.skip(1)), description: t.skip(1), ..st }
    } else if t[0] == 'L' {
        TxScan { category: Some(t.skip(1)), ..st }
    } else if t[0] == 'M' {
        TxScan { memo: Some(t.skip(1)), description: t.skip(1), ..st }
    } else if t[0] == 'C' {
        TxScan { cleared: is_cleared_marker(t.skip(1)), ..st }
    } else {
        st
    }
}

/// Close a transaction record: a poisoned record yields nothing; a
/// missing date falls back to `today`; the amount's sign picks the kind
/// and the stored magnitude is its absolute value.
pub open spec fn finalize_tx(st: TxScan, today: (int, int, int), owner: int) -> Option<TxRec> {
    if st.bad {
        None
    } else {
        Some(
            TxRec {
                owner,
                date: match st.date {
                    Some(d) => d,
                    None => today,
                },
                magnitude: if st.amount >= 0 {
                    st.amount
                } else {
                    -st.amount
                },
                kind: if st.amount >= 0 {
                    TxKind::Credit
                } else {
                    TxKind::Debit
                },
                description: st.description,
                payee: st.payee,
                category: st.category,
                memo: st.memo,
                cleared: st.cleared,
            },
        )
    }
}

/// Append a closed account record to the document.
pub open spec fn push_acc(doc: DocRec, a: AccRec) -> DocRec {
    DocRec { accounts: doc.accounts.push(a), ..doc }
}

/// Append a closed transaction record, owned by the most recent account,
/// unless the record was poisoned.
pub open spec fn push_tx(doc: DocRec, st: TxScan, today: (int, int, int)) -> DocRec {
    match finalize_tx(st, today, doc.accounts.len() - 1) {
        Some(r) => DocRec { txs: doc.txs.push(r), ..doc },
        None => doc,
    }
}

/// The document scanner: what decoding `lines` from state `mode` with
/// the document built so far yields.  `today` fills in transaction dates
/// the input leaves out.  The end of input closes any open record; a
/// line of a new section closes an open account record and is re-read at
/// the document level.
pub open spec fn scan(
    lines: Seq<Seq<char>>,
    today: (int, int, int),
    doc: DocRec,
    mode: ScanMode,
) -> Result<DocRec, QifError>
    decreases lines.len(), mode_rank(mode),
{
    if lines.len() == 0 {
        match mode {
            ScanMode::Top => Ok(doc),
            ScanMode::Acc(a) => Ok(push_acc(doc, a)),
            ScanMode::Sec => Ok(doc),
            ScanMode::Rec(st) => Ok(push_tx(doc, st, today)),
        }
    } else {
        let t = spec_trim(lines.first());
        let rest = lines.drop_first();
        match mode {
            ScanMode::Top => if has_prefix(t, "!Account"@) {
                scan(rest, today, doc, ScanMode::Acc(init_acc()))
            } else if has_prefix(t, "!Type:"@) {
                if doc.accounts.len() == 0 {
                    Err(QifError::NoAccountContext)
                } else {
                    scan(rest, today, doc, ScanMode::Sec)
                }
            } else {
                scan(rest, today, doc, ScanMode::Top)
            },
            ScanMode::Acc(a) => if t.len() == 0 || t[0] == '!' {
                scan(lines, today, push_acc(doc, a), ScanMode::Top)
            } else if t == seq!['^'] {
                scan(rest, today, push_acc(doc, a), ScanMode::Top)
            } else {
                scan(rest, today, doc, ScanMode::Acc(acc_step(a, t)))
            },
            ScanMode::Sec => if t.len() == 0 || t[0] == '!' {
                scan(lines, today, doc, ScanMode::Top)
            } else {
                scan(lines, today, doc, ScanMode::Rec(init_tx()))
            },
            ScanMode::Rec(st) => if t == seq!['^'] {
                scan(rest, today, push_tx(doc, st, today), ScanMode::Sec)
            } else {
                scan(rest, today, doc, ScanMode::Rec(tx_step(st, t)))
            },
        }
    }
}

/// What decoding a whole text yields.
pub open spec fn spec_decode(s: Seq<char>, today: (int, int, int)) -> Result<DocRec, QifError> {
    scan(spec_lines(s), today, DocRec { accounts: Seq::empty(), txs: Seq::empty() }, ScanMode::Top)
}

/// An option of a string matches an option of its characters.
pub open spec fn opt_matches(a: Option<String>, b: Option<Seq<char>>) -> bool {
    match (a, b) {
        (Some(x), Some(y)) => x@ == y,
        (None, None) => true,
        _ => false,
    }
}

/// A built account carries exactly what its record held, a zero balance
/// and the fixed currency.
pub open spec fn acc_matches(a: Account, r: AccRec) -> bool {
    &&& a.name@ == r.name
    &&& a.account_type@ == r.kind
    &&& opt_matches(a.institution, r.institution)
    &&& a.account_number is None
    &&& a.balance@ == 0
    &&& a.currency@ == "USD"@
}

/// A built transaction carries exactly what its record held and points
/// at its owner account.
pub open spec fn tx_matches(t: Transaction, r: TxRec, accounts: Seq<Account>) -> bool {
    &&& 0 <= r.owner < accounts.len()
    &&& t.account_id == accounts[r.owner].id
    &&& t.date.year as int == r.date.0
    &&& t.date.month as int == r.date.1
    &&& t.date.day as int == r.date.2
    &&& t.amount@ == r.magnitude
    &&& t.transaction_type@ == r.kind
    &&& t.description@ == r.description
    &&& opt_matches(t.payee, r.payee)
    &&& opt_matches(t.category, r.category)
    &&& opt_matches(t.memo, r.memo)
    &&& t.cleared == r.cleared
    &&& !t.reconciled
}

/// A built document carries exactly the decoded content.
pub open spec fn doc_matches(d: FinancialData, r: DocRec) -> bool {
    &&& d.accounts@.len() == r.accounts.len()
    &&& forall|i: int|
        0 <= i < r.accounts.len() ==> acc_matches(#[trigger] d.accounts@[i], r.accounts[i])
    &&& d.transactions@.len() == r.txs.len()
    &&& forall|i: int|
        0 <= i < r.txs.len() ==> tx_matches(#[trigger] d.transactions@[i], r.txs[i], d.accounts@)
}

/// The export tag of an account kind.  The escape-hatch kind collapses
/// to the default tag: that direction is deliberately lossy.
pub open spec fn qif_tag(k: AccKind) -> Seq<char> {
    match k {
        AccKind::Checking => "Bank"@,
        AccKind::Savings => "Bank"@,
        AccKind::CreditCard => "CCard"@,
        AccKind::Investment => "Invst"@,
        AccKind::Cash => "Cash"@,
        AccKind::Liability => "Liability"@,
        AccKind::Asset => "Asset"@,
        AccKind::Other(_) => "Bank"@,
    }
}

/// The amount a transaction exports: debits carry a negative sign, every
/// other kind exports its magnitude unchanged.
pub open spec fn export_amount(t: Transaction) -> int {
    match t.transaction_type@ {
        TxKind::Debit => -t.amount@,
        _ => t.amount@,
    }
}

/// The lines of one exported account record, with the blank separator
/// line that follows it.
pub open spec fn account_lines(a: Account) -> Seq<Seq<char>> {
    seq!["!Account"@, "N"@ + a.name@, "T"@ + qif_tag(a.account_type@)] + (match a.institution {
        Some(i) => seq!["D"@ + i@],
        None => Seq::empty(),
    }) + seq![seq!['^'], Seq::<char>::empty()]
}

/// The lines of one exported transaction record: date, signed amount,
/// the optional labels in fixed order, the cleared marker only when set,
/// and the terminator.
pub open spec fn tx_lines(t: Transaction) -> Seq<Seq<char>> {
    seq![
        "D"@ + date_str(t.date.year as int, t.date.month as int, t.date.day as int),
        "T"@ + amount_str(export_amount(t)),
    ] + (match t.payee {
        Some(p) => seq!["P"@ + p@],
        None => Seq::empty(),
    }) + (match t.category {
        Some(c) => seq!["L"@ + c@],
        None => Seq::empty(),
    }) + (match t.memo {
        Some(m) => seq!["M"@ + m@],
        None => Seq::empty(),
    }) + (if t.cleared {
        seq![seq!['C', '*']]
    } else {
        Seq::empty()
    }) + seq![seq!['^']]
}

/// The lines of a run of exported transaction records.
pub open spec fn tx_lines_all(txs: Seq<Transaction>) -> Seq<Seq<char>>
    decreases txs.len(),
{
    if txs.len() == 0 {
        Seq::empty()
    } else {
        tx_lines(txs.first()) + tx_lines_all(txs.drop_first())
    }
}

/// The lines one account contributes to the export: its record, and, if
/// it owns any transactions, a type-section header, their records, and a
/// blank separator line.
pub open spec fn section_lines(d: FinancialData, k: int) -> Seq<Seq<char>> {
    let a = d.accounts@[k];
    let txs = d.transactions@.filter(|t: Transaction| t.account_id == a.id);
    account_lines(a) + (if txs.len() == 0 {
        Seq::empty()
    } else {
        seq!["!Type:"@ + qif_tag(a.account_type@)] + tx_lines_all(txs) + seq![
            Seq::<char>::empty(),
        ]
    })
}

/// The exported lines of the accounts from `k` on.
pub open spec fn export_from(d: FinancialData, k: int) -> Seq<Seq<char>>
    decreases d.accounts@.len() - k,
{
    if k < 0 || k >= d.accounts@.len() {
        Seq::empty()
    } else {
        section_lines(d, k) + export_from(d, k + 1)
    }
}

/// The full exported text of a document.
pub open spec fn export_str(d: FinancialData) -> Seq<char> {
    join_lines(export_from(d, 0))
}

/// A field that survives a trip through a tag line: it holds no newline
/// and no trailing whitespace, so the line scanner hands it back intact.
pub open spec fn field_ok(s: Seq<char>) -> bool {
    (forall|i: int| 0 <= i < s.len() ==> s[i] != '\n') && (s.len() > 0 ==> !crate::text::is_space_char(
        s.last(),
    ))
}

/// An optional field that survives the trip.
pub open spec fn opt_field_ok(o: Option<String>) -> bool {
    match o {
        Some(s) => field_ok(s@),
        None => true,
    }
}

/// A transaction in the shape the decoder itself produces: well formed,
/// of debit or credit kind, debits strictly positive, and its label
/// fields line-safe.
pub open spec fn tx_exportable(t: Transaction) -> bool {
    &&& t.wf()
    &&& (t.transaction_type@ is Debit || t.transaction_type@ is Credit)
    &&& (t.transaction_type@ is Debit ==> t.amount@ > 0)
    &&& opt_field_ok(t.payee)
    &&& opt_field_ok(t.category)
    &&& opt_field_ok(t.memo)
}

/// An account in the shape the decoder itself produces.
pub open spec fn account_exportable(a: Account) -> bool {
    field_ok(a.name@) && opt_field_ok(a.institution)
}

/// The transactions owned by account `k`, in document order.
pub open spec fn txs_of(d: FinancialData, k: int) -> Seq<Transaction> {
    d.transactions@.filter(|t: Transaction| t.account_id == d.accounts@[k].id)
}

/// The transaction list regrouped account by account.
pub open spec fn grouped_concat(d: FinancialData, k: int) -> Seq<Transaction>
    decreases d.accounts@.len() - k,
{
    if k < 0 || k >= d.accounts@.len() {
        Seq::empty()
    } else {
        txs_of(d, k) + grouped_concat(d, k + 1)
    }
}

/// A document in the shape the decoder produces: every account and
/// transaction exportable, and the transaction list grouped by account
/// in account order (which also rules out duplicate account ids).
pub open spec fn decoder_shaped(d: FinancialData) -> bool {
    &&& forall|k: int| 0 <= k < d.accounts@.len() ==> account_exportable(#[trigger] d.accounts@[k])
    &&& forall|i: int|
        0 <= i < d.transactions@.len() ==> tx_exportable(#[trigger] d.transactions@[i])
    &&& d.transactions@ == grouped_concat(d, 0)
}

/// The account kind a re-decoded export carries: the export tag read
/// back through the kind lookup.
pub open spec fn reparsed_kind(k: AccKind) -> AccKind {
    spec_account_kind(qif_tag(k))
}

/// The account record an exported account decodes back to.
pub open spec fn acc_rec_of(a: Account) -> AccRec {
    AccRec {
        name: a.name@,
        kind: reparsed_kind(a.account_type@),
        institution: (match a.institution {
            Some(i) => Some(i@),
            None => None,
        }),
    }
}

/// The description a re-decoded transaction carries: its memo, else its
/// payee, else the default.
pub open spec fn redescription(t: Transaction) -> Seq<char> {
    match t.memo {
        Some(m) => m@,
        None => match t.payee {
            Some(p) => p@,
            None => "Unknown"@,
        },
    }
}

/// The transaction record an exported transaction decodes back to.
pub open spec fn tx_rec_of(t: Transaction, owner: int) -> TxRec {
    TxRec {
        owner,
        date: (t.date.year as int, t.date.month as int, t.date.day as int),
        magnitude: t.amount@,
        kind: t.transaction_type@,
        description: redescription(t),
        payee: (match t.payee {
            Some(p) => Some(p@),
            None => None,
        }),
        category: (match t.category {
            Some(c) => Some(c@),
            None => None,
        }),
        memo: (match t.memo {
            Some(m) => Some(m@),
            None => None,
        }),
        cleared: t.cleared,
    }
}

/// The records account `k`'s transactions decode back to.
pub open spec fn bucket_recs(d: FinancialData, k: int) -> Seq<TxRec> {
    txs_of(d, k).map_values(|t: Transaction| tx_rec_of(t, k))
}

/// The account records of the accounts from `k` on.
pub open spec fn acc_recs_from(d: FinancialData, k: int) -> Seq<AccRec>
    decreases d.accounts@.len() - k,
{
    if k < 0 || k >= d.accounts@.len() {
        Seq::empty()
    } else {
        seq![acc_rec_of(d.accounts@[k])] + acc_recs_from(d, k + 1)
    }
}

/// The transaction records of the accounts from `k` on.
pub open spec fn tx_recs_from(d: FinancialData, k: int) -> Seq<TxRec>
    decreases d.accounts@.len() - k,
{
    if k < 0 || k >= d.accounts@.len() {
        Seq::empty()
    } else {
        bucket_recs(d, k) + tx_recs_from(d, k + 1)
    }
}

/// The view of an optional string.
pub open spec fn opt_view(o: Option<String>) -> Option<Seq<char>> {
    match o {
        Some(s) => Some(s@),
        None => None,
    }
}

/// The view of an optional date.
pub open spec fn opt_date_view(o: Option<Date>) -> Option<(int, int, int)> {
    match o {
        Some(d) => Some((d.year as int, d.month as int, d.day as int)),
        None => None,
    }
}

/// The in-progress fields of a transaction record being read.
struct TxBuild {
    date: Option<Date>,
    bad: bool,
    amount: Money,
    description: String,
    payee: Option<String>,
    category: Option<String>,
    memo: Option<String>,
    cleared: bool,
}

/// The accumulator a transaction builder stands for.
spec fn tx_build_view(b: TxBuild) -> TxScan {
    TxScan {
        date: opt_date_view(b.date),
        bad: b.bad,
        amount: b.amount@,
        description: b.description@,
        payee: opt_view(b.payee),
        category: opt_view(b.category),
        memo: opt_view(b.memo),
        cleared: b.cleared,
    }
}

/// Bounds a transaction builder keeps: the amount stays in range and a
/// parsed date is a real calendar day.
spec fn tx_build_wf(b: TxBuild) -> bool {
    &&& -MAX_AMOUNT_UNITS <= b.amount@ <= MAX_AMOUNT_UNITS
    &&& (match b.date {
        Some(d) => d.wf(),
        None => true,
    })
}

/// A fresh transaction builder.
fn tx_build_init() -> (b: TxBuild)
    ensures
        tx_build_view(b) == init_tx(),
        tx_build_wf(b),
{
    TxBuild {
        date: None,
        bad: false,
        amount: Money::zero(),
        description: String::from_str("Unknown"),
        payee: None,
        category: None,
        memo: None,
        cleared: false,
    }
}

/// Whether a `C` field's content marks the transaction cleared.
fn cleared_marker(c: &str) -> (r: bool)
    ensures
        r == is_cleared_marker(c@),
{
    proof {
        reveal_strlit("*");
        reveal_strlit("x");
        assert("*"@ =~= seq!['*']);
        assert("x"@ =~= seq!['x']);
    }
    if str_eq_str(c, "*") {
        true
    } else {
        let low = lower_text(c);
        str_eq_str(low.as_str(), "x")
    }
}

/// Apply one trimmed field line to a transaction builder.
fn tx_build_step(b: &mut TxBuild, t: &String)
    requires
        tx_build_wf(*old(b)),
    ensures
        tx_build_view(*final(b)) == tx_step(tx_build_view(*old(b)), t@),
        tx_build_wf(*final(b)),
{
    let n: usize = t.as_str().unicode_len();
    if n == 0 {
        return ;
    }
    let c0 = t.as_str().get_char(0);
    let content = String::from_str(t.as_str().substring_char(1, n));
    proof {
        assert(content@ =~= t@.skip(1));
    }
    if c0 == 'D' {
        match parse_date(content.as_str()) {
            Some(d) => {
                b.date = Some(d);
            },
            None => {
                b.bad = true;
            },
        }
    } else if c0 == 'T' {
        let trimmed = trim_text(content.as_str());
        match Money::parse(trimmed.as_str()) {
            Some(m) => {
                b.amount = m;
            },
            None => {
                b.bad = true;
            },
        }
    } else if c0 == 'P' {
        b.payee = Some(content.clone());
        b.description = content;
    } else if c0 == 'L' {
        b.category = Some(content);
    } else if c0 == 'M' {
        b.memo = Some(content.clone());
        b.description = content;
    } else if c0 == 'C' {
        b.cleared = cleared_marker(content.as_str());
    }
}

/// Close a transaction builder into a transaction owned by
/// `account_id`, or nothing if the record was poisoned.
fn build_tx(b: TxBuild, today: Date, account_id: u128) -> (r: Option<Transaction>)
    requires
        tx_build_wf(b),
        today.wf(),
    ensures
        ({
            let f = finalize_tx(
                tx_build_view(b),
                (today.year as int, today.month as int, today.day as int),
                0,
            );
            match r {
                Some(t) => f is Some && ({
                    let rec = f.unwrap();
                    &&& t.account_id == account_id
                    &&& t.date.year as int == rec.date.0
                    &&& t.date.month as int == rec.date.1
                    &&& t.date.day as int == rec.date.2
                    &&& t.amount@ == rec.magnitude
                    &&& t.transaction_type@ == rec.kind
                    &&& t.description@ == rec.description
                    &&& opt_matches(t.payee, rec.payee)
                    &&& opt_matches(t.category, rec.category)
                    &&& opt_matches(t.memo, rec.memo)
                    &&& t.cleared == rec.cleared
                    &&& !t.reconciled
                    &&& t.wf()
                }),
                None => f is None,
            }
        }),
{
    if b.bad {
        return None;
    }
    let d = match b.date {
        Some(d) => d,
        None => today,
    };
    let neg = b.amount.is_negative();
    let mag = b.amount.abs();
    let kind = if neg {
        TransactionType::Debit
    } else {
        TransactionType::Credit
    };
    let mut t = Transaction::new(account_id, d, mag, b.description, kind);
    t.payee = b.payee;
    t.category = b.category;
    t.memo = b.memo;
    t.cleared = b.cleared;
    Some(t)
}

/// The in-progress fields of an account record being read.
struct AccBuild {
    name: String,
    kind: AccountType,
    institution: Option<String>,
}

/// The accumulator an account builder stands for.
spec fn acc_build_view(b: AccBuild) -> AccRec {
    AccRec { name: b.name@, kind: b.kind@, institution: opt_view(b.institution) }
}

/// A fresh account builder, holding the defaults.
fn acc_build_init() -> (b: AccBuild)
    ensures
        acc_build_view(b) == init_acc(),
{
    AccBuild {
        name: String::from_str("Unknown Account"),
        kind: AccountType::Other(String::from_str("Unknown")),
        institution: None,
    }
}

/// Apply one trimmed field line to an account builder.
fn acc_build_step(b: &mut AccBuild, t: &String)
    ensures
        acc_build_view(*final(b)) == acc_step(acc_build_view(*old(b)), t@),
{
    let n: usize = t.as_str().unicode_len();
    if n == 0 {
        return ;
    }
    let c0 = t.as_str().get_char(0);
    if c0 == 'N' || c0 == 'T' || c0 == 'D' {
        let content = String::from_str(t.as_str().substring_char(1, n));
        proof {
            assert(content@ =~= t@.skip(1));
        }
        if c0 == 'N' {
            b.name = content;
        } else if c0 == 'T' {
            b.kind = QifImporter::parse_account_type(content.as_str());
        } else {
            b.institution = Some(content);
        }
    }
}

/// Close an account builder into an account.
fn build_account(b: AccBuild) -> (a: Account)
    ensures
        acc_matches(a, acc_build_view(b)),
{
    let mut a = Account::new(b.name, b.kind, Money::zero(), String::from_str("USD"));
    a.institution = b.institution;
    a
}

impl QifImporter {
    /// Decode interchange-format text into a document.  The result is
    /// exactly what the `scan` machine yields on the input's lines, with
    /// missing transaction dates filled from the current calendar day;
    /// the error comes exactly when a transaction section precedes every
    /// account section.
    pub fn parse_qif_content(content: &str) -> (r: Result<FinancialData, QifError>)
        ensures
            match r {
                Ok(d) => d.wf() && (exists|today: (int, int, int), dr: DocRec|
                    valid_date(today.0, today.1, today.2) && spec_decode(content@, today) == Ok::<
                        DocRec,
                        QifError,
                    >(dr) && doc_matches(d, dr)),
                Err(e) => exists|today: (int, int, int)|
                    valid_date(today.0, today.1, today.2) && spec_decode(content@, today)
                        == Err::<DocRec, QifError>(e),
            },
    {
        let lines = split_lines(content);
        let ghost lv = text_views(lines@);
        let (_now_ts, now_day) = crate::data::current_clock();
        let today: Date = if date_is_valid(now_day.year, now_day.month, now_day.day) {
            now_day
        } else {
            Date::new(1970, 1, 1)
        };
        let ghost tdy: (int, int, int) = (today.year as int, today.month as int, today.day as int);
        let mut fd = FinancialData::new();
        let ghost dr0 = DocRec { accounts: Seq::empty(), txs: Seq::empty() };
        let ghost mut dr = dr0;
        let ghost goal = scan(lv, tdy, dr0, ScanMode::Top);
        let n: usize = lines.len();
        let mut i: usize = 0;
        proof {
            assert(lv.skip(0) =~= lv);
        }
        while i < n
            invariant
                i <= n,
                n == lines@.len(),
                lv == text_views(lines@),
                today.wf(),
                tdy == (today.year as int, today.month as int, today.day as int),
                fd.wf(),
                doc_matches(fd, dr),
                goal == spec_decode(content@, tdy),
                goal == scan(lv.skip(i as int), tdy, dr, ScanMode::Top),
            decreases n - i,
        {
            let t = trim_text(lines[i].as_str());
            proof {
                assert(lv.skip(i as int).first() == lines@[i as int]@);
                assert(lv.skip(i as int).drop_first() =~= lv.skip(i + 1));
            }
            if starts_with_text(t.as_str(), "!Account") {
                i = i + 1;
                let ghost i0 = i;
                let mut b = acc_build_init();
                loop
                    invariant_except_break
                        goal == scan(lv.skip(i as int), tdy, dr, ScanMode::Acc(acc_build_view(b))),
                    invariant
                        i0 <= i,
                        i <= n,
                        n == lines@.len(),
                        lv == text_views(lines@),
                        today.wf(),
                        tdy == (today.year as int, today.month as int, today.day as int),
                        fd.wf(),
                        doc_matches(fd, dr),
                    ensures
                        i0 <= i <= n,
                        n == lines@.len(),
                        fd.wf(),
                        doc_matches(fd, dr),
                        goal == scan(lv.skip(i as int), tdy, dr, ScanMode::Top),
                    decreases n - i,
                {
                    if i >= n {
                        proof {
                            assert(lv.skip(i as int) =~= Seq::<Seq<char>>::empty());
                        }
                        let ghost ar = acc_build_view(b);
                        let a = build_account(b);
                        fd.add_account(a);
                        proof {
                            dr = push_acc(dr, ar);
                        }
                        break ;
                    }
                    let t = trim_text(lines[i].as_str());
                    proof {
                        assert(lv.skip(i as int).first() == lines@[i as int]@);
                        assert(lv.skip(i as int).drop_first() =~= lv.skip(i + 1));
                    }
                    let tlen: usize = t.as_str().unicode_len();
                    if tlen == 0 || t.as_str().get_char(0) == '!' {
                        let ghost ar = acc_build_view(b);
                        let a = build_account(b);
                        fd.add_account(a);
                        proof {
                            dr = push_acc(dr, ar);
                        }
                        break ;
                    }
                    proof {
                        reveal_strlit("^");
                        assert("^"@ =~= seq!['^']);
                    }
                    if str_eq_str(t.as_str(), "^") {
                        i = i + 1;
                        let ghost ar = acc_build_view(b);
                        let a = build_account(b);
                        fd.add_account(a);
                        proof {
                            dr = push_acc(dr, ar);
                        }
                        break ;
                    }
                    acc_build_step(&mut b, &t);
                    i = i + 1;
                }
            } else if starts_with_text(t.as_str(), "!Type:") {
                if fd.accounts.len() == 0 {
                    proof {
                        assert(goal == Err::<DocRec, QifError>(QifError::NoAccountContext));
                        assert(valid_date(tdy.0, tdy.1, tdy.2));
                        assert(spec_decode(content@, tdy) == Err::<DocRec, QifError>(
                            QifError::NoAccountContext,
                        ));
                    }
                    return Err(QifError::NoAccountContext);
                }
                i = i + 1;
                let ghost i0 = i;
                let owner: usize = fd.accounts.len() - 1;
                let account_id: u128 = fd.accounts[owner].id;
                loop
                    invariant_except_break
                        goal == scan(lv.skip(i as int), tdy, dr, ScanMode::Sec),
                    invariant
                        i0 <= i,
                        i <= n,
                        n == lines@.len(),
                        lv == text_views(lines@),
                        today.wf(),
                        tdy == (today.year as int, today.month as int, today.day as int),
                        fd.wf(),
                        doc_matches(fd, dr),
                        owner as int == dr.accounts.len() - 1,
                        owner < fd.accounts@.len(),
                        account_id == fd.accounts@[owner as int].id,
                    ensures
                        i0 <= i <= n,
                        n == lines@.len(),
                        fd.wf(),
                        doc_matches(fd, dr),
                        goal == scan(lv.skip(i as int), tdy, dr, ScanMode::Top),
                    decreases n - i,
                {
                    if i >= n {
                        proof {
                            assert(lv.skip(i as int) =~= Seq::<Seq<char>>::empty());
                        }
                        break ;
                    }
                    let t = trim_text(lines[i].as_str());
                    proof {
                        assert(lv.skip(i as int).first() == lines@[i as int]@);
                        assert(lv.skip(i as int).drop_first() =~= lv.skip(i + 1));
                    }
                    let tlen: usize = t.as_str().unicode_len();
                    if tlen == 0 || t.as_str().get_char(0) == '!' {
                        break ;
                    }
                    // a record begins at this line
                    let mut b = tx_build_init();
                    let ghost i_entry = i;
                    loop
                        invariant_except_break
                            tx_build_wf(b),
                            i == i_entry ==> i < n,
                            goal == scan(lv.skip(i as int), tdy, dr, ScanMode::Rec(tx_build_view(b))),
                        invariant
                            i_entry <= i,
                            i <= n,
                            n == lines@.len(),
                            lv == text_views(lines@),
                            today.wf(),
                            tdy == (today.year as int, today.month as int, today.day as int),
                            fd.wf(),
                            doc_matches(fd, dr),
                            owner as int == dr.accounts.len() - 1,
                            owner < fd.accounts@.len(),
                            account_id == fd.accounts@[owner as int].id,
                        ensures
                            i_entry < i,
                            i <= n,
                            n == lines@.len(),
                            fd.wf(),
                            doc_matches(fd, dr),
                            owner as int == dr.accounts.len() - 1,
                            owner < fd.accounts@.len(),
                            account_id == fd.accounts@[owner as int].id,
                            goal == scan(lv.skip(i as int), tdy, dr, ScanMode::Sec),
                        decreases n - i,
                    {
                        if i >= n {
                            proof {
                                assert(lv.skip(i as int) =~= Seq::<Seq<char>>::empty());
                            }
                            let ghost st = tx_build_view(b);
                            match build_tx(b, today, account_id) {
                                Some(tx) => {
                                    fd.add_transaction(tx);
                                },
                                None => {},
                            }
                            proof {
                                dr = push_tx(dr, st, tdy);
                            }
                            break ;
                        }
                        let t = trim_text(lines[i].as_str());
                        proof {
                            assert(lv.skip(i as int).first() == lines@[i as int]@);
                            assert(lv.skip(i as int).drop_first() =~= lv.skip(i + 1));
                            reveal_strlit("^");
                            assert("^"@ =~= seq!['^']);
                        }
                        if str_eq_str(t.as_str(), "^") {
                            i = i + 1;
                            let ghost st = tx_build_view(b);
                            match build_tx(b, today, account_id) {
                                Some(tx) => {
                                    fd.add_transaction(tx);
                                },
                                None => {},
                            }
                            proof {
                                dr = push_tx(dr, st, tdy);
                            }
                            break ;
                        }
                        tx_build_step(&mut b, &t);
                        i = i + 1;
                    }
                }
            } else {
                i = i + 1;
            }
        }
        proof {
            assert(lv.skip(n as int) =~= Seq::<Seq<char>>::empty());
            assert(goal == Ok::<DocRec, QifError>(dr));
            assert(valid_date(tdy.0, tdy.1, tdy.2) && spec_decode(content@, tdy) == Ok::<
                DocRec,
                QifError,
            >(dr) && doc_matches(fd, dr));
        }
        Ok(fd)
    }

    /// Read one raw date field, trying the grammar's five layouts in
    /// order; exactly the fields `parse_date_field` accepts are read.
    pub fn parse_qif_date(date_str: &str) -> (r: Option<Date>)
        ensures
            match r {
                Some(t) => parse_date_field(date_str@) == Some(
                    (t.year as int, t.month as int, t.day as int),
                ) && t.wf(),
                None => parse_date_field(date_str@) is None,
            },
    {
        parse_date(date_str)
    }

    /// The account-kind lookup used for `T` lines of account records:
    /// a fixed keyword set matched without regard to ASCII case, with
    /// unknown values kept as their original free text.
    pub fn parse_account_type(type_str: &str) -> (r: AccountType)
        ensures
            r@ == spec_account_kind(type_str@),
    {
        let low = lower_text(type_str);
        let l = low.as_str();
        if str_eq_str(l, "bank") || str_eq_str(l, "checking") {
            AccountType::Checking
        } else if str_eq_str(l, "savings") {
            AccountType::Savings
        } else if str_eq_str(l, "ccard") || str_eq_str(l, "credit") {
            AccountType::CreditCard
        } else if str_eq_str(l, "invst") || str_eq_str(l, "investment") {
            AccountType::Investment
        } else if str_eq_str(l, "cash") {
            AccountType::Cash
        } else if str_eq_str(l, "liability") {
            AccountType::Liability
        } else if str_eq_str(l, "asset") {
            AccountType::Asset
        } else {
            AccountType::Other(String::from_str(type_str))
        }
    }
}

/// Joining a single line appends one newline.
proof fn lemma_join_one(l: Seq<char>)
    ensures
        join_lines(seq![l]) == l + seq!['\n'],
{
    assert(seq![l].drop_first() =~= Seq::<Seq<char>>::empty());
    assert(l + seq!['\n'] + join_lines(Seq::<Seq<char>>::empty()) =~= l + seq!['\n']);
}

/// Every element of a filtered sequence is an element of the original.
proof fn lemma_filter_members<A>(s: Seq<A>, pred: spec_fn(A) -> bool)
    ensures
        forall|i: int|
            0 <= i < s.filter(pred).len() ==> exists|k: int|
                0 <= k < s.len() && s[k] == #[trigger] s.filter(pred)[i],
    decreases s.len(),
{
    reveal(Seq::filter);
    if s.len() > 0 {
        let dl = s.drop_last();
        lemma_filter_members(dl, pred);
        assert forall|i: int| 0 <= i < s.filter(pred).len() implies exists|k: int|
            0 <= k < s.len() && s[k] == #[trigger] s.filter(pred)[i] by {
            if i < dl.filter(pred).len() {
                let k = choose|k: int| 0 <= k < dl.len() && dl[k] == dl.filter(pred)[i];
                assert(s[k] == s.filter(pred)[i]);
            } else {
                assert(s.filter(pred)[i] == s.last());
                assert(s[s.len() - 1] == s.filter(pred)[i]);
            }
        }
    }
}

/// Append one tagged field line.
fn append_tagged(out: &mut String, tag: &str, field: &str)
    ensures
        final(out)@ == old(out)@ + (tag@ + field@) + seq!['\n'],
{
    out.append(tag);
    out.append(field);
    out.append("\n");
    proof {
        reveal_strlit("\n");
        assert(final(out)@ =~= old(out)@ + (tag@ + field@) + seq!['\n']);
    }
}

/// The text of one exported transaction record, spelled out.
spec fn tx_text(t: Transaction) -> Seq<char> {
    ("D"@ + date_str(t.date.year as int, t.date.month as int, t.date.day as int) + seq!['\n']) + (
    "T"@ + amount_str(export_amount(t)) + seq!['\n']) + (match t.payee {
        Some(p) => "P"@ + p@ + seq!['\n'],
        None => Seq::empty(),
    }) + (match t.category {
        Some(c) => "L"@ + c@ + seq!['\n'],
        None => Seq::empty(),
    }) + (match t.memo {
        Some(m) => "M"@ + m@ + seq!['\n'],
        None => Seq::empty(),
    }) + (if t.cleared {
        seq!['C', '*', '\n']
    } else {
        Seq::empty()
    }) + seq!['^', '\n']
}

/// Joining the lines of one transaction record yields its text.
#[verifier::rlimit(100)]
#[verifier::spinoff_prover]
proof fn lemma_tx_join(t: Transaction)
    ensures
        join_lines(tx_lines(t)) == tx_text(t),
{
    reveal_with_fuel(join_lines, 4);
    let d_l = "D"@ + date_str(t.date.year as int, t.date.month as int, t.date.day as int);
    let t_l = "T"@ + amount_str(export_amount(t));
    let pp = (match t.payee {
        Some(p) => seq!["P"@ + p@],
        None => Seq::<Seq<char>>::empty(),
    });
    let cc = (match t.category {
        Some(c) => seq!["L"@ + c@],
        None => Seq::<Seq<char>>::empty(),
    });
    let mm = (match t.memo {
        Some(m) => seq!["M"@ + m@],
        None => Seq::<Seq<char>>::empty(),
    });
    let cl = (if t.cleared {
        seq![seq!['C', '*']]
    } else {
        Seq::<Seq<char>>::empty()
    });
    let term = seq![seq!['^']];
    assert(tx_lines(t) == seq![d_l, t_l] + pp + cc + mm + cl + term);
    crate::text::lemma_join_concat(seq![d_l, t_l], pp);
    crate::text::lemma_join_concat(seq![d_l, t_l] + pp, cc);
    crate::text::lemma_join_concat(seq![d_l, t_l] + pp + cc, mm);
    crate::text::lemma_join_concat(seq![d_l, t_l] + pp + cc + mm, cl);
    crate::text::lemma_join_concat(seq![d_l, t_l] + pp + cc + mm + cl, term);
    assert(seq![d_l, t_l].drop_first() =~= seq![t_l]);
    lemma_join_one(t_l);
    lemma_join_one(seq!['^']);
    match t.payee {
        Some(p) => {
            lemma_join_one("P"@ + p@);
        },
        None => {},
    }
    match t.category {
        Some(c) => {
            lemma_join_one("L"@ + c@);
        },
        None => {},
    }
    match t.memo {
        Some(m) => {
            lemma_join_one("M"@ + m@);
        },
        None => {},
    }
    if t.cleared {
        lemma_join_one(seq!['C', '*']);
    }
    assert(join_lines(tx_lines(t)) =~= tx_text(t));
}

/// Append one exported transaction record.
#[verifier::rlimit(100)]
#[verifier::spinoff_prover]
fn append_tx_record(out: &mut String, t: &Transaction)
    requires
        t.wf(),
    ensures
        final(out)@ == old(out)@ + join_lines(tx_lines(*t)),
{
    let ghost out0 = out@;
    let ghost c1 = "D"@ + date_str(t.date.year as int, t.date.month as int, t.date.day as int)
        + seq!['\n'];
    let ghost c2 = "T"@ + amount_str(export_amount(*t)) + seq!['\n'];
    out.append("D");
    crate::dates::append_date(out, &t.date);
    out.append("\n");
    proof {
        reveal_strlit("\n");
        assert(out@ =~= out0 + c1);
    }
    let amt: Money = match t.transaction_type {
        TransactionType::Debit => t.amount.neg(),
        _ => t.amount,
    };
    let astr = amt.to_amount_string();
    append_tagged(out, "T", astr.as_str());
    proof {
        assert(out@ =~= out0 + c1 + c2);
    }
    let ghost c3 = (match &t.payee {
        Some(p) => "P"@ + p@ + seq!['\n'],
        None => Seq::<char>::empty(),
    });
    match &t.payee {
        Some(p) => append_tagged(out, "P", p.as_str()),
        None => {},
    }
    proof {
        assert(out@ =~= out0 + c1 + c2 + c3);
    }
    let ghost c4 = (match &t.category {
        Some(c) => "L"@ + c@ + seq!['\n'],
        None => Seq::<char>::empty(),
    });
    match &t.category {
        Some(c) => append_tagged(out, "L", c.as_str()),
        None => {},
    }
    proof {
        assert(out@ =~= out0 + c1 + c2 + c3 + c4);
    }
    let ghost c5 = (match &t.memo {
        Some(m) => "M"@ + m@ + seq!['\n'],
        None => Seq::<char>::empty(),
    });
    match &t.memo {
        Some(m) => append_tagged(out, "M", m.as_str()),
        None => {},
    }
    proof {
        assert(out@ =~= out0 + c1 + c2 + c3 + c4 + c5);
    }
    let ghost c6 = (if t.cleared {
        seq!['C', '*', '\n']
    } else {
        Seq::<char>::empty()
    });
    if t.cleared {
        out.append("C*");
        out.append("\n");
    }
    proof {
        reveal_strlit("C*");
        assert(out@ =~= out0 + c1 + c2 + c3 + c4 + c5 + c6);
    }
    out.append("^");
    out.append("\n");
    proof {
        reveal_strlit("^");
        lemma_tx_join(*t);
        assert(tx_text(*t) =~= c1 + c2 + c3 + c4 + c5 + c6 + seq!['^', '\n']);
        assert(final(out)@ =~= out0 + tx_text(*t));
    }
}

/// Append one exported account record and its blank separator line.
#[verifier::rlimit(100)]
#[verifier::spinoff_prover]
fn append_account_record(out: &mut String, a: &Account)
    ensures
        final(out)@ == old(out)@ + join_lines(account_lines(*a)),
{
    let ghost out0 = out@;
    out.append("!Account");
    out.append("\n");
    append_tagged(out, "N", a.name.as_str());
    let tag = QifExporter::account_type_to_qif(&a.account_type);
    append_tagged(out, "T", tag);
    match &a.institution {
        Some(inst) => append_tagged(out, "D", inst.as_str()),
        None => {},
    }
    out.append("^");
    out.append("\n");
    out.append("\n");
    proof {
        reveal_with_fuel(join_lines, 5);
        reveal_strlit("\n");
        reveal_strlit("^");
        let ii = (match &a.institution {
            Some(i) => seq!["D"@ + i@],
            None => Seq::<Seq<char>>::empty(),
        });
        let tail = seq![seq!['^'], Seq::<char>::empty()];
        let h3 = seq!["!Account"@, "N"@ + a.name@, "T"@ + qif_tag(a.account_type@)];
        assert(account_lines(*a) == h3 + ii + tail);
        crate::text::lemma_join_concat(h3, ii);
        crate::text::lemma_join_concat(h3 + ii, tail);
        assert(h3.drop_first() =~= seq!["N"@ + a.name@, "T"@ + qif_tag(a.account_type@)]);
        assert(seq!["N"@ + a.name@, "T"@ + qif_tag(a.account_type@)].drop_first() =~= seq![
            "T"@ + qif_tag(a.account_type@),
        ]);
        lemma_join_one("T"@ + qif_tag(a.account_type@));
        assert(join_lines(h3) =~= "!Account"@ + seq!['\n'] + ("N"@ + a.name@ + seq!['\n'] + ("T"@
            + qif_tag(a.account_type@) + seq!['\n'])));
        match &a.institution {
            Some(i) => {
                lemma_join_one("D"@ + i@);
            },
            None => {},
        }
        assert(tail.drop_first() =~= seq![Seq::<char>::empty()]);
        lemma_join_one(Seq::<char>::empty());
        assert(join_lines(tail) =~= seq!['^'] + seq!['\n'] + (Seq::<char>::empty() + seq!['\n']));
        assert("^"@ =~= seq!['^']);
        assert(final(out)@ =~= out0 + join_lines(account_lines(*a)));
    }
}

impl QifExporter {
    /// The export tag of an account kind; the escape-hatch kind
    /// collapses to the default tag.
    pub fn account_type_to_qif(account_type: &AccountType) -> (r: &'static str)
        ensures
            r@ == qif_tag(account_type@),
    {
        match account_type {
            AccountType::Checking => "Bank",
            AccountType::Savings => "Bank",
            AccountType::CreditCard => "CCard",
            AccountType::Investment => "Invst",
            AccountType::Cash => "Cash",
            AccountType::Liability => "Liability",
            AccountType::Asset => "Asset",
            AccountType::Other(_) => "Bank",
        }
    }

    /// Encode a document: for each account its record, then, when it
    /// owns transactions, a type section holding their records in
    /// document order.  The output is exactly `export_str` of the
    /// document, and re-decodes to an equivalent document (see
    /// `lemma_export_import_round_trip`).
    #[verifier::rlimit(60)]
    pub fn export_to_string(data: &FinancialData) -> (r: Result<String, QifError>)
        requires
            forall|i: int|
                0 <= i < data.transactions@.len() ==> (#[trigger] data.transactions@[i]).wf(),
        ensures
            match r {
                Ok(s) => s@ == export_str(*data),
                Err(_) => false,
            },
    {
        let ghost d = *data;
        let mut out = String::new();
        let n: usize = data.accounts.len();
        let mut k: usize = 0;
        while k < n
            invariant
                k <= n,
                n == data.accounts@.len(),
                d == *data,
                forall|i: int|
                    0 <= i < data.transactions@.len() ==> (#[trigger] data.transactions@[i]).wf(),
                export_str(d) == out@ + join_lines(export_from(d, k as int)),
            decreases n - k,
        {
            let ghost out0 = out@;
            let a = &data.accounts[k];
            append_account_record(&mut out, a);
            let ghost mid = out@;
            let txs = data.get_account_transactions(a.id);
            let ghost pred = |t: Transaction| t.account_id == a.id;
            proof {
                lemma_filter_members(data.transactions@, pred);
                assert(forall|j: int|
                    0 <= j < txs@.len() ==> (#[trigger] txs@[j]).wf()) by {
                    assert forall|j: int| 0 <= j < txs@.len() implies (#[trigger] txs@[j]).wf() by {
                        let kk = choose|kk: int|
                            0 <= kk < data.transactions@.len() && data.transactions@[kk] == txs@[j];
                        assert(data.transactions@[kk].wf());
                    }
                }
            }
            if txs.len() > 0 {
                let tag2 = QifExporter::account_type_to_qif(&a.account_type);
                append_tagged(&mut out, "!Type:", tag2);
                let ghost sec0 = out@;
                let m: usize = txs.len();
                let mut j: usize = 0;
                proof {
                    assert(txs@.skip(0) =~= txs@);
                }
                while j < m
                    invariant
                        j <= m,
                        m == txs@.len(),
                        forall|jj: int| 0 <= jj < txs@.len() ==> (#[trigger] txs@[jj]).wf(),
                        sec0 + join_lines(tx_lines_all(txs@)) == out@ + join_lines(
                            tx_lines_all(txs@.skip(j as int)),
                        ),
                    decreases m - j,
                {
                    let t = &txs[j];
                    proof {
                        assert(txs@.skip(j as int).first() == txs@[j as int]);
                        assert(txs@.skip(j as int).drop_first() =~= txs@.skip(j + 1));
                        crate::text::lemma_join_concat(
                            tx_lines(txs@[j as int]),
                            tx_lines_all(txs@.skip(j + 1)),
                        );
                    }
                    append_tx_record(&mut out, t);
                    j = j + 1;
                }
                proof {
                    assert(txs@.skip(m as int) =~= Seq::<Transaction>::empty());
                    assert(join_lines(tx_lines_all(Seq::<Transaction>::empty()))
                        =~= Seq::<char>::empty());
                    assert(out@ =~= sec0 + join_lines(tx_lines_all(txs@)));
                }
                out.append("\n");
                proof {
                    reveal_strlit("\n");
                    let hdr = seq!["!Type:"@ + qif_tag(a.account_type@)];
                    let blank = seq![Seq::<char>::empty()];
                    assert(section_lines(d, k as int) == account_lines(*a) + (hdr + tx_lines_all(
                        txs@,
                    ) + blank));
                    crate::text::lemma_join_concat(
                        account_lines(*a),
                        hdr + tx_lines_all(txs@) + blank,
                    );
                    crate::text::lemma_join_concat(hdr, tx_lines_all(txs@));
                    crate::text::lemma_join_concat(hdr + tx_lines_all(txs@), blank);
                    lemma_join_one("!Type:"@ + qif_tag(a.account_type@));
                    lemma_join_one(Seq::<char>::empty());
                    assert(out@ =~= out0 + join_lines(section_lines(d, k as int)));
                }
            } else {
                proof {
                    assert(section_lines(d, k as int) == account_lines(*a)
                        + Seq::<Seq<char>>::empty());
                    assert(section_lines(d, k as int) =~= account_lines(*a));
                    assert(out@ =~= out0 + join_lines(section_lines(d, k as int)));
                }
            }
            proof {
                crate::text::lemma_join_concat(
                    section_lines(d, k as int),
                    export_from(d, k + 1),
                );
                assert(export_from(d, k as int) == section_lines(d, k as int) + export_from(
                    d,
                    k + 1,
                ));
            }
            k = k + 1;
        }
        proof {
            assert(join_lines(export_from(d, n as int)) =~= Seq::<char>::empty());
            assert(out@ =~= export_str(d));
        }
        Ok(out)
    }
}


/// A string without apostrophes is unchanged by stripping them.
proof fn lemma_strip_quotes_noop(s: Seq<char>)
    requires
        forall|i: int| 0 <= i < s.len() ==> s[i] != '\'',
    ensures
        crate::text::strip_quotes(s) == s,
    decreases s.len(),
{
    if s.len() > 0 {
        lemma_strip_quotes_noop(s.drop_last());
        assert(crate::text::strip_quotes(s) =~= s);
    }
}

/// Fold of the transaction field step over a run of lines.
spec fn tx_steps(st: TxScan, lines: Seq<Seq<char>>) -> TxScan
    decreases lines.len(),
{
    if lines.len() == 0 {
        st
    } else {
        tx_steps(tx_step(st, lines.first()), lines.drop_first())
    }
}

/// Fold of the account field step over a run of lines.
spec fn acc_steps(st: AccRec, lines: Seq<Seq<char>>) -> AccRec
    decreases lines.len(),
{
    if lines.len() == 0 {
        st
    } else {
        acc_steps(acc_step(st, lines.first()), lines.drop_first())
    }
}

/// Folding over a concatenation folds each part in turn.
proof fn lemma_tx_steps_concat(st: TxScan, a: Seq<Seq<char>>, b: Seq<Seq<char>>)
    ensures
        tx_steps(st, a + b) == tx_steps(tx_steps(st, a), b),
    decreases a.len(),
{
    if a.len() == 0 {
        assert(a + b =~= b);
    } else {
        assert((a + b).first() == a.first());
        assert((a + b).drop_first() =~= a.drop_first() + b);
        lemma_tx_steps_concat(tx_step(st, a.first()), a.drop_first(), b);
    }
}

/// Folding over a concatenation folds each part in turn.
proof fn lemma_acc_steps_concat(st: AccRec, a: Seq<Seq<char>>, b: Seq<Seq<char>>)
    ensures
        acc_steps(st, a + b) == acc_steps(acc_steps(st, a), b),
    decreases a.len(),
{
    if a.len() == 0 {
        assert(a + b =~= b);
    } else {
        assert((a + b).first() == a.first());
        assert((a + b).drop_first() =~= a.drop_first() + b);
        lemma_acc_steps_concat(acc_step(st, a.first()), a.drop_first(), b);
    }
}

/// A line the record scanner treats as a plain field: already trimmed
/// and not the terminator.
spec fn rec_field_line(l: Seq<Seq<char>>, i: int) -> bool {
    spec_trim(l[i]) == l[i] && l[i] != seq!['^']
}

/// The scanner walks a run of field lines of a transaction record by
/// folding the field step.
proof fn lemma_scan_tx_fields(
    lines: Seq<Seq<char>>,
    rest: Seq<Seq<char>>,
    today: (int, int, int),
    doc: DocRec,
    st: TxScan,
)
    requires
        forall|i: int| 0 <= i < lines.len() ==> #[trigger] rec_field_line(lines, i),
    ensures
        scan(lines + rest, today, doc, ScanMode::Rec(st)) == scan(
            rest,
            today,
            doc,
            ScanMode::Rec(tx_steps(st, lines)),
        ),
    decreases lines.len(),
{
    if lines.len() == 0 {
        assert(lines + rest =~= rest);
    } else {
        let w = lines + rest;
        assert(w.first() == lines.first());
        assert(w.drop_first() =~= lines.drop_first() + rest);
        assert(rec_field_line(lines, 0));
        assert(w.len() > 0);
        let d = lines.drop_first();
        assert(forall|i: int| 0 <= i < d.len() ==> d[i] == lines[i + 1]);
        assert(forall|i: int|
            0 <= i < d.len() ==> #[trigger] rec_field_line(d, i) == rec_field_line(lines, i + 1));
        lemma_scan_tx_fields(d, rest, today, doc, tx_step(st, lines.first()));
    }
}

/// A line the account record scanner treats as a plain field: already
/// trimmed, non-empty, no section sentinel, not the terminator.
spec fn acc_field_line(l: Seq<Seq<char>>, i: int) -> bool {
    spec_trim(l[i]) == l[i] && l[i].len() > 0 && l[i][0] != '!' && l[i] != seq!['^']
}

/// The scanner walks a run of field lines of an account record by
/// folding the field step.
proof fn lemma_scan_acc_fields(
    lines: Seq<Seq<char>>,
    rest: Seq<Seq<char>>,
    today: (int, int, int),
    doc: DocRec,
    st: AccRec,
)
    requires
        forall|i: int| 0 <= i < lines.len() ==> #[trigger] acc_field_line(lines, i),
    ensures
        scan(lines + rest, today, doc, ScanMode::Acc(st)) == scan(
            rest,
            today,
            doc,
            ScanMode::Acc(acc_steps(st, lines)),
        ),
    decreases lines.len(),
{
    if lines.len() == 0 {
        assert(lines + rest =~= rest);
    } else {
        let w = lines + rest;
        assert(w.first() == lines.first());
        assert(w.drop_first() =~= lines.drop_first() + rest);
        assert(acc_field_line(lines, 0));
        let d = lines.drop_first();
        assert(forall|i: int| 0 <= i < d.len() ==> d[i] == lines[i + 1]);
        assert(forall|i: int|
            0 <= i < d.len() ==> #[trigger] acc_field_line(d, i) == acc_field_line(lines, i + 1));
        lemma_scan_acc_fields(d, rest, today, doc, acc_step(st, lines.first()));
    }
}


/// Every character of a canonical date text is a digit or a slash.
proof fn lemma_date_str_chars(y: int, m: int, d: int)
    requires
        valid_date(y, m, d),
    ensures
        date_str(y, m, d).len() == 10,
        forall|i: int|
            0 <= i < date_str(y, m, d).len() ==> crate::text::is_digit_char(
                #[trigger] date_str(y, m, d)[i],
            ) || date_str(y, m, d)[i] == '/',
{
    crate::text::lemma_pad_str_wf(m as nat);
    crate::text::lemma_pad_str_wf(d as nat);
    crate::text::lemma_pad_str_wf(y as nat);
    let s = date_str(y, m, d);
    let f1 = crate::text::pad2_str(m as nat);
    let f2 = crate::text::pad2_str(d as nat);
    let f3 = crate::text::pad4_str(y as nat);
    assert(forall|i: int| 0 <= i < 2 ==> s[i] == f1[i]);
    assert(s[2] == '/');
    assert(forall|i: int| 3 <= i < 5 ==> s[i] == f2[i - 3]);
    assert(s[5] == '/');
    assert(forall|i: int| 6 <= i < 10 ==> s[i] == f3[i - 6]);
}

/// Every character of a canonical amount text is a digit, a dot, or a
/// leading minus sign.
proof fn lemma_amount_str_chars(v: int)
    ensures
        amount_str(v).len() > 0,
        forall|i: int|
            0 <= i < amount_str(v).len() ==> crate::text::is_digit_char(#[trigger] amount_str(v)[i])
                || amount_str(v)[i] == '.' || amount_str(v)[i] == '-',
{
    let mv = if v < 0 {
        -v
    } else {
        v
    };
    let whole = (mv / (crate::money::UNIT_SCALE as int)) as nat;
    let frac = mv % (crate::money::UNIT_SCALE as int);
    vstd::arithmetic::div_mod::lemma_mod_bound(mv, crate::money::UNIT_SCALE as int);
    crate::text::lemma_uint_str_wf(whole);
    crate::text::lemma_pad_str_wf((frac / 100) as nat);
    crate::text::lemma_pad_str_wf(frac as nat);
    let w = crate::text::uint_str(whole);
    let f = if frac % 100 == 0 {
        crate::text::pad2_str((frac / 100) as nat)
    } else {
        crate::text::pad4_str(frac as nat)
    };
    let ms = crate::money::mag_str(mv);
    assert(ms == w + seq!['.'] + f);
    assert(forall|i: int| 0 <= i < w.len() ==> ms[i] == w[i]);
    assert(ms[w.len() as int] == '.');
    assert(forall|i: int| w.len() + 1 <= i < ms.len() ==> ms[i] == f[i - w.len() - 1]);
    assert(forall|i: int|
        0 <= i < ms.len() ==> crate::text::is_digit_char(#[trigger] ms[i]) || ms[i] == '.');
    if v < 0 {
        let a = amount_str(v);
        assert(a == seq!['-'] + ms);
        assert(a[0] == '-');
        assert(forall|i: int| 1 <= i < a.len() ==> a[i] == ms[i - 1]);
    }
}

/// A digit, dot, slash, hyphen, letter or star is neither whitespace,
/// a newline, nor an apostrophe; so tag lines built from such fields
/// are already trimmed and quote-free.
proof fn lemma_digit_not_special(c: char)
    requires
        crate::text::is_digit_char(c) || c == '.' || c == '/' || c == '-',
    ensures
        !crate::text::is_space_char(c),
        c != '\n',
        c != '\'',
        c != '^',
{
}

/// The account tag texts: line-safe, non-empty, at least four
/// characters, never starting with an exclamation mark, and free of
/// newlines, apostrophes and edge whitespace.
proof fn lemma_tag_chars(k: AccKind)
    ensures
        qif_tag(k).len() >= 4,
        forall|i: int|
            0 <= i < qif_tag(k).len() ==> (#[trigger] qif_tag(k)[i]) != '\n' && !crate::text::is_space_char(
                qif_tag(k)[i],
            ),
        qif_tag(k)[0] != '!',
        qif_tag(k)[0] != '^',
{
    reveal_strlit("Bank");
    reveal_strlit("CCard");
    reveal_strlit("Invst");
    reveal_strlit("Cash");
    reveal_strlit("Liability");
    reveal_strlit("Asset");
}


/// One-line folds, spelled out.
proof fn lemma_tx_steps_one(st: TxScan, l: Seq<char>)
    ensures
        tx_steps(st, seq![l]) == tx_step(st, l),
        tx_steps(st, Seq::<Seq<char>>::empty()) == st,
{
    assert(seq![l].drop_first() =~= Seq::<Seq<char>>::empty());
    assert(seq![l].first() == l);
    assert(tx_steps(tx_step(st, l), Seq::<Seq<char>>::empty()) == tx_step(st, l));
}

/// Scanning one exported transaction record from a section boundary
/// consumes exactly its lines and appends exactly its record.
#[verifier::rlimit(100)]
#[verifier::spinoff_prover]
proof fn lemma_scan_tx_record(
    t: Transaction,
    rest: Seq<Seq<char>>,
    today: (int, int, int),
    doc: DocRec,
)
    requires
        tx_exportable(t),
        doc.accounts.len() >= 1,
    ensures
        scan(tx_lines(t) + rest, today, doc, ScanMode::Sec) == scan(
            rest,
            today,
            DocRec { txs: doc.txs.push(tx_rec_of(t, doc.accounts.len() - 1)), ..doc },
            ScanMode::Sec,
        ),
{
    reveal_strlit("D");
    reveal_strlit("T");
    reveal_strlit("P");
    reveal_strlit("L");
    reveal_strlit("M");
    let y = t.date.year as int;
    let mo = t.date.month as int;
    let dd = t.date.day as int;
    let ds = date_str(y, mo, dd);
    let va = export_amount(t);
    let am = amount_str(va);
    let dl = "D"@ + ds;
    let tl = "T"@ + am;
    let pp = (match t.payee {
        Some(p) => seq!["P"@ + p@],
        None => Seq::<Seq<char>>::empty(),
    });
    let cc = (match t.category {
        Some(c) => seq!["L"@ + c@],
        None => Seq::<Seq<char>>::empty(),
    });
    let mm = (match t.memo {
        Some(m) => seq!["M"@ + m@],
        None => Seq::<Seq<char>>::empty(),
    });
    let cl = (if t.cleared {
        seq![seq!['C', '*']]
    } else {
        Seq::<Seq<char>>::empty()
    });
    let term = seq![seq!['^']];
    lemma_date_str_chars(y, mo, dd);
    lemma_amount_str_chars(va);
    assert(forall|i: int|
        0 <= i < ds.len() ==> !crate::text::is_space_char(#[trigger] ds[i]) && ds[i] != '\'') by {
        assert forall|i: int|
            0 <= i < ds.len() implies !crate::text::is_space_char(#[trigger] ds[i]) && ds[i]
            != '\'' by {
            lemma_digit_not_special(ds[i]);
        }
    }
    assert(forall|i: int| 0 <= i < am.len() ==> !crate::text::is_space_char(#[trigger] am[i])) by {
        assert forall|i: int|
            0 <= i < am.len() implies !crate::text::is_space_char(#[trigger] am[i]) by {
            lemma_digit_not_special(am[i]);
        }
    }
    // every field line is already trimmed and is not the terminator
    assert(spec_trim(dl) == dl) by {
        assert(dl.first() == 'D');
        assert(dl.last() == ds.last());
        crate::text::lemma_trim_noop(dl);
    }
    assert(spec_trim(tl) == tl) by {
        assert(tl.first() == 'T');
        assert(tl.last() == am.last());
        crate::text::lemma_trim_noop(tl);
    }
    match t.payee {
        Some(p) => {
            let l = "P"@ + p@;
            assert(l.first() == 'P');
            assert(spec_trim(l) == l) by {
                if p@.len() > 0 {
                    assert(l.last() == p@.last());
                }
                crate::text::lemma_trim_noop(l);
            }
        },
        None => {},
    }
    match t.category {
        Some(c) => {
            let l = "L"@ + c@;
            assert(l.first() == 'L');
            assert(spec_trim(l) == l) by {
                if c@.len() > 0 {
                    assert(l.last() == c@.last());
                }
                crate::text::lemma_trim_noop(l);
            }
        },
        None => {},
    }
    match t.memo {
        Some(m) => {
            let l = "M"@ + m@;
            assert(l.first() == 'M');
            assert(spec_trim(l) == l) by {
                if m@.len() > 0 {
                    assert(l.last() == m@.last());
                }
                crate::text::lemma_trim_noop(l);
            }
        },
        None => {},
    }
    if t.cleared {
        let l = seq!['C', '*'];
        assert(spec_trim(l) == l) by {
            crate::text::lemma_trim_noop(l);
        }
    }
    // the whole record reassociated segment by segment
    let r5 = term + rest;
    let r4 = cl + r5;
    let r3 = mm + r4;
    let r2 = cc + r3;
    let r1 = pp + r2;
    let w = tx_lines(t) + rest;
    assert(w =~= seq![dl, tl] + r1);
    // entering the record at the date line
    assert(w.first() == dl);
    assert(spec_trim(w.first()) == dl);
    assert(dl.len() > 0 && dl[0] == 'D' && dl[0] != '!');
    assert(dl != seq!['^']);
    assert(scan(w, today, doc, ScanMode::Sec) == scan(w, today, doc, ScanMode::Rec(init_tx())));
    // walking the field lines
    let head2 = seq![dl, tl];
    assert(forall|i: int| 0 <= i < 2 ==> #[trigger] rec_field_line(head2, i)) by {
        assert(head2[0] == dl && head2[1] == tl);
        assert(tl != seq!['^']);
    }
    lemma_scan_tx_fields(head2, r1, today, doc, init_tx());
    let st1 = tx_steps(init_tx(), head2);
    assert(forall|i: int| 0 <= i < pp.len() ==> #[trigger] rec_field_line(pp, i));
    lemma_scan_tx_fields(pp, r2, today, doc, st1);
    let st2 = tx_steps(st1, pp);
    assert(forall|i: int| 0 <= i < cc.len() ==> #[trigger] rec_field_line(cc, i));
    lemma_scan_tx_fields(cc, r3, today, doc, st2);
    let st3 = tx_steps(st2, cc);
    assert(forall|i: int| 0 <= i < mm.len() ==> #[trigger] rec_field_line(mm, i));
    lemma_scan_tx_fields(mm, r4, today, doc, st3);
    let st4 = tx_steps(st3, mm);
    assert(forall|i: int| 0 <= i < cl.len() ==> #[trigger] rec_field_line(cl, i));
    lemma_scan_tx_fields(cl, r5, today, doc, st4);
    let st5 = tx_steps(st4, cl);
    // the terminator closes the record
    assert(r5.first() == seq!['^']);
    assert(spec_trim(seq!['^']) == seq!['^']) by {
        crate::text::lemma_trim_noop(seq!['^']);
    }
    assert(r5.drop_first() =~= rest);
    assert(scan(r5, today, doc, ScanMode::Rec(st5)) == scan(
        rest,
        today,
        push_tx(doc, st5, today),
        ScanMode::Sec,
    ));
    // now evaluate the accumulated state
    assert(head2.drop_first() =~= seq![tl]);
    lemma_tx_steps_one(tx_step(init_tx(), dl), tl);
    let sta = tx_step(init_tx(), dl);
    assert(dl[0] == 'D');
    assert(dl.skip(1) =~= ds);
    crate::text::lemma_trim_noop(ds);
    lemma_strip_quotes_noop(ds);
    crate::dates::lemma_date_roundtrip(y, mo, dd);
    assert(parse_date_field(ds) == Some((y, mo, dd)));
    assert(sta == TxScan { date: Some((y, mo, dd)), ..init_tx() });
    let stb = tx_step(sta, tl);
    assert(tl[0] == 'T');
    assert(tl[0] != 'D');
    assert(tl.skip(1) =~= am);
    crate::text::lemma_trim_noop(am);
    crate::money::lemma_amount_roundtrip(va);
    assert(stb == TxScan { date: Some((y, mo, dd)), amount: va, ..init_tx() });
    assert(st1 == stb);
    match t.payee {
        Some(p) => {
            lemma_tx_steps_one(st1, "P"@ + p@);
            assert(("P"@ + p@)[0] == 'P');
            assert(("P"@ + p@).skip(1) =~= p@);
        },
        None => {
            lemma_tx_steps_one(st1, seq!['^']);
        },
    }
    match t.category {
        Some(c) => {
            lemma_tx_steps_one(st2, "L"@ + c@);
            assert(("L"@ + c@)[0] == 'L');
            assert(("L"@ + c@).skip(1) =~= c@);
        },
        None => {},
    }
    match t.memo {
        Some(m) => {
            lemma_tx_steps_one(st3, "M"@ + m@);
            assert(("M"@ + m@)[0] == 'M');
            assert(("M"@ + m@).skip(1) =~= m@);
        },
        None => {},
    }
    if t.cleared {
        lemma_tx_steps_one(st4, seq!['C', '*']);
        assert(seq!['C', '*'][0] == 'C');
        assert(seq!['C', '*'].skip(1) =~= seq!['*']);
        assert(is_cleared_marker(seq!['*']));
    }
    assert(st5.bad == false);
    assert(st5.date == Some((y, mo, dd)));
    assert(st5.amount == va);
    assert(st5.cleared == t.cleared);
    let rec = finalize_tx(st5, today, doc.accounts.len() - 1);
    assert(rec == Some(tx_rec_of(t, doc.accounts.len() - 1)));
    assert(push_tx(doc, st5, today) == (DocRec {
        txs: doc.txs.push(tx_rec_of(t, doc.accounts.len() - 1)),
        ..doc
    }));
}


/// Scanning a run of exported transaction records appends exactly
/// their records.
proof fn lemma_scan_tx_list(
    txs: Seq<Transaction>,
    owner: int,
    rest: Seq<Seq<char>>,
    today: (int, int, int),
    doc: DocRec,
)
    requires
        forall|i: int| 0 <= i < txs.len() ==> tx_exportable(#[trigger] txs[i]),
        doc.accounts.len() >= 1,
        owner == doc.accounts.len() - 1,
    ensures
        scan(tx_lines_all(txs) + rest, today, doc, ScanMode::Sec) == scan(
            rest,
            today,
            DocRec { txs: doc.txs + txs.map_values(|t: Transaction| tx_rec_of(t, owner)), ..doc },
            ScanMode::Sec,
        ),
    decreases txs.len(),
{
    if txs.len() == 0 {
        assert(tx_lines_all(txs) + rest =~= rest);
        assert(doc.txs + txs.map_values(|t: Transaction| tx_rec_of(t, owner)) =~= doc.txs);
    } else {
        let t0 = txs.first();
        let d = txs.drop_first();
        assert(tx_exportable(txs[0]));
        assert(tx_lines_all(txs) + rest =~= tx_lines(t0) + (tx_lines_all(d) + rest));
        lemma_scan_tx_record(t0, tx_lines_all(d) + rest, today, doc);
        let doc1 = DocRec { txs: doc.txs.push(tx_rec_of(t0, owner)), ..doc };
        assert(forall|i: int| 0 <= i < d.len() ==> d[i] == txs[i + 1]);
        lemma_scan_tx_list(d, owner, rest, today, doc1);
        assert(doc1.txs + d.map_values(|t: Transaction| tx_rec_of(t, owner)) =~= doc.txs
            + txs.map_values(|t: Transaction| tx_rec_of(t, owner)));
    }
}

/// One-line folds of the account step, spelled out.
proof fn lemma_acc_steps_one(st: AccRec, l: Seq<char>)
    ensures
        acc_steps(st, seq![l]) == acc_step(st, l),
        acc_steps(st, Seq::<Seq<char>>::empty()) == st,
{
    assert(seq![l].drop_first() =~= Seq::<Seq<char>>::empty());
    assert(seq![l].first() == l);
    assert(acc_steps(acc_step(st, l), Seq::<Seq<char>>::empty()) == acc_step(st, l));
}

/// Scanning one account's whole contribution (its record, and its
/// transaction section when it owns transactions) appends exactly its
/// account record and its transactions' records.
#[verifier::rlimit(100)]
#[verifier::spinoff_prover]
proof fn lemma_scan_account_section(
    d: FinancialData,
    k: int,
    rest: Seq<Seq<char>>,
    today: (int, int, int),
    doc: DocRec,
)
    requires
        0 <= k < d.accounts@.len(),
        account_exportable(d.accounts@[k]),
        forall|i: int|
            0 <= i < d.transactions@.len() ==> tx_exportable(#[trigger] d.transactions@[i]),
        doc.accounts.len() == k,
    ensures
        scan(section_lines(d, k) + rest, today, doc, ScanMode::Top) == scan(
            rest,
            today,
            DocRec {
                accounts: doc.accounts.push(acc_rec_of(d.accounts@[k])),
                txs: doc.txs + bucket_recs(d, k),
            },
            ScanMode::Top,
        ),
{
    reveal_strlit("!Account");
    reveal_strlit("!Type:");
    reveal_strlit("N");
    reveal_strlit("T");
    reveal_strlit("D");
    let a = d.accounts@[k];
    let bucket = d.transactions@.filter(|t: Transaction| t.account_id == a.id);
    let nl = "N"@ + a.name@;
    let tagl = "T"@ + qif_tag(a.account_type@);
    let ii = (match a.institution {
        Some(i) => seq!["D"@ + i@],
        None => Seq::<Seq<char>>::empty(),
    });
    let term = seq![seq!['^']];
    let blank = seq![Seq::<char>::empty()];
    lemma_tag_chars(a.account_type@);
    // every field line is trimmed already
    assert(spec_trim("!Account"@) == "!Account"@) by {
        crate::text::lemma_trim_noop("!Account"@);
    }
    assert(spec_trim(nl) == nl) by {
        assert(nl.first() == 'N');
        if a.name@.len() > 0 {
            assert(nl.last() == a.name@.last());
        }
        crate::text::lemma_trim_noop(nl);
    }
    assert(spec_trim(tagl) == tagl) by {
        assert(tagl.first() == 'T');
        assert(tagl.last() == qif_tag(a.account_type@).last());
        crate::text::lemma_trim_noop(tagl);
    }
    match a.institution {
        Some(i) => {
            let l = "D"@ + i@;
            assert(l.first() == 'D');
            assert(spec_trim(l) == l) by {
                if i@.len() > 0 {
                    assert(l.last() == i@.last());
                }
                crate::text::lemma_trim_noop(l);
            }
        },
        None => {},
    }
    assert(spec_trim(seq!['^']) == seq!['^']) by {
        crate::text::lemma_trim_noop(seq!['^']);
    }
    assert(spec_trim(Seq::<char>::empty()) == Seq::<char>::empty());
    // the header line opens an account record
    let tail0 = (ii + term + blank + (if bucket.len() == 0 {
        Seq::<Seq<char>>::empty()
    } else {
        seq!["!Type:"@ + qif_tag(a.account_type@)] + tx_lines_all(bucket) + blank
    })) + rest;
    let w = section_lines(d, k) + rest;
    let fields = seq![nl, tagl];
    assert(w =~= seq!["!Account"@] + (fields + tail0));
    assert(w.first() == "!Account"@);
    assert(has_prefix("!Account"@, "!Account"@)) by {
        assert("!Account"@.take(8) =~= "!Account"@);
    }
    assert(w.drop_first() =~= fields + tail0);
    assert(scan(w, today, doc, ScanMode::Top) == scan(
        fields + tail0,
        today,
        doc,
        ScanMode::Acc(init_acc()),
    ));
    // the name and kind lines
    assert(forall|i: int| 0 <= i < 2 ==> #[trigger] acc_field_line(fields, i)) by {
        assert(fields[0] == nl && fields[1] == tagl);
        assert(nl[0] == 'N' && tagl[0] == 'T');
        assert(nl != seq!['^'] && tagl != seq!['^']);
    }
    lemma_scan_acc_fields(fields, tail0, today, doc, init_acc());
    assert(fields.drop_first() =~= seq![tagl]);
    lemma_acc_steps_one(acc_step(init_acc(), nl), tagl);
    assert(nl.skip(1) =~= a.name@);
    assert(tagl.skip(1) =~= qif_tag(a.account_type@));
    let st1 = acc_steps(init_acc(), fields);
    assert(st1 == AccRec {
        name: a.name@,
        kind: reparsed_kind(a.account_type@),
        institution: None,
    });
    // the optional institution line
    assert(forall|i: int| 0 <= i < ii.len() ==> #[trigger] acc_field_line(ii, i)) by {
        match a.institution {
            Some(i2) => {
                assert(ii[0] == "D"@ + i2@);
                assert(("D"@ + i2@)[0] == 'D');
            },
            None => {},
        }
    }
    let tail1 = (term + blank + (if bucket.len() == 0 {
        Seq::<Seq<char>>::empty()
    } else {
        seq!["!Type:"@ + qif_tag(a.account_type@)] + tx_lines_all(bucket) + blank
    })) + rest;
    assert(tail0 =~= ii + tail1);
    lemma_scan_acc_fields(ii, tail1, today, doc, st1);
    let st2 = acc_steps(st1, ii);
    match a.institution {
        Some(i2) => {
            lemma_acc_steps_one(st1, "D"@ + i2@);
            assert(("D"@ + i2@).skip(1) =~= i2@);
        },
        None => {
            lemma_acc_steps_one(st1, seq!['^']);
        },
    }
    assert(st2 == acc_rec_of(a));
    // the terminator closes the account record
    let tail2 = (blank + (if bucket.len() == 0 {
        Seq::<Seq<char>>::empty()
    } else {
        seq!["!Type:"@ + qif_tag(a.account_type@)] + tx_lines_all(bucket) + blank
    })) + rest;
    assert(tail1 =~= seq![seq!['^']] + tail2);
    assert(tail1.first() == seq!['^']);
    assert(tail1.drop_first() =~= tail2);
    let doc1 = push_acc(doc, st2);
    assert(scan(tail1, today, doc, ScanMode::Acc(st2)) == scan(tail2, today, doc1, ScanMode::Top));
    // the blank separator line is skipped at the document level
    let tail3 = (if bucket.len() == 0 {
        Seq::<Seq<char>>::empty()
    } else {
        seq!["!Type:"@ + qif_tag(a.account_type@)] + tx_lines_all(bucket) + blank
    }) + rest;
    assert(tail2 =~= seq![Seq::<char>::empty()] + tail3);
    assert(tail2.first() == Seq::<char>::empty());
    assert(tail2.drop_first() =~= tail3);
    assert(!has_prefix(Seq::<char>::empty(), "!Account"@));
    assert(!has_prefix(Seq::<char>::empty(), "!Type:"@));
    assert(scan(tail2, today, doc1, ScanMode::Top) == scan(tail3, today, doc1, ScanMode::Top));
    if bucket.len() == 0 {
        assert(tail3 =~= rest);
        assert(doc.txs + bucket_recs(d, k) =~= doc.txs);
        assert(doc1 == (DocRec {
            accounts: doc.accounts.push(acc_rec_of(a)),
            txs: doc.txs + bucket_recs(d, k),
        }));
    } else {
        // the section header line
        let hl = "!Type:"@ + qif_tag(a.account_type@);
        let tail4 = (tx_lines_all(bucket) + blank) + rest;
        assert(tail3 =~= seq![hl] + tail4);
        assert(tail3.first() == hl);
        assert(tail3.drop_first() =~= tail4);
        assert(spec_trim(hl) == hl) by {
            assert(hl.first() == '!');
            assert(hl.last() == qif_tag(a.account_type@).last());
            crate::text::lemma_trim_noop(hl);
        }
        assert(!has_prefix(hl, "!Account"@)) by {
            assert(hl.len() >= 8);
            assert(hl[1] == 'T');
            assert("!Account"@[1] == 'A');
            if hl.take(8) == "!Account"@ {
                assert(hl.take(8)[1] == hl[1]);
            }
        }
        assert(has_prefix(hl, "!Type:"@)) by {
            assert(hl.take(6) =~= "!Type:"@);
        }
        assert(doc1.accounts.len() == k + 1 >= 1);
        assert(scan(tail3, today, doc1, ScanMode::Top) == scan(tail4, today, doc1, ScanMode::Sec));
        // the transaction records
        let pred = |t: Transaction| t.account_id == a.id;
        assert(forall|i: int| 0 <= i < bucket.len() ==> tx_exportable(#[trigger] bucket[i])) by {
            lemma_filter_members(d.transactions@, pred);
            assert forall|i: int| 0 <= i < bucket.len() implies tx_exportable(
                #[trigger] bucket[i],
            ) by {
                let kk = choose|kk: int|
                    0 <= kk < d.transactions@.len() && d.transactions@[kk] == bucket[i];
                assert(tx_exportable(d.transactions@[kk]));
            }
        }
        let tail5 = blank + rest;
        assert(tail4 =~= tx_lines_all(bucket) + tail5);
        lemma_scan_tx_list(bucket, k, tail5, today, doc1);
        let doc2 = DocRec {
            txs: doc1.txs + bucket.map_values(|t: Transaction| tx_rec_of(t, k)),
            ..doc1
        };
        // the closing blank line: first back to the document level, then
        // skipped there
        assert(tail5.first() == Seq::<char>::empty());
        assert(tail5.drop_first() =~= rest);
        assert(scan(tail5, today, doc2, ScanMode::Sec) == scan(tail5, today, doc2, ScanMode::Top));
        assert(scan(tail5, today, doc2, ScanMode::Top) == scan(rest, today, doc2, ScanMode::Top));
        assert(doc2 == (DocRec {
            accounts: doc.accounts.push(acc_rec_of(a)),
            txs: doc.txs + bucket_recs(d, k),
        })) by {
            assert(doc1.txs + bucket.map_values(|t: Transaction| tx_rec_of(t, k)) =~= doc.txs
                + bucket_recs(d, k));
        }
    }
}


/// A line the splitter hands back intact: no newline inside, no
/// carriage return at the end.
spec fn line_ok(l: Seq<char>) -> bool {
    (forall|i: int| 0 <= i < l.len() ==> l[i] != '\n') && (l.len() > 0 ==> l.last() != '\r')
}

/// All lines of a list are intact.
spec fn lines_ok(ls: Seq<Seq<char>>) -> bool {
    forall|i: int| 0 <= i < ls.len() ==> line_ok(#[trigger] ls[i])
}

/// Intactness is preserved by concatenation.
proof fn lemma_lines_ok_concat(a: Seq<Seq<char>>, b: Seq<Seq<char>>)
    requires
        lines_ok(a),
        lines_ok(b),
    ensures
        lines_ok(a + b),
{
    assert forall|i: int| 0 <= i < (a + b).len() implies line_ok(#[trigger] (a + b)[i]) by {
        if i < a.len() {
            assert((a + b)[i] == a[i]);
        } else {
            assert((a + b)[i] == b[i - a.len()]);
        }
    }
}

/// Splitting a joined list of intact lines yields the list again.
proof fn lemma_split_join(ls: Seq<Seq<char>>)
    requires
        lines_ok(ls),
    ensures
        spec_lines(join_lines(ls)) == ls,
    decreases ls.len(),
{
    if ls.len() == 0 {
        assert(spec_lines(join_lines(ls)) =~= ls);
    } else {
        let f = ls.first();
        let rest = ls.drop_first();
        let j = join_lines(ls);
        assert(line_ok(ls[0]));
        assert(j =~= f + seq!['\n'] + join_lines(rest));
        assert(j.len() > 0);
        assert(j[f.len() as int] == '\n');
        assert(forall|i: int| 0 <= i < f.len() ==> j[i] == f[i]);
        crate::text::lemma_find_from_first(j, '\n', f.len() as int, 0);
        assert(j.take(f.len() as int) =~= f);
        assert(crate::text::line_chunk(f) == f);
        assert(j.skip(f.len() as int + 1) =~= join_lines(rest));
        assert(forall|i: int| 0 <= i < rest.len() ==> rest[i] == ls[i + 1]);
        lemma_split_join(rest);
        assert(spec_lines(j) =~= ls);
    }
}

/// The lines of one exported transaction record are intact.
proof fn lemma_tx_lines_ok(t: Transaction)
    requires
        tx_exportable(t),
    ensures
        lines_ok(tx_lines(t)),
{
    reveal_strlit("D");
    reveal_strlit("T");
    reveal_strlit("P");
    reveal_strlit("L");
    reveal_strlit("M");
    let y = t.date.year as int;
    let mo = t.date.month as int;
    let dd = t.date.day as int;
    let ds = date_str(y, mo, dd);
    let am = amount_str(export_amount(t));
    lemma_date_str_chars(y, mo, dd);
    lemma_amount_str_chars(export_amount(t));
    assert(line_ok("D"@ + ds)) by {
        assert forall|i: int| 0 <= i < ("D"@ + ds).len() implies ("D"@ + ds)[i] != '\n' by {
            if i >= 1 {
                lemma_digit_not_special(ds[i - 1]);
            }
        }
        lemma_digit_not_special(ds.last());
        assert(("D"@ + ds).last() == ds.last());
    }
    assert(line_ok("T"@ + am)) by {
        assert forall|i: int| 0 <= i < ("T"@ + am).len() implies ("T"@ + am)[i] != '\n' by {
            if i >= 1 {
                lemma_digit_not_special(am[i - 1]);
            }
        }
        lemma_digit_not_special(am.last());
        assert(("T"@ + am).last() == am.last());
    }
    match t.payee {
        Some(p) => {
            assert(line_ok("P"@ + p@)) by {
                assert(forall|i: int| 1 <= i < ("P"@ + p@).len() ==> ("P"@ + p@)[i] == p@[i - 1]);
                if p@.len() > 0 {
                    assert(("P"@ + p@).last() == p@.last());
                }
            }
        },
        None => {},
    }
    match t.category {
        Some(c) => {
            assert(line_ok("L"@ + c@)) by {
                assert(forall|i: int| 1 <= i < ("L"@ + c@).len() ==> ("L"@ + c@)[i] == c@[i - 1]);
                if c@.len() > 0 {
                    assert(("L"@ + c@).last() == c@.last());
                }
            }
        },
        None => {},
    }
    match t.memo {
        Some(m) => {
            assert(line_ok("M"@ + m@)) by {
                assert(forall|i: int| 1 <= i < ("M"@ + m@).len() ==> ("M"@ + m@)[i] == m@[i - 1]);
                if m@.len() > 0 {
                    assert(("M"@ + m@).last() == m@.last());
                }
            }
        },
        None => {},
    }
    assert(line_ok(seq!['C', '*']));
    assert(line_ok(seq!['^']));
    assert forall|i: int| 0 <= i < tx_lines(t).len() implies line_ok(#[trigger] tx_lines(t)[i]) by {
        let pp = (match t.payee {
            Some(p) => seq!["P"@ + p@],
            None => Seq::<Seq<char>>::empty(),
        });
        let cc = (match t.category {
            Some(c) => seq!["L"@ + c@],
            None => Seq::<Seq<char>>::empty(),
        });
        let mm = (match t.memo {
            Some(m) => seq!["M"@ + m@],
            None => Seq::<Seq<char>>::empty(),
        });
        let cl = (if t.cleared {
            seq![seq!['C', '*']]
        } else {
            Seq::<Seq<char>>::empty()
        });
        assert(tx_lines(t) == seq!["D"@ + ds, "T"@ + am] + pp + cc + mm + cl + seq![seq!['^']]);
    }
}

/// The lines of a run of exported transaction records are intact.
proof fn lemma_tx_lines_all_ok(txs: Seq<Transaction>)
    requires
        forall|i: int| 0 <= i < txs.len() ==> tx_exportable(#[trigger] txs[i]),
    ensures
        lines_ok(tx_lines_all(txs)),
    decreases txs.len(),
{
    if txs.len() == 0 {
    } else {
        let d = txs.drop_first();
        assert(tx_exportable(txs[0]));
        lemma_tx_lines_ok(txs.first());
        assert(forall|i: int| 0 <= i < d.len() ==> d[i] == txs[i + 1]);
        lemma_tx_lines_all_ok(d);
        lemma_lines_ok_concat(tx_lines(txs.first()), tx_lines_all(d));
    }
}

/// The lines one account contributes are intact.
proof fn lemma_section_lines_ok(d: FinancialData, k: int)
    requires
        0 <= k < d.accounts@.len(),
        account_exportable(d.accounts@[k]),
        forall|i: int|
            0 <= i < d.transactions@.len() ==> tx_exportable(#[trigger] d.transactions@[i]),
    ensures
        lines_ok(section_lines(d, k)),
{
    reveal_strlit("!Account");
    reveal_strlit("!Type:");
    reveal_strlit("N");
    reveal_strlit("T");
    reveal_strlit("D");
    let a = d.accounts@[k];
    let bucket = d.transactions@.filter(|t: Transaction| t.account_id == a.id);
    lemma_tag_chars(a.account_type@);
    assert(line_ok("!Account"@));
    assert(line_ok("N"@ + a.name@)) by {
        assert(forall|i: int|
            1 <= i < ("N"@ + a.name@).len() ==> ("N"@ + a.name@)[i] == a.name@[i - 1]);
        if a.name@.len() > 0 {
            assert(("N"@ + a.name@).last() == a.name@.last());
        }
    }
    let tg = qif_tag(a.account_type@);
    assert(line_ok("T"@ + tg)) by {
        assert(forall|i: int| 1 <= i < ("T"@ + tg).len() ==> ("T"@ + tg)[i] == tg[i - 1]);
        assert(("T"@ + tg).last() == tg.last());
    }
    match a.institution {
        Some(inst) => {
            assert(line_ok("D"@ + inst@)) by {
                assert(forall|i: int|
                    1 <= i < ("D"@ + inst@).len() ==> ("D"@ + inst@)[i] == inst@[i - 1]);
                if inst@.len() > 0 {
                    assert(("D"@ + inst@).last() == inst@.last());
                }
            }
        },
        None => {},
    }
    assert(line_ok(seq!['^']));
    assert(line_ok(Seq::<char>::empty()));
    assert(line_ok("!Type:"@ + tg)) by {
        assert(forall|i: int|
            6 <= i < ("!Type:"@ + tg).len() ==> ("!Type:"@ + tg)[i] == tg[i - 6]);
        assert(("!Type:"@ + tg).last() == tg.last());
    }
    let ii = (match a.institution {
        Some(i) => seq!["D"@ + i@],
        None => Seq::<Seq<char>>::empty(),
    });
    assert(lines_ok(account_lines(a))) by {
        assert(account_lines(a) == seq!["!Account"@, "N"@ + a.name@, "T"@ + tg] + ii + seq![
            seq!['^'],
            Seq::<char>::empty(),
        ]);
    }
    if bucket.len() == 0 {
        assert(section_lines(d, k) =~= account_lines(a));
    } else {
        let pred = |t: Transaction| t.account_id == a.id;
        assert(forall|i: int| 0 <= i < bucket.len() ==> tx_exportable(#[trigger] bucket[i])) by {
            lemma_filter_members(d.transactions@, pred);
            assert forall|i: int| 0 <= i < bucket.len() implies tx_exportable(
                #[trigger] bucket[i],
            ) by {
                let kk = choose|kk: int|
                    0 <= kk < d.transactions@.len() && d.transactions@[kk] == bucket[i];
                assert(tx_exportable(d.transactions@[kk]));
            }
        }
        lemma_tx_lines_all_ok(bucket);
        lemma_lines_ok_concat(seq!["!Type:"@ + tg], tx_lines_all(bucket));
        lemma_lines_ok_concat(seq!["!Type:"@ + tg] + tx_lines_all(bucket), seq![
            Seq::<char>::empty(),
        ]);
        lemma_lines_ok_concat(
            account_lines(a),
            seq!["!Type:"@ + tg] + tx_lines_all(bucket) + seq![Seq::<char>::empty()],
        );
    }
}

/// The exported lines of the accounts from `k` on are intact.
proof fn lemma_export_from_ok(d: FinancialData, k: int)
    requires
        forall|j: int| 0 <= j < d.accounts@.len() ==> account_exportable(#[trigger] d.accounts@[j]),
        forall|i: int|
            0 <= i < d.transactions@.len() ==> tx_exportable(#[trigger] d.transactions@[i]),
    ensures
        lines_ok(export_from(d, k)),
    decreases d.accounts@.len() - k,
{
    if k < 0 || k >= d.accounts@.len() {
    } else {
        lemma_section_lines_ok(d, k);
        lemma_export_from_ok(d, k + 1);
        lemma_lines_ok_concat(section_lines(d, k), export_from(d, k + 1));
    }
}

/// Scanning the export of the accounts from `k` on appends exactly
/// their records.
#[verifier::rlimit(100)]
#[verifier::spinoff_prover]
proof fn lemma_scan_export(d: FinancialData, k: int, doc: DocRec, today: (int, int, int))
    requires
        decoder_shaped(d),
        0 <= k <= d.accounts@.len(),
        doc.accounts.len() == k,
    ensures
        scan(export_from(d, k), today, doc, ScanMode::Top) == Ok::<DocRec, QifError>(
            DocRec { accounts: doc.accounts + acc_recs_from(d, k), txs: doc.txs + tx_recs_from(
                d,
                k,
            ) },
        ),
    decreases d.accounts@.len() - k,
{
    if k == d.accounts@.len() {
        assert(export_from(d, k) =~= Seq::<Seq<char>>::empty());
        assert(doc.accounts + acc_recs_from(d, k) =~= doc.accounts);
        assert(doc.txs + tx_recs_from(d, k) =~= doc.txs);
    } else {
        assert(account_exportable(d.accounts@[k]));
        lemma_scan_account_section(d, k, export_from(d, k + 1), today, doc);
        let doc1 = DocRec {
            accounts: doc.accounts.push(acc_rec_of(d.accounts@[k])),
            txs: doc.txs + bucket_recs(d, k),
        };
        lemma_scan_export(d, k + 1, doc1, today);
        assert(doc1.accounts + acc_recs_from(d, k + 1) =~= doc.accounts + acc_recs_from(d, k));
        assert(doc1.txs + tx_recs_from(d, k + 1) =~= doc.txs + tx_recs_from(d, k));
    }
}


/// A decoded transaction record carries exactly the fields of a stored
/// transaction, and points at an account holding its owner id.
pub open spec fn rec_corresponds(d: FinancialData, r: TxRec, t: Transaction) -> bool {
    &&& 0 <= r.owner < d.accounts@.len()
    &&& d.accounts@[r.owner].id == t.account_id
    &&& r == tx_rec_of(t, r.owner)
}

/// The re-decoded transaction records line up one to one with the
/// grouped transaction list.
proof fn lemma_tx_recs_correspond(d: FinancialData, k: int)
    requires
        0 <= k <= d.accounts@.len(),
    ensures
        tx_recs_from(d, k).len() == grouped_concat(d, k).len(),
        forall|i: int|
            0 <= i < tx_recs_from(d, k).len() ==> rec_corresponds(
                d,
                #[trigger] tx_recs_from(d, k)[i],
                grouped_concat(d, k)[i],
            ),
    decreases d.accounts@.len() - k,
{
    if k == d.accounts@.len() {
    } else {
        let a = d.accounts@[k];
        let pred = |t: Transaction| t.account_id == a.id;
        let bucket = d.transactions@.filter(pred);
        lemma_tx_recs_correspond(d, k + 1);
        assert forall|i: int| 0 <= i < tx_recs_from(d, k).len() implies rec_corresponds(
            d,
            #[trigger] tx_recs_from(d, k)[i],
            grouped_concat(d, k)[i],
        ) by {
            if i < bucket.len() {
                assert(tx_recs_from(d, k)[i] == bucket_recs(d, k)[i]);
                assert(bucket_recs(d, k)[i] == tx_rec_of(bucket[i], k));
                assert(grouped_concat(d, k)[i] == bucket[i]);
                d.transactions@.lemma_filter_pred(pred, i);
                assert(pred(bucket[i]));
            } else {
                assert(tx_recs_from(d, k)[i] == tx_recs_from(d, k + 1)[i - bucket.len()]);
                assert(grouped_concat(d, k)[i] == grouped_concat(d, k + 1)[i - bucket.len()]);
            }
        }
    }
}

/// The re-decoded account records line up one to one with the account
/// list.
proof fn lemma_acc_recs_correspond(d: FinancialData, k: int)
    requires
        0 <= k <= d.accounts@.len(),
    ensures
        acc_recs_from(d, k).len() == d.accounts@.len() - k,
        forall|j: int|
            0 <= j < acc_recs_from(d, k).len() ==> #[trigger] acc_recs_from(d, k)[j] == acc_rec_of(
                d.accounts@[k + j],
            ),
    decreases d.accounts@.len() - k,
{
    if k < d.accounts@.len() {
        lemma_acc_recs_correspond(d, k + 1);
    }
}

/// The round-trip law: a document in the shape the decoder produces,
/// written out by the encoder and read back by the decoder, decodes
/// without error to a document with the same account count and names,
/// the same institutions, the same transaction count, and, transaction
/// by transaction, the same calendar day, magnitude, kind, payee,
/// category, memo and cleared flag, each owned by the account at its
/// owner's position.  The fallback date plays no part: the result is
/// the same whatever calendar day is current when re-decoding.
#[verifier::rlimit(100)]
#[verifier::spinoff_prover]
pub proof fn lemma_export_import_round_trip(d: FinancialData, today: (int, int, int))
    requires
        decoder_shaped(d),
    ensures
        ({
            let r = scan(
                spec_lines(export_str(d)),
                today,
                DocRec { accounts: Seq::empty(), txs: Seq::empty() },
                ScanMode::Top,
            );
            &&& r is Ok
            &&& r.unwrap().accounts.len() == d.accounts@.len()
            &&& forall|k: int|
                0 <= k < d.accounts@.len() ==> (#[trigger] r.unwrap().accounts[k]).name
                    == d.accounts@[k].name@ && r.unwrap().accounts[k].institution == (
                match d.accounts@[k].institution {
                    Some(i) => Some(i@),
                    None => None,
                })
            &&& r.unwrap().txs.len() == d.transactions@.len()
            &&& forall|i: int|
                0 <= i < d.transactions@.len() ==> rec_corresponds(
                    d,
                    #[trigger] r.unwrap().txs[i],
                    d.transactions@[i],
                )
        }),
{
    let doc0 = DocRec { accounts: Seq::empty(), txs: Seq::empty() };
    lemma_export_from_ok(d, 0);
    lemma_split_join(export_from(d, 0));
    assert(spec_lines(export_str(d)) == export_from(d, 0));
    lemma_scan_export(d, 0, doc0, today);
    let dr = DocRec {
        accounts: doc0.accounts + acc_recs_from(d, 0),
        txs: doc0.txs + tx_recs_from(d, 0),
    };
    assert(dr.accounts =~= acc_recs_from(d, 0));
    assert(dr.txs =~= tx_recs_from(d, 0));
    lemma_acc_recs_correspond(d, 0);
    lemma_tx_recs_correspond(d, 0);
    assert(grouped_concat(d, 0) == d.transactions@);
}


/// The kind/sign law, export side: a transaction writes a negative
/// amount exactly when its kind is debit, while the stored magnitude
/// itself is never negative.
pub proof fn lemma_kind_sign_export(t: Transaction)
    requires
        tx_exportable(t),
    ensures
        (t.transaction_type@ is Debit) <==> (export_amount(t) < 0),
        t.amount@ >= 0,
{
}

/// The kind/sign law, import side: whatever the sign of the amount
/// field read, a record the scanner keeps stores a non-negative
/// magnitude, and its kind is debit exactly when that field was
/// negative.
pub proof fn lemma_kind_sign_import(st: TxScan, today: (int, int, int), owner: int)
    requires
        finalize_tx(st, today, owner) is Some,
    ensures
        finalize_tx(st, today, owner).unwrap().magnitude >= 0,
        (finalize_tx(st, today, owner).unwrap().kind is Debit) <==> (st.amount < 0),
{
}


/// An amount the grammar accepts stays within the amount bound.
proof fn lemma_parse_amount_bounded(s: Seq<char>, v: int)
    requires
        parse_amount_chars(s) == Some(v),
    ensures
        -MAX_AMOUNT_UNITS <= v <= MAX_AMOUNT_UNITS,
{
    let body = (if s[0] == '-' || s[0] == '+' {
        s.skip(1)
    } else {
        s
    });
    let m = crate::money::parse_mag_chars(body).unwrap();
    let di = crate::text::find_from(body, '.', 0);
    if di == -1 {
        crate::text::lemma_uint_val_nonneg(body);
        assert(0 <= m) by (nonlinear_arith)
            requires
                m == crate::text::uint_val(body) * crate::money::UNIT_SCALE,
                0 <= crate::text::uint_val(body),
        ;
    } else {
        let ip = body.take(di);
        let fp = body.skip(di + 1);
        crate::text::lemma_uint_val_nonneg(ip);
        crate::text::lemma_uint_val_nonneg(fp);
        assert(0 <= m) by (nonlinear_arith)
            requires
                m == crate::text::uint_val(ip) * crate::money::UNIT_SCALE + crate::text::uint_val(
                    fp,
                ) * crate::money::frac_scale(fp.len() as int),
                0 <= crate::text::uint_val(ip),
                0 <= crate::text::uint_val(fp),
                crate::money::frac_scale(fp.len() as int) >= 1,
        ;
    }
}

/// A date the grammar accepts denotes a real calendar day.
proof fn lemma_parse_date_valid(s: Seq<char>, d: (int, int, int))
    requires
        parse_date_field(s) == Some(d),
    ensures
        valid_date(d.0, d.1, d.2),
{
}

/// An optional field that is line-safe.
pub open spec fn opt_seq_field_ok(o: Option<Seq<char>>) -> bool {
    match o {
        Some(s) => field_ok(s),
        None => true,
    }
}

/// A line holding no newline character.
pub open spec fn no_newline(l: Seq<char>) -> bool {
    forall|j: int| 0 <= j < l.len() ==> #[trigger] l[j] != '\n'
}

/// A line list holding no newline character anywhere.
pub open spec fn lines_no_newline(ls: Seq<Seq<char>>) -> bool {
    forall|i: int| 0 <= i < ls.len() ==> no_newline(#[trigger] ls[i])
}

/// A decoded transaction record in the shape the scanner can produce:
/// a bounded non-negative magnitude, a debit or credit kind with debits
/// strictly positive, a real calendar day, line-safe label fields, and
/// an owner index into the decoded account list.
pub open spec fn rec_shaped(r: TxRec, n_accounts: int) -> bool {
    &&& 0 <= r.magnitude <= MAX_AMOUNT_UNITS
    &&& (r.kind is Debit || r.kind is Credit)
    &&& (r.kind is Debit ==> r.magnitude > 0)
    &&& valid_date(r.date.0, r.date.1, r.date.2)
    &&& opt_seq_field_ok(r.payee)
    &&& opt_seq_field_ok(r.category)
    &&& opt_seq_field_ok(r.memo)
    &&& 0 <= r.owner < n_accounts
}

/// A decoded account record in the shape the scanner can produce: name
/// and institution are line-safe.
pub open spec fn acc_rec_shaped(a: AccRec) -> bool {
    field_ok(a.name) && opt_seq_field_ok(a.institution)
}

/// Every record of a decoded document is shaped, and the transaction
/// records stay grouped by owner in account order.
pub open spec fn doc_shaped(dr: DocRec) -> bool {
    &&& forall|k: int| 0 <= k < dr.accounts.len() ==> acc_rec_shaped(#[trigger] dr.accounts[k])
    &&& forall|i: int|
        0 <= i < dr.txs.len() ==> rec_shaped(#[trigger] dr.txs[i], dr.accounts.len() as int)
    &&& forall|i: int, j: int| 0 <= i < j < dr.txs.len() ==> dr.txs[i].owner <= dr.txs[j].owner
}

/// The field a trimmed, newline-free line yields is line-safe.
proof fn lemma_trim_field_ok(line: Seq<char>)
    requires
        no_newline(line),
    ensures
        ({
            let t = spec_trim(line);
            t.len() >= 1 ==> field_ok(t.skip(1))
        }),
{
    crate::text::lemma_trim_chars(line);
    let t = spec_trim(line);
    if t.len() >= 1 {
        let f = t.skip(1);
        assert(forall|i: int| 0 <= i < f.len() ==> #[trigger] f[i] == t[i + 1]);
        assert forall|i: int| 0 <= i < f.len() implies #[trigger] f[i] != '\n' by {
            let j = choose|j: int| 0 <= j < line.len() && line[j] == t[i + 1];
            assert(line[j] != '\n');
        }
        if f.len() > 0 {
            assert(f.last() == t.last());
        }
    }
}

/// Dropping the first line keeps a line list newline-free.
proof fn lemma_rest_no_newline(ls: Seq<Seq<char>>)
    requires
        lines_no_newline(ls),
        ls.len() > 0,
    ensures
        lines_no_newline(ls.drop_first()),
{
    let d = ls.drop_first();
    assert forall|i: int| 0 <= i < d.len() implies no_newline(#[trigger] d[i]) by {
        assert(d[i] == ls[i + 1]);
    }
}

/// The accumulator bounds a running account record keeps.
spec fn acc_state_ok(a: AccRec) -> bool {
    field_ok(a.name) && opt_seq_field_ok(a.institution)
}

/// The accumulator bounds a running transaction record keeps.
spec fn scan_state_ok(st: TxScan) -> bool {
    &&& -MAX_AMOUNT_UNITS <= st.amount <= MAX_AMOUNT_UNITS
    &&& (match st.date {
        Some(d) => valid_date(d.0, d.1, d.2),
        None => true,
    })
    &&& opt_seq_field_ok(st.payee)
    &&& opt_seq_field_ok(st.category)
    &&& opt_seq_field_ok(st.memo)
}

/// A field step keeps the account accumulator bounds.
proof fn lemma_acc_step_ok(a: AccRec, t: Seq<char>)
    requires
        acc_state_ok(a),
        t.len() >= 1 ==> field_ok(t.skip(1)),
    ensures
        acc_state_ok(acc_step(a, t)),
{
}

/// A field step keeps the transaction accumulator bounds.
proof fn lemma_tx_step_ok(st: TxScan, t: Seq<char>)
    requires
        scan_state_ok(st),
        t.len() >= 1 ==> field_ok(t.skip(1)),
    ensures
        scan_state_ok(tx_step(st, t)),
{
    if t.len() > 0 && t[0] == 'D' {
        match parse_date_field(t.skip(1)) {
            Some(d) => {
                lemma_parse_date_valid(t.skip(1), d);
            },
            None => {},
        }
    } else if t.len() > 0 && t[0] == 'T' {
        match parse_amount_chars(spec_trim(t.skip(1))) {
            Some(v) => {
                lemma_parse_amount_bounded(spec_trim(t.skip(1)), v);
            },
            None => {},
        }
    }
}

/// Whatever newline-free lines it reads, the scanner only ever produces
/// shaped documents: bounded magnitudes, debit or credit kinds with
/// debits strictly positive, real calendar days, line-safe fields, and
/// transactions grouped by owner account in account order.
#[verifier::rlimit(100)]
#[verifier::spinoff_prover]
proof fn lemma_scan_shaped(
    lines: Seq<Seq<char>>,
    today: (int, int, int),
    doc: DocRec,
    mode: ScanMode,
)
    requires
        valid_date(today.0, today.1, today.2),
        lines_no_newline(lines),
        doc_shaped(doc),
        forall|i: int| 0 <= i < doc.txs.len() ==> (#[trigger] doc.txs[i]).owner < doc.accounts.len(),
        (match mode {
            ScanMode::Acc(a) => acc_state_ok(a),
            ScanMode::Rec(st) => scan_state_ok(st) && doc.accounts.len() >= 1,
            ScanMode::Sec => doc.accounts.len() >= 1,
            ScanMode::Top => true,
        }),
    ensures
        (match scan(lines, today, doc, mode) {
            Ok(dr) => doc_shaped(dr),
            Err(_) => true,
        }),
    decreases lines.len(), mode_rank(mode),
{
    if lines.len() == 0 {
        match mode {
            ScanMode::Top => {},
            ScanMode::Acc(a) => {
                lemma_push_acc_shaped(doc, a);
            },
            ScanMode::Sec => {},
            ScanMode::Rec(st) => {
                lemma_push_tx_shaped(doc, st, today);
            },
        }
    } else {
        let t = spec_trim(lines.first());
        let rest = lines.drop_first();
        assert(no_newline(lines[0]));
        lemma_trim_field_ok(lines.first());
        lemma_rest_no_newline(lines);
        match mode {
            ScanMode::Top => {
                if has_prefix(t, "!Account"@) {
                    reveal_strlit("Unknown Account");
                    assert(acc_state_ok(init_acc()));
                    lemma_scan_shaped(rest, today, doc, ScanMode::Acc(init_acc()));
                } else if has_prefix(t, "!Type:"@) {
                    if doc.accounts.len() > 0 {
                        lemma_scan_shaped(rest, today, doc, ScanMode::Sec);
                    }
                } else {
                    lemma_scan_shaped(rest, today, doc, ScanMode::Top);
                }
            },
            ScanMode::Acc(a) => {
                if t.len() == 0 || t[0] == '!' {
                    lemma_push_acc_shaped(doc, a);
                    lemma_scan_shaped(lines, today, push_acc(doc, a), ScanMode::Top);
                } else if t == seq!['^'] {
                    lemma_push_acc_shaped(doc, a);
                    lemma_scan_shaped(rest, today, push_acc(doc, a), ScanMode::Top);
                } else {
                    lemma_acc_step_ok(a, t);
                    lemma_scan_shaped(rest, today, doc, ScanMode::Acc(acc_step(a, t)));
                }
            },
            ScanMode::Sec => {
                if t.len() == 0 || t[0] == '!' {
                    lemma_scan_shaped(lines, today, doc, ScanMode::Top);
                } else {
                    lemma_scan_shaped(lines, today, doc, ScanMode::Rec(init_tx()));
                }
            },
            ScanMode::Rec(st) => {
                if t == seq!['^'] {
                    lemma_push_tx_shaped(doc, st, today);
                    lemma_scan_shaped(rest, today, push_tx(doc, st, today), ScanMode::Sec);
                } else {
                    lemma_tx_step_ok(st, t);
                    lemma_scan_shaped(rest, today, doc, ScanMode::Rec(tx_step(st, t)));
                }
            },
        }
    }
}

/// Appending an account record keeps the document shaped.
proof fn lemma_push_acc_shaped(doc: DocRec, a: AccRec)
    requires
        doc_shaped(doc),
        acc_state_ok(a),
        forall|i: int| 0 <= i < doc.txs.len() ==> (#[trigger] doc.txs[i]).owner < doc.accounts.len(),
    ensures
        doc_shaped(push_acc(doc, a)),
        forall|i: int|
            0 <= i < push_acc(doc, a).txs.len() ==> (#[trigger] push_acc(doc, a).txs[i]).owner
                < push_acc(doc, a).accounts.len(),
{
    let d2 = push_acc(doc, a);
    assert(forall|k: int| 0 <= k < doc.accounts.len() ==> d2.accounts[k] == doc.accounts[k]);
    assert(d2.accounts.last() == a);
}

/// Closing a transaction record keeps the document shaped: the new
/// record is owned by the latest account and its fields obey the
/// grammar's bounds.
proof fn lemma_push_tx_shaped(doc: DocRec, st: TxScan, today: (int, int, int))
    requires
        doc_shaped(doc),
        forall|i: int| 0 <= i < doc.txs.len() ==> (#[trigger] doc.txs[i]).owner < doc.accounts.len(),
        scan_state_ok(st),
        doc.accounts.len() >= 1,
        valid_date(today.0, today.1, today.2),
    ensures
        doc_shaped(push_tx(doc, st, today)),
        forall|i: int|
            0 <= i < push_tx(doc, st, today).txs.len() ==> (#[trigger] push_tx(
                doc,
                st,
                today,
            ).txs[i]).owner < push_tx(doc, st, today).accounts.len(),
{
    match finalize_tx(st, today, doc.accounts.len() - 1) {
        Some(r) => {
            let d2 = push_tx(doc, st, today);
            assert(d2.txs.last() == r);
            assert(forall|i: int| 0 <= i < doc.txs.len() ==> d2.txs[i] == doc.txs[i]);
            assert(rec_shaped(r, d2.accounts.len() as int));
        },
        None => {},
    }
}

/// Decoding any input yields a shaped document: the scanner's output
/// satisfies the per-record premises of the round-trip law.  Only the
/// grouping premise is left to the caller, since it also needs the
/// freshly drawn account identities to be distinct.
pub proof fn lemma_decode_shaped(s: Seq<char>, today: (int, int, int))
    requires
        valid_date(today.0, today.1, today.2),
    ensures
        (match spec_decode(s, today) {
            Ok(dr) => doc_shaped(dr),
            Err(_) => true,
        }),
{
    let doc0 = DocRec { accounts: Seq::empty(), txs: Seq::empty() };
    crate::text::lemma_spec_lines_no_newline(s);
    let ls = spec_lines(s);
    assert forall|i: int| 0 <= i < ls.len() implies no_newline(#[trigger] ls[i]) by {
        assert(forall|j: int| 0 <= j < ls[i].len() ==> #[trigger] ls[i][j] != '\n');
    }
    lemma_scan_shaped(ls, today, doc0, ScanMode::Top);
}

/// A document built to match a shaped decode is exportable, record for
/// record: every account and every transaction satisfies the per-record
/// premises of `decoder_shaped`.  Together with distinct account ids
/// (which the grouping condition then follows from, but which the
/// randomly drawn identities cannot guarantee by proof), this lets the
/// round-trip law be applied to a decode result.
pub proof fn lemma_decoded_document_exportable(d: FinancialData, dr: DocRec)
    requires
        doc_matches(d, dr),
        doc_shaped(dr),
    ensures
        forall|k: int| 0 <= k < d.accounts@.len() ==> account_exportable(#[trigger] d.accounts@[k]),
        forall|i: int|
            0 <= i < d.transactions@.len() ==> tx_exportable(#[trigger] d.transactions@[i]),
{
    assert forall|k: int| 0 <= k < d.accounts@.len() implies account_exportable(
        #[trigger] d.accounts@[k],
    ) by {
        assert(acc_matches(d.accounts@[k], dr.accounts[k]));
        assert(acc_rec_shaped(dr.accounts[k]));
    }
    assert forall|i: int| 0 <= i < d.transactions@.len() implies tx_exportable(
        #[trigger] d.transactions@[i],
    ) by {
        assert(tx_matches(d.transactions@[i], dr.txs[i], d.accounts@));
        assert(rec_shaped(dr.txs[i], dr.accounts.len() as int));
    }
}


/// No two accounts of the document share an identity.
pub open spec fn distinct_account_ids(d: FinancialData) -> bool {
    forall|k: int, l: int|
        0 <= k < l < d.accounts@.len() ==> (#[trigger] d.accounts@[k]).id != (
        #[trigger] d.accounts@[l]).id
}

/// How many records are owned by an account before `k`.
spec fn owner_cut(txs: Seq<TxRec>, k: int) -> int
    decreases txs.len(),
{
    if txs.len() == 0 {
        0
    } else {
        owner_cut(txs.drop_last(), k) + (if txs.last().owner < k {
            1int
        } else {
            0int
        })
    }
}

/// The owner count is a count.
proof fn lemma_owner_cut_bounds(txs: Seq<TxRec>, k: int)
    ensures
        0 <= owner_cut(txs, k) <= txs.len(),
    decreases txs.len(),
{
    if txs.len() > 0 {
        lemma_owner_cut_bounds(txs.drop_last(), k);
    }
}

/// With owners nondecreasing, the records owned before `k` are exactly
/// the first `owner_cut` ones.
proof fn lemma_owner_cut_split(txs: Seq<TxRec>, k: int)
    requires
        forall|i: int, j: int| 0 <= i < j < txs.len() ==> txs[i].owner <= txs[j].owner,
    ensures
        forall|i: int| 0 <= i < txs.len() ==> ((#[trigger] txs[i]).owner < k <==> i < owner_cut(txs, k)),
    decreases txs.len(),
{
    if txs.len() > 0 {
        let dl = txs.drop_last();
        assert(forall|i: int| 0 <= i < dl.len() ==> dl[i] == txs[i]);
        lemma_owner_cut_split(dl, k);
        lemma_owner_cut_bounds(dl, k);
        if txs.last().owner < k {
            assert forall|i: int| 0 <= i < dl.len() implies (#[trigger] dl[i]).owner < k by {
                assert(txs[i].owner <= txs[txs.len() - 1].owner);
            }
            if owner_cut(dl, k) < dl.len() {
                assert(dl[owner_cut(dl, k)].owner < k);
            }
            assert(owner_cut(dl, k) == dl.len());
        }
    }
}

/// A predicate holding exactly on one contiguous index range filters to
/// that range.
proof fn lemma_filter_contiguous(
    s: Seq<Transaction>,
    p: spec_fn(Transaction) -> bool,
    a: int,
    b: int,
)
    requires
        0 <= a <= b <= s.len(),
        forall|i: int| 0 <= i < s.len() ==> (p(#[trigger] s[i]) <==> a <= i < b),
    ensures
        s.filter(p) == s.subrange(a, b),
    decreases s.len(),
{
    reveal(Seq::filter);
    if s.len() == 0 {
        assert(s.filter(p) =~= s.subrange(a, b));
    } else {
        let dl = s.drop_last();
        assert(forall|i: int| 0 <= i < dl.len() ==> dl[i] == s[i]);
        if p(s.last()) {
            assert(b == s.len());
            lemma_filter_contiguous(dl, p, a, s.len() - 1);
            assert(s.filter(p) =~= s.subrange(a, b));
        } else if b <= s.len() - 1 {
            lemma_filter_contiguous(dl, p, a, b);
            assert(dl.subrange(a, b) =~= s.subrange(a, b));
            assert(s.filter(p) =~= s.subrange(a, b));
        } else {
            assert(a == s.len() && b == s.len());
            lemma_filter_contiguous(dl, p, dl.len() as int, dl.len() as int);
            assert(dl.subrange(dl.len() as int, dl.len() as int) =~= s.subrange(a, b));
            assert(s.filter(p) =~= s.subrange(a, b));
        }
    }
}

/// The grouped tail: past the records owned before `k`, the transaction
/// list is exactly the buckets of the accounts from `k` on.
proof fn lemma_grouped_suffix(d: FinancialData, dr: DocRec, k: int)
    requires
        doc_matches(d, dr),
        doc_shaped(dr),
        distinct_account_ids(d),
        0 <= k <= d.accounts@.len(),
    ensures
        grouped_concat(d, k) == d.transactions@.skip(owner_cut(dr.txs, k)),
    decreases d.accounts@.len() - k,
{
    let n = d.accounts@.len() as int;
    let txs = d.transactions@;
    lemma_owner_cut_bounds(dr.txs, k);
    lemma_owner_cut_split(dr.txs, k);
    if k == n {
        if owner_cut(dr.txs, k) < dr.txs.len() {
            assert(dr.txs[owner_cut(dr.txs, k)].owner < k);
        }
        assert(owner_cut(dr.txs, k) == dr.txs.len());
        assert(grouped_concat(d, k) =~= txs.skip(owner_cut(dr.txs, k)));
    } else {
        let a = owner_cut(dr.txs, k);
        let b = owner_cut(dr.txs, k + 1);
        lemma_owner_cut_bounds(dr.txs, k + 1);
        lemma_owner_cut_split(dr.txs, k + 1);
        let p = |t: Transaction| t.account_id == d.accounts@[k].id;
        assert forall|i: int| 0 <= i < txs.len() implies (p(#[trigger] txs[i]) <==> a <= i < b) by {
            assert(tx_matches(txs[i], dr.txs[i], d.accounts@));
            let o = dr.txs[i].owner;
            if o != k && d.accounts@[o].id == d.accounts@[k].id {
                if o < k {
                    assert(d.accounts@[o].id != d.accounts@[k].id);
                } else {
                    assert(d.accounts@[k].id != d.accounts@[o].id);
                }
            }
            assert(p(txs[i]) <==> o == k);
            assert(o == k <==> (o < k + 1 && !(o < k)));
        }
        assert(a <= b) by {
            if b < a {
                assert(dr.txs[b].owner < k + 1 && !(dr.txs[b].owner < k));
            }
        }
        lemma_filter_contiguous(txs, p, a, b);
        lemma_grouped_suffix(d, dr, k + 1);
        assert(txs.skip(a) =~= txs.subrange(a, b) + txs.skip(b));
    }
}

/// A document built to match a shaped decode, with distinct account
/// identities, is exactly in the decoder's shape: together with
/// `lemma_decode_shaped` this discharges the round-trip law's premise
/// for a decode result, leaving only the id distinctness to the caller
/// (the identities are drawn at random, so no proof can promise it).
pub proof fn lemma_decoded_document_shaped(d: FinancialData, dr: DocRec)
    requires
        doc_matches(d, dr),
        doc_shaped(dr),
        distinct_account_ids(d),
    ensures
        decoder_shaped(d),
{
    lemma_decoded_document_exportable(d, dr);
    lemma_grouped_suffix(d, dr, 0);
    lemma_owner_cut_bounds(dr.txs, 0);
    lemma_owner_cut_split(dr.txs, 0);
    if owner_cut(dr.txs, 0) > 0 {
        assert(dr.txs[0].owner < 0);
        assert(rec_shaped(dr.txs[0], dr.accounts.len() as int));
    }
    assert(d.transactions@.skip(0) =~= d.transactions@);
}

} // verus!
