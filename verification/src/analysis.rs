//! The aggregation engine.
//!
//! Four read-only reports over a document's transactions: period totals
//! for one calendar month, a category ranking over debits, per-category
//! monthly trends over a lookback window, and anomaly flags for debits
//! far above their category's mean.  All arithmetic is exact fixed-point
//! arithmetic; every division is by a count that has been checked to be
//! positive, and an empty group or a zero grand total yields zero rather
//! than faulting.

use vstd::prelude::*;
use vstd::pervasive::VecAdditionalExecFns;

use crate::data::{copy_transaction, FinancialData, Transaction, TransactionType};
use crate::money::{spec_div_trunc, Money, MAX_AMOUNT_UNITS, UNIT_SCALE};

verus! {

/// The aggregation engine's entry points.
pub struct AnalysisEngine;

/// Period totals for one calendar month.
#[derive(Debug, Clone)]
pub struct MonthlyReport {
    pub year: i32,
    pub month: u32,
    pub total_income: Money,
    pub total_expenses: Money,
    pub net_income: Money,
    pub category_breakdown: Vec<(String, Money)>,
    pub transaction_count: usize,
}

/// One category's rank entry.
#[derive(Debug, Clone)]
pub struct CategoryAnalysis {
    pub category: String,
    pub total_amount: Money,
    pub transaction_count: usize,
    pub average_amount: Money,
    pub percentage_of_total: Money,
}

/// One category's spending trend.
#[derive(Debug, Clone)]
pub struct SpendingTrend {
    pub category: String,
    pub monthly_amounts: Vec<(String, Money)>,
    pub trend_direction: TrendDirection,
    pub average_monthly: Money,
}

/// Which way a monthly sequence moves.
#[derive(Debug, Clone, PartialEq, Eq, Structural)]
pub enum TrendDirection {
    Increasing,
    Decreasing,
    Stable,
}

/// The transaction is a debit.
pub open spec fn is_debit(t: Transaction) -> bool {
    t.transaction_type@ is Debit
}

/// The transaction is a credit.
pub open spec fn is_credit(t: Transaction) -> bool {
    t.transaction_type@ is Credit
}

/// The transaction falls in the given calendar month.
pub open spec fn in_month(t: Transaction, y: int, m: int) -> bool {
    t.date.year as int == y && t.date.month as int == m
}

/// Sum of the stored magnitudes of a transaction list.
pub open spec fn sum_amounts(s: Seq<Transaction>) -> int
    decreases s.len(),
{
    if s.len() == 0 {
        0
    } else {
        sum_amounts(s.drop_last()) + s.last().amount@
    }
}

/// A month's income: the summed magnitudes of its credits.
pub open spec fn month_income(s: Seq<Transaction>, y: int, m: int) -> int {
    sum_amounts(s.filter(|t: Transaction| in_month(t, y, m) && is_credit(t)))
}

/// A month's expenses: the summed magnitudes of its debits.
pub open spec fn month_expenses(s: Seq<Transaction>, y: int, m: int) -> int {
    sum_amounts(s.filter(|t: Transaction| in_month(t, y, m) && is_debit(t)))
}

/// How many transactions fall in the month, of any kind.
pub open spec fn month_count(s: Seq<Transaction>, y: int, m: int) -> int {
    s.filter(|t: Transaction| in_month(t, y, m)).len() as int
}

/// The views of a labelled amount list.
pub open spec fn pair_views(v: Seq<(String, Money)>) -> Seq<(Seq<char>, int)> {
    v.map_values(|p: (String, Money)| (p.0@, p.1@))
}

/// Index of `key` in an association list, or -1.
pub open spec fn key_index<V>(acc: Seq<(Seq<char>, V)>, key: Seq<char>) -> int
    decreases acc.len(),
{
    if acc.len() == 0 {
        -1
    } else if acc.first().0 == key {
        0
    } else {
        let r = key_index(acc.drop_first(), key);
        if r == -1 {
            -1
        } else {
            r + 1
        }
    }
}

/// Add `v` under `key`: sum into the existing entry, or append a new one.
pub open spec fn table_add(acc: Seq<(Seq<char>, int)>, key: Seq<char>, v: int) -> Seq<
    (Seq<char>, int),
> {
    let i = key_index(acc, key);
    if i == -1 {
        acc.push((key, v))
    } else {
        acc.update(i, (key, acc[i].1 + v))
    }
}

/// The month's category table: for every transaction of the month that
/// carries a category, of any kind, its magnitude summed under that
/// label, labels in order of first appearance.
pub open spec fn month_breakdown(s: Seq<Transaction>, y: int, m: int) -> Seq<(Seq<char>, int)>
    decreases s.len(),
{
    if s.len() == 0 {
        Seq::empty()
    } else {
        let p = month_breakdown(s.drop_last(), y, m);
        let t = s.last();
        if in_month(t, y, m) {
            match t.category {
                Some(c) => table_add(p, c@, t.amount@),
                None => p,
            }
        } else {
            p
        }
    }
}

/// The category a transaction is grouped under: its label, or the
/// fallback bucket.
pub open spec fn cat_key(t: Transaction) -> Seq<char> {
    match t.category {
        Some(c) => c@,
        None => "Uncategorized"@,
    }
}

/// Per-category debit totals and counts, keys in order of first
/// appearance among the debits.
pub open spec fn debit_groups(s: Seq<Transaction>) -> Seq<(Seq<char>, (int, int))>
    decreases s.len(),
{
    if s.len() == 0 {
        Seq::empty()
    } else {
        let p = debit_groups(s.drop_last());
        let t = s.last();
        if is_debit(t) {
            group_add(p, cat_key(t), t.amount@)
        } else {
            p
        }
    }
}

/// Add one debit of magnitude `v` to its category's total and count.
pub open spec fn group_add(
    acc: Seq<(Seq<char>, (int, int))>,
    key: Seq<char>,
    v: int,
) -> Seq<(Seq<char>, (int, int))> {
    let i = key_index(acc, key);
    if i == -1 {
        acc.push((key, (v, 1)))
    } else {
        acc.update(i, (key, (acc[i].1.0 + v, acc[i].1.1 + 1)))
    }
}

/// The grand total of all debit magnitudes.
pub open spec fn debit_total(s: Seq<Transaction>) -> int {
    sum_amounts(s.filter(|t: Transaction| is_debit(t)))
}

/// Every group total and count stays within the given bounds.
pub open spec fn groups_bounded(gs: Seq<(Seq<char>, (int, int))>, tb: int, cb: int) -> bool {
    forall|i: int|
        0 <= i < gs.len() ==> 0 <= (#[trigger] gs[i]).1.0 <= tb && 1 <= gs[i].1.1 <= cb
}

/// A found key index is in range and holds the key; -1 means absent.
proof fn lemma_key_index_range<V>(s: Seq<(Seq<char>, V)>, key: Seq<char>)
    ensures
        key_index(s, key) == -1 || (0 <= key_index(s, key) < s.len() && s[key_index(s, key)].0
            == key),
    decreases s.len(),
{
    if s.len() > 0 && s.first().0 != key {
        lemma_key_index_range(s.drop_first(), key);
        assert(forall|t: int| 0 <= t < s.len() - 1 ==> s.drop_first()[t] == s[t + 1]);
    }
}

/// If the key first occurs at `j` (or nowhere, with `j` the length), the
/// index search returns `j` (or -1).
proof fn lemma_key_index_at<V>(s: Seq<(Seq<char>, V)>, key: Seq<char>, j: int)
    requires
        0 <= j <= s.len(),
        forall|t: int| 0 <= t < j ==> (#[trigger] s[t]).0 != key,
        j < s.len() ==> s[j].0 == key,
    ensures
        j == s.len() ==> key_index(s, key) == -1,
        j < s.len() ==> key_index(s, key) == j,
    decreases j,
{
    if j == 0 {
    } else {
        assert(s.first().0 != key);
        let d = s.drop_first();
        assert(forall|t: int| 0 <= t < d.len() ==> d[t] == s[t + 1]);
        lemma_key_index_at(d, key, j - 1);
    }
}

/// Find a label in a breakdown table.
fn find_pair_key(v: &Vec<(String, Money)>, key: &String) -> (r: Option<usize>)
    ensures
        match r {
            Some(i) => key_index(pair_views(v@), key@) == i as int && i < v@.len(),
            None => key_index(pair_views(v@), key@) == -1,
        },
{
    let n: usize = v.len();
    let mut i: usize = 0;
    while i < n
        invariant
            i <= n,
            n == v@.len(),
            forall|t: int| 0 <= t < i ==> (#[trigger] pair_views(v@)[t]).0 != key@,
        decreases n - i,
    {
        if v[i].0 == *key {
            proof {
                lemma_key_index_at(pair_views(v@), key@, i as int);
            }
            return Some(i);
        }
        i = i + 1;
    }
    proof {
        lemma_key_index_at(pair_views(v@), key@, n as int);
    }
    None
}

/// Add one amount to a breakdown table.
fn pair_insert(v: &mut Vec<(String, Money)>, key: &String, amt: Money, Ghost(bound): Ghost<int>)
    requires
        0 <= amt@ <= MAX_AMOUNT_UNITS,
        0 <= bound,
        bound + MAX_AMOUNT_UNITS <= i128::MAX,
        forall|i: int| 0 <= i < old(v)@.len() ==> 0 <= (#[trigger] old(v)@[i]).1@ <= bound,
    ensures
        pair_views(final(v)@) == table_add(pair_views(old(v)@), key@, amt@),
        forall|i: int|
            0 <= i < final(v)@.len() ==> 0 <= (#[trigger] final(v)@[i]).1@ <= bound
                + MAX_AMOUNT_UNITS,
{
    match find_pair_key(v, key) {
        Some(i) => {
            let cur = v[i].1;
            let nv = cur.add(&amt);
            let kc = key.clone();
            v.set(i, (kc, nv));
            proof {
                assert(pair_views(v@) =~= table_add(pair_views(old(v)@), key@, amt@));
            }
        },
        None => {
            let kc = key.clone();
            v.push((kc, amt));
            proof {
                assert(pair_views(v@) =~= table_add(pair_views(old(v)@), key@, amt@));
            }
        },
    }
}

/// The views of a grouped totals list.
pub open spec fn group_views(v: Seq<(String, (i128, usize))>) -> Seq<(Seq<char>, (int, int))> {
    v.map_values(|p: (String, (i128, usize))| (p.0@, (p.1.0 as int, p.1.1 as int)))
}

/// Sum of the group totals.
pub open spec fn groups_total(gs: Seq<(Seq<char>, (int, int))>) -> int
    decreases gs.len(),
{
    if gs.len() == 0 {
        0
    } else {
        groups_total(gs.drop_last()) + gs.last().1.0
    }
}

/// Rewriting one entry's total by `v` shifts the sum by `v`.
proof fn lemma_groups_total_update(
    gs: Seq<(Seq<char>, (int, int))>,
    i: int,
    e: (Seq<char>, (int, int)),
)
    requires
        0 <= i < gs.len(),
    ensures
        groups_total(gs.update(i, e)) == groups_total(gs) - gs[i].1.0 + e.1.0,
    decreases gs.len(),
{
    let u = gs.update(i, e);
    if i == gs.len() - 1 {
        assert(u.drop_last() =~= gs.drop_last());
        assert(u.last() == e);
    } else {
        assert(u.drop_last() =~= gs.drop_last().update(i, e));
        assert(u.last() == gs.last());
        lemma_groups_total_update(gs.drop_last(), i, e);
    }
}

/// Adding one debit moves the sum of totals by its magnitude.
proof fn lemma_group_add_total(acc: Seq<(Seq<char>, (int, int))>, key: Seq<char>, v: int)
    ensures
        groups_total(group_add(acc, key, v)) == groups_total(acc) + v,
{
    lemma_key_index_range(acc, key);
    let i = key_index(acc, key);
    if i == -1 {
        assert(group_add(acc, key, v).drop_last() =~= acc);
    } else {
        lemma_groups_total_update(acc, i, (key, (acc[i].1.0 + v, acc[i].1.1 + 1)));
    }
}

/// With all totals non-negative, each total is at most their sum.
proof fn lemma_groups_total_bound(gs: Seq<(Seq<char>, (int, int))>)
    requires
        forall|i: int| 0 <= i < gs.len() ==> 0 <= (#[trigger] gs[i]).1.0,
    ensures
        0 <= groups_total(gs),
        forall|i: int| 0 <= i < gs.len() ==> (#[trigger] gs[i]).1.0 <= groups_total(gs),
    decreases gs.len(),
{
    if gs.len() > 0 {
        let dl = gs.drop_last();
        assert(forall|i: int| 0 <= i < dl.len() ==> dl[i] == gs[i]);
        lemma_groups_total_bound(dl);
        assert(gs.last() == gs[gs.len() - 1]);
    }
}

/// Find a category in a grouped totals list.
fn find_group_key(v: &Vec<(String, (i128, usize))>, key: &String) -> (r: Option<usize>)
    ensures
        match r {
            Some(i) => key_index(group_views(v@), key@) == i as int && i < v@.len(),
            None => key_index(group_views(v@), key@) == -1,
        },
{
    let n: usize = v.len();
    let mut i: usize = 0;
    while i < n
        invariant
            i <= n,
            n == v@.len(),
            forall|t: int| 0 <= t < i ==> (#[trigger] group_views(v@)[t]).0 != key@,
        decreases n - i,
    {
        if v[i].0 == *key {
            proof {
                lemma_key_index_at(group_views(v@), key@, i as int);
            }
            return Some(i);
        }
        i = i + 1;
    }
    proof {
        lemma_key_index_at(group_views(v@), key@, n as int);
    }
    None
}

/// Record one debit of magnitude `amt` under `key`.
fn group_insert(
    v: &mut Vec<(String, (i128, usize))>,
    key: &String,
    amt: Money,
    Ghost(tb): Ghost<int>,
    Ghost(cb): Ghost<int>,
)
    requires
        0 <= amt@ <= MAX_AMOUNT_UNITS,
        0 <= tb,
        0 <= cb,
        tb + MAX_AMOUNT_UNITS <= i128::MAX,
        cb + 1 <= usize::MAX,
        groups_bounded(group_views(old(v)@), tb, cb),
    ensures
        group_views(final(v)@) == group_add(group_views(old(v)@), key@, amt@),
        groups_bounded(group_views(final(v)@), tb + MAX_AMOUNT_UNITS, cb + 1),
        final(v)@.len() <= old(v)@.len() + 1,
{
    match find_group_key(v, key) {
        Some(i) => {
            let total = v[i].1.0;
            let cnt = v[i].1.1;
            let kc = key.clone();
            v.set(i, (kc, (total + amt.units, cnt + 1)));
            proof {
                assert(group_views(v@) =~= group_add(group_views(old(v)@), key@, amt@));
            }
        },
        None => {
            let kc = key.clone();
            v.push((kc, (amt.units, 1)));
            proof {
                assert(group_views(v@) =~= group_add(group_views(old(v)@), key@, amt@));
            }
        },
    }
}

/// The fallback label for uncategorised debits.
fn uncategorized() -> (r: String)
    ensures
        r@ == "Uncategorized"@,
{
    String::from_str("Uncategorized")
}

/// Build the per-category debit totals and counts of a transaction list,
/// together with the grand total of all debit magnitudes.
fn build_groups(data: &FinancialData) -> (r: (Vec<(String, (i128, usize))>, i128))
    requires
        data.wf(),
    ensures
        group_views(r.0@) == debit_groups(data.transactions@),
        r.1 as int == debit_total(data.transactions@),
        groups_total(group_views(r.0@)) == r.1 as int,
        0 <= r.1 as int <= data.transactions@.len() * MAX_AMOUNT_UNITS,
        groups_bounded(
            group_views(r.0@),
            data.transactions@.len() * MAX_AMOUNT_UNITS,
            data.transactions@.len() as int,
        ),
        forall|i: int|
            0 <= i < group_views(r.0@).len() ==> (#[trigger] group_views(r.0@)[i]).1.0 <= r.1 as int,
{
    let ghost txs = data.transactions@;
    let ghost pd = |t: Transaction| is_debit(t);
    let n: usize = data.transactions.len();
    let mut groups: Vec<(String, (i128, usize))> = Vec::new();
    let mut grand: i128 = 0;
    let fallback = uncategorized();
    proof {
        reveal(Seq::filter);
        assert(txs.take(0) =~= Seq::<Transaction>::empty());
        assert(group_views(groups@) =~= debit_groups(txs.take(0)));
    }
    let mut i: usize = 0;
    while i < n
        invariant
            i <= n,
            n == txs.len(),
            txs == data.transactions@,
            data.wf(),
            fallback@ == "Uncategorized"@,
            pd == (|t: Transaction| is_debit(t)),
            group_views(groups@) == debit_groups(txs.take(i as int)),
            grand as int == sum_amounts(txs.take(i as int).filter(pd)),
            groups_total(group_views(groups@)) == grand as int,
            0 <= grand as int <= (i as int) * MAX_AMOUNT_UNITS,
            groups_bounded(group_views(groups@), (i as int) * MAX_AMOUNT_UNITS, i as int),
            groups@.len() <= i,
        decreases n - i,
    {
        proof {
            assert(txs.take(i + 1).drop_last() =~= txs.take(i as int));
            assert(txs.take(i + 1).last() == txs[i as int]);
            assert(txs[i as int].wf());
            assert((i as int) * MAX_AMOUNT_UNITS + MAX_AMOUNT_UNITS == ((i + 1) as int)
                * MAX_AMOUNT_UNITS) by (nonlinear_arith);
            assert(0 <= (i as int) * MAX_AMOUNT_UNITS <= (n as int) * MAX_AMOUNT_UNITS && (n as int)
                * MAX_AMOUNT_UNITS + MAX_AMOUNT_UNITS < i128::MAX) by (nonlinear_arith)
                requires
                    0 <= i as int <= n as int,
                    n as int <= 18446744073709551615,
                    MAX_AMOUNT_UNITS == 100000000000000,
            ;
        }
        let t = &data.transactions[i];
        let is_d: bool = match t.transaction_type {
            TransactionType::Debit => true,
            _ => false,
        };
        if is_d {
            proof {
                lemma_group_add_total(group_views(groups@), cat_key(txs[i as int]), txs[i as int].amount@);
            }
            match &t.category {
                Some(c) => {
                    group_insert(
                        &mut groups,
                        c,
                        t.amount,
                        Ghost((i as int) * MAX_AMOUNT_UNITS),
                        Ghost(i as int),
                    );
                },
                None => {
                    group_insert(
                        &mut groups,
                        &fallback,
                        t.amount,
                        Ghost((i as int) * MAX_AMOUNT_UNITS),
                        Ghost(i as int),
                    );
                },
            }
            grand = grand + t.amount.units;
        }
        proof {
            reveal(Seq::filter);
            let sd = txs.take(i + 1).filter(pd);
            if pd(txs[i as int]) {
                assert(sd =~= txs.take(i as int).filter(pd).push(txs[i as int]));
                assert(sd.drop_last() =~= txs.take(i as int).filter(pd));
            }
            assert(grand as int == sum_amounts(sd));
            assert(group_views(groups@) == debit_groups(txs.take(i + 1)));
        }
        i = i + 1;
    }
    proof {
        assert(txs.take(n as int) =~= txs);
        lemma_groups_total_bound(group_views(groups@));
    }
    (groups, grand)
}

/// The largest magnitude a whole-document sum can reach: every stored
/// amount is at most `MAX_AMOUNT_UNITS` and a document holds at most
/// `usize::MAX` transactions.
pub const MAX_GROUP_TOTAL: i128 = 18446744073709551615 * 100000000000000;

/// The widest lookback window the trend report accepts: wide enough for
/// centuries of months while keeping sums of whole-document monthly
/// totals inside `i128`.
pub const MAX_TREND_WINDOW: usize = 10000;

/// Sum of the amounts of a labelled list.
pub open spec fn sum_pairs(s: Seq<(Seq<char>, int)>) -> int
    decreases s.len(),
{
    if s.len() == 0 {
        0
    } else {
        sum_pairs(s.drop_last()) + s.last().1
    }
}

/// Mean of a labelled list, truncating toward zero; zero when empty.
pub open spec fn avg_pairs(s: Seq<(Seq<char>, int)>) -> int {
    if s.len() == 0 {
        0
    } else {
        spec_div_trunc(sum_pairs(s), s.len() as int)
    }
}

/// The trend of a monthly sequence: the mean of the later half is
/// compared against the mean of the earlier half (the earlier half
/// holding the lower `len / 2` entries), with a threshold of a tenth of
/// the earlier mean; fewer than two points is always stable.
pub open spec fn spec_trend_direction(s: Seq<(Seq<char>, int)>) -> TrendDirection {
    if s.len() < 2 {
        TrendDirection::Stable
    } else {
        let half = s.len() as int / 2;
        let f = avg_pairs(s.take(half));
        let sec = avg_pairs(s.skip(half));
        let diff = sec - f;
        let thr = spec_div_trunc(f, 10);
        if diff > thr {
            TrendDirection::Increasing
        } else if diff < -thr {
            TrendDirection::Decreasing
        } else {
            TrendDirection::Stable
        }
    }
}

/// The calendar month `k` steps after (or, negative, before) `(y, m)`.
pub open spec fn month_shift(y: int, m: int, k: int) -> (int, int) {
    let total = y * 12 + (m - 1) + k;
    (total / 12, total % 12 + 1)
}

/// The label of a calendar month: the year, a hyphen, the two-digit
/// month.
pub open spec fn month_label(y: int, m: int) -> Seq<char> {
    crate::text::int_str(y) + seq!['-'] + crate::text::pad2_str(m as nat)
}

/// A debit of the given category falling in the given month.
pub open spec fn debit_cat_in_month(t: Transaction, c: Seq<char>, y: int, m: int) -> bool {
    in_month(t, y, m) && is_debit(t) && (match t.category {
        Some(cc) => cc@ == c,
        None => false,
    })
}

/// The category's summed debits for one calendar month.
pub open spec fn trend_month_sum(s: Seq<Transaction>, c: Seq<char>, y: int, m: int) -> int {
    sum_amounts(s.filter(|t: Transaction| debit_cat_in_month(t, c, y, m)))
}

/// The category's labelled monthly sums: `n` calendar months ending at
/// the anchor month, in chronological order.
pub open spec fn trend_amounts(s: Seq<Transaction>, c: Seq<char>, y0: int, m0: int, n: int) -> Seq<
    (Seq<char>, int),
> {
    Seq::new(
        n as nat,
        |j: int|
            {
                let ym = month_shift(y0, m0, j - (n - 1));
                (month_label(ym.0, ym.1), trend_month_sum(s, c, ym.0, ym.1))
            },
    )
}

/// One trend row is exactly the category's monthly sums anchored at
/// `(y0, m0)`, with their direction and mean.
pub open spec fn trend_matches(
    tr: SpendingTrend,
    s: Seq<Transaction>,
    c: Seq<char>,
    y0: int,
    m0: int,
    n: int,
) -> bool {
    &&& tr.category@ == c
    &&& pair_views(tr.monthly_amounts@) == trend_amounts(s, c, y0, m0, n)
    &&& tr.trend_direction == spec_trend_direction(trend_amounts(s, c, y0, m0, n))
    &&& tr.average_monthly@ == avg_pairs(trend_amounts(s, c, y0, m0, n))
}

/// Every trend row matches its category at the given anchor month.
pub open spec fn trends_anchored(
    r: Seq<SpendingTrend>,
    s: Seq<Transaction>,
    cats: Seq<String>,
    y0: int,
    m0: int,
    n: int,
) -> bool {
    forall|i: int|
        0 <= i < r.len() ==> trend_matches(#[trigger] r[i], s, cats[i]@, y0, m0, n)
}

/// A debit far above its category's mean: more than three times the
/// truncating mean of its group.
pub open spec fn spec_anomalous(t: Transaction, gs: Seq<(Seq<char>, (int, int))>) -> bool {
    &&& is_debit(t)
    &&& key_index(gs, cat_key(t)) >= 0
    &&& t.amount@ > 3 * spec_div_trunc(
        gs[key_index(gs, cat_key(t))].1.0,
        gs[key_index(gs, cat_key(t))].1.1,
    )
}

/// A non-negative value divided by a positive count stays between zero
/// and itself.
proof fn lemma_div_le(a: int, b: int)
    requires
        0 <= a,
        1 <= b,
    ensures
        0 <= a / b <= a,
{
    vstd::arithmetic::div_mod::lemma_fundamental_div_mod(a, b);
    vstd::arithmetic::div_mod::lemma_mod_bound(a, b);
    assert(0 <= a / b <= a) by (nonlinear_arith)
        requires
            a == b * (a / b) + a % b,
            0 <= a % b < b,
            0 <= a,
            1 <= b,
    ;
}

/// Sum of the amounts of `v[lo..hi]`.
fn sum_pair_range(v: &Vec<(String, Money)>, lo: usize, hi: usize) -> (r: i128)
    requires
        lo <= hi <= v@.len(),
        hi - lo <= MAX_TREND_WINDOW,
        forall|i: int|
            0 <= i < v@.len() ==> -MAX_GROUP_TOTAL <= (#[trigger] v@[i]).1@ <= MAX_GROUP_TOTAL,
    ensures
        r as int == sum_pairs(pair_views(v@).subrange(lo as int, hi as int)),
        -((hi - lo) * MAX_GROUP_TOTAL) <= r as int <= (hi - lo) * MAX_GROUP_TOTAL,
{
    let ghost pv = pair_views(v@);
    let mut acc: i128 = 0;
    let mut i: usize = lo;
    proof {
        assert(pv.subrange(lo as int, lo as int) =~= Seq::<(Seq<char>, int)>::empty());
    }
    while i < hi
        invariant
            lo <= i <= hi <= v@.len(),
            hi - lo <= MAX_TREND_WINDOW,
            pv == pair_views(v@),
            forall|k: int|
                0 <= k < v@.len() ==> -MAX_GROUP_TOTAL <= (#[trigger] v@[k]).1@ <= MAX_GROUP_TOTAL,
            acc as int == sum_pairs(pv.subrange(lo as int, i as int)),
            -((i - lo) * MAX_GROUP_TOTAL) <= acc as int <= (i - lo) * MAX_GROUP_TOTAL,
        decreases hi - i,
    {
        proof {
            assert(pv.subrange(lo as int, i + 1).drop_last() =~= pv.subrange(lo as int, i as int));
            assert(pv.subrange(lo as int, i + 1).last() == pv[i as int]);
            let a = acc as int;
            let e = v@[i as int].1@;
            assert(-((i + 1 - lo) * MAX_GROUP_TOTAL) <= a + e <= (i + 1 - lo) * MAX_GROUP_TOTAL
                && (i + 1 - lo) * MAX_GROUP_TOTAL < i128::MAX) by (nonlinear_arith)
                requires
                    -((i - lo) * MAX_GROUP_TOTAL) <= a <= (i - lo) * MAX_GROUP_TOTAL,
                    -MAX_GROUP_TOTAL <= e <= MAX_GROUP_TOTAL,
                    0 <= i - lo,
                    i + 1 - lo <= 10000,
                    MAX_GROUP_TOTAL == 18446744073709551615 * 100000000000000,
            ;
        }
        acc = acc + v[i].1.units;
        i = i + 1;
    }
    acc
}

impl AnalysisEngine {
    /// Mean of a labelled monthly list, truncating toward zero; an
    /// empty list yields zero rather than faulting.
    pub fn calculate_average(amounts: &Vec<(String, Money)>) -> (r: Money)
        requires
            amounts@.len() <= MAX_TREND_WINDOW,
            forall|i: int|
                0 <= i < amounts@.len() ==> -MAX_GROUP_TOTAL <= (#[trigger] amounts@[i]).1@
                    <= MAX_GROUP_TOTAL,
        ensures
            r@ == avg_pairs(pair_views(amounts@)),
    {
        let n: usize = amounts.len();
        if n == 0 {
            return Money::zero();
        }
        let s = sum_pair_range(amounts, 0, n);
        proof {
            assert(pair_views(amounts@).subrange(0, n as int) =~= pair_views(amounts@));
        }
        Money { units: s }.divided_by(n)
    }

    /// The direction of a monthly sequence: the later half's mean
    /// against the earlier half's, with a threshold of a tenth of the
    /// earlier mean.
    pub fn calculate_trend_direction(monthly_amounts: &Vec<(String, Money)>) -> (r: TrendDirection)
        requires
            monthly_amounts@.len() <= MAX_TREND_WINDOW,
            forall|i: int|
                0 <= i < monthly_amounts@.len() ==> -MAX_GROUP_TOTAL <= (
                #[trigger] monthly_amounts@[i]).1@ <= MAX_GROUP_TOTAL,
        ensures
            r == spec_trend_direction(pair_views(monthly_amounts@)),
    {
        let ghost pv = pair_views(monthly_amounts@);
        let n: usize = monthly_amounts.len();
        if n < 2 {
            return TrendDirection::Stable;
        }
        let half: usize = n / 2;
        let s1 = sum_pair_range(monthly_amounts, 0, half);
        let s2 = sum_pair_range(monthly_amounts, half, n);
        proof {
            assert(pv.subrange(0, half as int) =~= pv.take(half as int));
            assert(pv.subrange(half as int, n as int) =~= pv.skip(half as int));
        }
        let f = Money { units: s1 }.divided_by(half);
        let sec = Money { units: s2 }.divided_by(n - half);
        let diff: i128 = sec.units - f.units;
        let thr = f.divided_by(10);
        if diff > thr.units {
            TrendDirection::Increasing
        } else if diff < -thr.units {
            TrendDirection::Decreasing
        } else {
            TrendDirection::Stable
        }
    }
}

/// Insert a group into a list sorted by total, descending: it lands
/// after every entry whose total is at least as large, so equal totals
/// keep their first-appearance order.
pub open spec fn insert_desc(
    acc: Seq<(Seq<char>, (int, int))>,
    x: (Seq<char>, (int, int)),
) -> Seq<(Seq<char>, (int, int))>
    decreases acc.len(),
{
    if acc.len() == 0 {
        seq![x]
    } else if acc.first().1.0 >= x.1.0 {
        seq![acc.first()] + insert_desc(acc.drop_first(), x)
    } else {
        seq![x] + acc
    }
}

/// Sort groups by total, descending, stably.
pub open spec fn sort_groups(gs: Seq<(Seq<char>, (int, int))>) -> Seq<(Seq<char>, (int, int))>
    decreases gs.len(),
{
    if gs.len() == 0 {
        Seq::empty()
    } else {
        insert_desc(sort_groups(gs.drop_last()), gs.last())
    }
}

/// The rank entry a group yields: its label, total, count, mean
/// (total over count, truncating), and share of the grand total in
/// percent (zero when the grand total is zero).
pub open spec fn rank_entry(g: (Seq<char>, (int, int)), grand: int) -> (
    Seq<char>,
    int,
    int,
    int,
    int,
) {
    (
        g.0,
        g.1.0,
        g.1.1,
        spec_div_trunc(g.1.0, g.1.1),
        if grand > 0 {
            (g.1.0 * 100 * (UNIT_SCALE as int)) / grand
        } else {
            0
        },
    )
}

/// The views of a rank list.
pub open spec fn rank_views(v: Seq<CategoryAnalysis>) -> Seq<(Seq<char>, int, int, int, int)> {
    v.map_values(
        |c: CategoryAnalysis|
            (
                c.category@,
                c.total_amount@,
                c.transaction_count as int,
                c.average_amount@,
                c.percentage_of_total@,
            ),
    )
}

/// The category ranking of a transaction list: its debit groups, sorted
/// by total descending, each with mean and percentage.
pub open spec fn spec_categories(s: Seq<Transaction>) -> Seq<(Seq<char>, int, int, int, int)> {
    sort_groups(debit_groups(s)).map_values(
        |g: (Seq<char>, (int, int))| rank_entry(g, debit_total(s)),
    )
}

/// Positional insertion agrees with `insert_desc` when `p` is the first
/// position whose total is smaller.
proof fn lemma_insert_desc_at(
    acc: Seq<(Seq<char>, (int, int))>,
    x: (Seq<char>, (int, int)),
    p: int,
)
    requires
        0 <= p <= acc.len(),
        forall|t: int| 0 <= t < p ==> (#[trigger] acc[t]).1.0 >= x.1.0,
        p < acc.len() ==> acc[p].1.0 < x.1.0,
    ensures
        insert_desc(acc, x) == acc.take(p) + seq![x] + acc.skip(p),
    decreases p,
{
    if p == 0 {
        if acc.len() == 0 {
            assert(insert_desc(acc, x) =~= acc.take(0) + seq![x] + acc.skip(0));
        } else {
            assert(acc.take(0) + seq![x] + acc.skip(0) =~= seq![x] + acc);
        }
    } else {
        let d = acc.drop_first();
        assert(forall|t: int| 0 <= t < d.len() ==> d[t] == acc[t + 1]);
        lemma_insert_desc_at(d, x, p - 1);
        assert(seq![acc.first()] + (d.take(p - 1) + seq![x] + d.skip(p - 1)) =~= acc.take(p)
            + seq![x] + acc.skip(p));
    }
}

/// Bounds survive sorting: `insert_desc` and `sort_groups` only
/// rearrange entries.
proof fn lemma_insert_desc_bounded(
    acc: Seq<(Seq<char>, (int, int))>,
    x: (Seq<char>, (int, int)),
    tb: int,
    cb: int,
)
    requires
        groups_bounded(acc, tb, cb),
        0 <= x.1.0 <= tb,
        1 <= x.1.1 <= cb,
    ensures
        groups_bounded(insert_desc(acc, x), tb, cb),
    decreases acc.len(),
{
    if acc.len() > 0 && acc.first().1.0 >= x.1.0 {
        let d = acc.drop_first();
        assert(forall|t: int| 0 <= t < d.len() ==> d[t] == acc[t + 1]);
        lemma_insert_desc_bounded(d, x, tb, cb);
        let r = seq![acc.first()] + insert_desc(d, x);
        assert(forall|t: int| 1 <= t < r.len() ==> r[t] == insert_desc(d, x)[t - 1]);
    }
}

/// Sort the groups by total, descending, stably, by insertion.
fn sort_groups_exec(groups: Vec<(String, (i128, usize))>, Ghost(tb): Ghost<int>, Ghost(
    cb,
): Ghost<int>) -> (r: Vec<(String, (i128, usize))>)
    requires
        groups_bounded(group_views(groups@), tb, cb),
    ensures
        group_views(r@) == sort_groups(group_views(groups@)),
        groups_bounded(group_views(r@), tb, cb),
{
    let ghost gv = group_views(groups@);
    let n: usize = groups.len();
    let mut out: Vec<(String, (i128, usize))> = Vec::new();
    proof {
        assert(gv.take(0) =~= Seq::<(Seq<char>, (int, int))>::empty());
        assert(group_views(out@) =~= sort_groups(gv.take(0)));
    }
    let mut i: usize = 0;
    while i < n
        invariant
            i <= n,
            n == groups@.len(),
            gv == group_views(groups@),
            groups_bounded(gv, tb, cb),
            group_views(out@) == sort_groups(gv.take(i as int)),
            groups_bounded(group_views(out@), tb, cb),
            out@.len() == i,
        decreases n - i,
    {
        let x_total = groups[i].1.0;
        let m: usize = out.len();
        let mut p: usize = 0;
        while p < m && out[p].1.0 >= x_total
            invariant
                p <= m,
                m == out@.len(),
                forall|t: int| 0 <= t < p ==> (#[trigger] group_views(out@)[t]).1.0 >= x_total as int,
            decreases m - p,
        {
            p = p + 1;
        }
        let ks = groups[i].0.clone();
        let total = groups[i].1.0;
        let cnt = groups[i].1.1;
        let ghost before = group_views(out@);
        proof {
            lemma_insert_desc_at(before, gv[i as int], p as int);
            lemma_insert_desc_bounded(before, gv[i as int], tb, cb);
            assert(gv.take(i + 1).drop_last() =~= gv.take(i as int));
            assert(gv.take(i + 1).last() == gv[i as int]);
        }
        out.insert(p, (ks, (total, cnt)));
        proof {
            assert(group_views(out@) =~= before.take(p as int) + seq![gv[i as int]] + before.skip(
                p as int,
            ));
        }
        i = i + 1;
    }
    proof {
        assert(gv.take(n as int) =~= gv);
    }
    out
}

impl AnalysisEngine {
    /// The period report for one calendar month: income is the sum of
    /// the month's credits, expenses the sum of its debits, net their
    /// difference; the category table sums every categorised transaction
    /// of the month regardless of kind; the count covers the whole
    /// month.
    pub fn generate_monthly_report(data: &FinancialData, year: i32, month: u32) -> (r:
        MonthlyReport)
        requires
            data.wf(),
        ensures
            r.year == year,
            r.month == month,
            r.total_income@ == month_income(data.transactions@, year as int, month as int),
            r.total_expenses@ == month_expenses(data.transactions@, year as int, month as int),
            r.net_income@ == r.total_income@ - r.total_expenses@,
            pair_views(r.category_breakdown@) == month_breakdown(
                data.transactions@,
                year as int,
                month as int,
            ),
            r.transaction_count as int == month_count(data.transactions@, year as int, month as int),
    {
        let ghost y = year as int;
        let ghost m = month as int;
        let ghost txs = data.transactions@;
        let ghost pc = |t: Transaction| in_month(t, y, m) && is_credit(t);
        let ghost pd = |t: Transaction| in_month(t, y, m) && is_debit(t);
        let ghost pm = |t: Transaction| in_month(t, y, m);
        let n: usize = data.transactions.len();
        let mut income: i128 = 0;
        let mut expenses: i128 = 0;
        let mut count: usize = 0;
        let mut breakdown: Vec<(String, Money)> = Vec::new();
        proof {
            assert(txs.take(0) =~= Seq::<Transaction>::empty());
            reveal(Seq::filter);
            assert(pair_views(breakdown@) =~= month_breakdown(txs.take(0), y, m));
        }
        let mut i: usize = 0;
        while i < n
            invariant
                i <= n,
                n == txs.len(),
                txs == data.transactions@,
                data.wf(),
                y == year as int,
                m == month as int,
                pc == (|t: Transaction| in_month(t, y, m) && is_credit(t)),
                pd == (|t: Transaction| in_month(t, y, m) && is_debit(t)),
                pm == (|t: Transaction| in_month(t, y, m)),
                income as int == sum_amounts(txs.take(i as int).filter(pc)),
                expenses as int == sum_amounts(txs.take(i as int).filter(pd)),
                count as int == txs.take(i as int).filter(pm).len(),
                count <= i,
                0 <= income as int <= (i as int) * MAX_AMOUNT_UNITS,
                0 <= expenses as int <= (i as int) * MAX_AMOUNT_UNITS,
                pair_views(breakdown@) == month_breakdown(txs.take(i as int), y, m),
                forall|k: int|
                    0 <= k < breakdown@.len() ==> 0 <= (#[trigger] breakdown@[k]).1@ <= (i as int)
                        * MAX_AMOUNT_UNITS,
            decreases n - i,
        {
            proof {
                reveal(Seq::filter);
                assert(txs.take(i + 1).drop_last() =~= txs.take(i as int));
                assert(txs.take(i + 1).last() == txs[i as int]);
                assert(txs[i as int].wf());
                assert((i as int) * MAX_AMOUNT_UNITS + MAX_AMOUNT_UNITS == ((i + 1) as int)
                    * MAX_AMOUNT_UNITS) by (nonlinear_arith);
                assert(0 <= (i as int) * MAX_AMOUNT_UNITS <= (n as int) * MAX_AMOUNT_UNITS && (
                n as int) * MAX_AMOUNT_UNITS + MAX_AMOUNT_UNITS < i128::MAX) by (nonlinear_arith)
                    requires
                        0 <= i as int <= n as int,
                        n as int <= 18446744073709551615,
                        MAX_AMOUNT_UNITS == 100000000000000,
                ;
            }
            let t = &data.transactions[i];
            let matched: bool = t.date.year == year && t.date.month == month;
            if matched {
                count = count + 1;
                match t.transaction_type {
                    TransactionType::Credit => {
                        income = income + t.amount.units;
                    },
                    TransactionType::Debit => {
                        expenses = expenses + t.amount.units;
                    },
                    _ => {},
                }
                match &t.category {
                    Some(c) => {
                        pair_insert(
                            &mut breakdown,
                            c,
                            t.amount,
                            Ghost((i as int) * MAX_AMOUNT_UNITS),
                        );
                    },
                    None => {},
                }
            }
            proof {
                reveal(Seq::filter);
                let tcur = txs[i as int];
                let sc = txs.take(i + 1).filter(pc);
                let sd = txs.take(i + 1).filter(pd);
                let sm = txs.take(i + 1).filter(pm);
                if pc(tcur) {
                    assert(sc =~= txs.take(i as int).filter(pc).push(tcur));
                    assert(sc.drop_last() =~= txs.take(i as int).filter(pc));
                }
                if pd(tcur) {
                    assert(sd =~= txs.take(i as int).filter(pd).push(tcur));
                    assert(sd.drop_last() =~= txs.take(i as int).filter(pd));
                }
                if pm(tcur) {
                    assert(sm =~= txs.take(i as int).filter(pm).push(tcur));
                }
                assert(income as int == sum_amounts(sc));
                assert(expenses as int == sum_amounts(sd));
                assert(count as int == sm.len());
                assert(pair_views(breakdown@) == month_breakdown(txs.take(i + 1), y, m));
            }
            i = i + 1;
        }
        proof {
            assert(txs.take(n as int) =~= txs);
        }
        let ti = Money { units: income };
        let te = Money { units: expenses };
        let net = ti.sub(&te);
        MonthlyReport {
            year,
            month,
            total_income: ti,
            total_expenses: te,
            net_income: net,
            category_breakdown: breakdown,
            transaction_count: count,
        }
    }
}

impl AnalysisEngine {
    /// The category ranking: the document's debit groups, sorted by
    /// total descending (ties keep first-appearance order), each with
    /// its count, truncating mean, and share of all debits in percent
    /// (zero when there are no debits).
    pub fn analyze_categories(data: &FinancialData) -> (r: Vec<CategoryAnalysis>)
        requires
            data.wf(),
        ensures
            rank_views(r@) == spec_categories(data.transactions@),
    {
        let ghost txs = data.transactions@;
        let tlen: usize = data.transactions.len();
        let (groups, grand) = build_groups(data);
        proof {
            assert(groups_bounded(group_views(groups@), grand as int, txs.len() as int));
        }
        let sorted = sort_groups_exec(groups, Ghost(grand as int), Ghost(txs.len() as int));
        let ghost sgv = group_views(sorted@);
        let m: usize = sorted.len();
        let mut out: Vec<CategoryAnalysis> = Vec::new();
        let mut j: usize = 0;
        while j < m
            invariant
                j <= m,
                m == sorted@.len(),
                data.wf(),
                txs == data.transactions@,
                sgv == group_views(sorted@),
                sgv == sort_groups(debit_groups(txs)),
                grand as int == debit_total(txs),
                tlen == txs.len(),
                0 <= grand as int <= txs.len() * MAX_AMOUNT_UNITS,
                groups_bounded(sgv, grand as int, txs.len() as int),
                out@.len() == j,
                forall|t: int|
                    0 <= t < j ==> rank_views(out@)[t] == rank_entry(sgv[t], grand as int),
            decreases m - j,
        {
            let total: i128 = sorted[j].1.0;
            let cnt: usize = sorted[j].1.1;
            proof {
                assert(sgv[j as int] == (sorted@[j as int].0@, (
                    sorted@[j as int].1.0 as int,
                    sorted@[j as int].1.1 as int,
                )));
                assert(1 <= sgv[j as int].1.1);
                assert(0 <= sgv[j as int].1.0);
            }
            let avg = Money { units: total }.divided_by(cnt);
            let pct = if grand > 0 {
                proof {
                    assert(grand as int * UNIT_SCALE <= i128::MAX) by (nonlinear_arith)
                        requires
                            0 <= grand as int <= txs.len() * MAX_AMOUNT_UNITS,
                            txs.len() == tlen as int,
                            tlen as int <= 18446744073709551615,
                            MAX_AMOUNT_UNITS == 100000000000000,
                            UNIT_SCALE == 10000,
                    ;
                }
                Money { units: total }.percent_of(&Money { units: grand })
            } else {
                Money::zero()
            };
            let name = sorted[j].0.clone();
            let ghost prev = out@;
            out.push(
                CategoryAnalysis {
                    category: name,
                    total_amount: Money { units: total },
                    transaction_count: cnt,
                    average_amount: avg,
                    percentage_of_total: pct,
                },
            );
            proof {
                assert(rank_views(out@)[j as int] == rank_entry(sgv[j as int], grand as int));
                assert forall|t: int| 0 <= t < j implies rank_views(out@)[t] == rank_entry(
                    sgv[t],
                    grand as int,
                ) by {
                    assert(out@[t] == prev[t]);
                    assert(rank_views(prev)[t] == rank_entry(sgv[t], grand as int));
                }
            }
            j = j + 1;
        }
        proof {
            assert(rank_views(out@) =~= spec_categories(txs));
        }
        out
    }

    /// The anomaly list: every debit whose magnitude is more than three
    /// times its category's truncating mean, in document order.
    pub fn detect_anomalies(data: &FinancialData) -> (r: Vec<Transaction>)
        requires
            data.wf(),
        ensures
            r@ == data.transactions@.filter(
                |t: Transaction| spec_anomalous(t, debit_groups(data.transactions@)),
            ),
    {
        let ghost txs = data.transactions@;
        let ghost pa = |t: Transaction| spec_anomalous(t, debit_groups(txs));
        let tlen: usize = data.transactions.len();
        let (groups, _grand) = build_groups(data);
        let fallback = uncategorized();
        let n: usize = data.transactions.len();
        let mut out: Vec<Transaction> = Vec::new();
        proof {
            reveal(Seq::filter);
            assert(txs.take(0) =~= Seq::<Transaction>::empty());
            assert(out@ =~= txs.take(0).filter(pa));
        }
        let mut i: usize = 0;
        while i < n
            invariant
                i <= n,
                n == txs.len(),
                txs == data.transactions@,
                data.wf(),
                fallback@ == "Uncategorized"@,
                pa == (|t: Transaction| spec_anomalous(t, debit_groups(txs))),
                tlen == txs.len(),
                group_views(groups@) == debit_groups(txs),
                groups_bounded(group_views(groups@), txs.len() * MAX_AMOUNT_UNITS, txs.len() as int),
                out@ == txs.take(i as int).filter(pa),
            decreases n - i,
        {
            let t = &data.transactions[i];
            let is_d: bool = match t.transaction_type {
                TransactionType::Debit => true,
                _ => false,
            };
            if is_d {
                let key: &String = match &t.category {
                    Some(c) => c,
                    None => &fallback,
                };
                match find_group_key(&groups, key) {
                    Some(gi) => {
                        let total: i128 = groups[gi].1.0;
                        let cnt: usize = groups[gi].1.1;
                        proof {
                            assert(group_views(groups@)[gi as int] == (groups@[gi as int].0@, (
                                groups@[gi as int].1.0 as int,
                                groups@[gi as int].1.1 as int,
                            )));
                            assert(1 <= group_views(groups@)[gi as int].1.1);
                            assert(0 <= group_views(groups@)[gi as int].1.0);
                        }
                        let avg = Money { units: total }.divided_by(cnt);
                        proof {
                            lemma_div_le(total as int, cnt as int);
                            assert(0 <= avg@ <= total as int);
                            assert(3 * (total as int) <= 3 * (txs.len() * MAX_AMOUNT_UNITS) && 3 * (
                            txs.len() * MAX_AMOUNT_UNITS) < i128::MAX) by (nonlinear_arith)
                                requires
                                    0 <= total as int <= txs.len() * MAX_AMOUNT_UNITS,
                                    txs.len() == tlen as int,
                                    tlen as int <= 18446744073709551615,
                                    MAX_AMOUNT_UNITS == 100000000000000,
                            ;
                        }
                        let thr: i128 = avg.units * 3;
                        if t.amount.units > thr {
                            out.push(copy_transaction(t));
                        }
                    },
                    None => {},
                }
            }
            proof {
                reveal(Seq::filter);
                let s1 = txs.take(i + 1);
                assert(s1.drop_last() =~= txs.take(i as int));
                assert(s1.last() == txs[i as int]);
                assert(out@ == s1.filter(pa));
            }
            i = i + 1;
        }
        proof {
            assert(txs.take(n as int) =~= txs);
        }
        out
    }

    /// The spending trends: one row per distinct category label, in
    /// first-appearance order, each holding the category's labelled
    /// debit sums for the lookback window of calendar months ending at
    /// the current month, their direction, and their mean.  The window
    /// is capped only so that sums of whole-document monthly totals
    /// stay within the machine's integers.
    pub fn analyze_spending_trends(data: &FinancialData, months_back: usize) -> (r: Vec<
        SpendingTrend,
    >)
        requires
            data.wf(),
            months_back <= MAX_TREND_WINDOW,
        ensures
            r@.len() == data.categories@.len(),
            exists|y0: int, m0: int|
                1970 <= y0 && 1 <= m0 <= 12 && #[trigger] trends_anchored(
                    r@,
                    data.transactions@,
                    data.categories@,
                    y0,
                    m0,
                    months_back as int,
                ),
    {
        let ghost txs = data.transactions@;
        let (_now_ts, now_day) = crate::data::current_clock();
        let y0: i32 = now_day.year;
        let m0: u32 = now_day.month;
        let ghost y0i = y0 as int;
        let ghost m0i = m0 as int;
        let nb: usize = months_back;
        let base: i128 = (y0 as i128) * 12 + (m0 as i128) - 1;
        let nc: usize = data.categories.len();
        let mut out: Vec<SpendingTrend> = Vec::new();
        let mut ci: usize = 0;
        while ci < nc
            invariant
                ci <= nc,
                nc == data.categories@.len(),
                txs == data.transactions@,
                data.wf(),
                nb == months_back,
                nb <= MAX_TREND_WINDOW,
                1 <= m0i <= 12,
                y0i == y0 as int,
                m0i == m0 as int,
                base as int == y0i * 12 + (m0i - 1),
                out@.len() == ci,
                forall|t: int|
                    0 <= t < ci ==> trend_matches(
                        #[trigger] out@[t],
                        txs,
                        data.categories@[t]@,
                        y0i,
                        m0i,
                        nb as int,
                    ),
            decreases nc - ci,
        {
            let cat = &data.categories[ci];
            let ghost cv = cat@;
            let ghost goalseq = trend_amounts(txs, cv, y0i, m0i, nb as int);
            let mut ma: Vec<(String, Money)> = Vec::new();
            let mut j: usize = 0;
            while j < nb
                invariant
                    j <= nb,
                    nb <= MAX_TREND_WINDOW,
                    txs == data.transactions@,
                    data.wf(),
                    cv == cat@,
                    1 <= m0i <= 12,
                    y0i == y0 as int,
                    base as int == y0i * 12 + (m0i - 1),
                    goalseq == trend_amounts(txs, cv, y0i, m0i, nb as int),
                    ma@.len() == j,
                    forall|t: int| 0 <= t < j ==> pair_views(ma@)[t] == goalseq[t],
                    forall|t: int|
                        0 <= t < j ==> -MAX_GROUP_TOTAL <= (#[trigger] ma@[t]).1@
                            <= MAX_GROUP_TOTAL,
                decreases nb - j,
            {
                let back: i128 = (nb - 1 - j) as i128;
                let tgt: i128 = base - back;
                let q: i128 = match tgt.checked_div_euclid(12) {
                    Some(q) => q,
                    None => 0,
                };
                proof {
                    vstd::arithmetic::div_mod::lemma_fundamental_div_mod(tgt as int, 12);
                    vstd::arithmetic::div_mod::lemma_mod_bound(tgt as int, 12);
                }
                let mm: i128 = tgt - q * 12 + 1;
                let ghost ymv = month_shift(y0i, m0i, j - (nb - 1));
                proof {
                    assert(tgt as int == y0i * 12 + (m0i - 1) + (j - (nb - 1)));
                    assert(q as int == ymv.0 && mm as int == ymv.1);
                    assert(1 <= mm <= 12);
                }
                let mut label = String::new();
                crate::text::append_int(&mut label, q);
                label.append("-");
                crate::text::append_pad2(&mut label, mm as u128);
                proof {
                    reveal_strlit("-");
                    assert(label@ =~= month_label(ymv.0, ymv.1));
                }
                let ghost pmj = |t: Transaction| debit_cat_in_month(t, cv, ymv.0, ymv.1);
                let tn: usize = data.transactions.len();
                let mut acc: i128 = 0;
                proof {
                    reveal(Seq::filter);
                    assert(txs.take(0) =~= Seq::<Transaction>::empty());
                }
                let mut ti: usize = 0;
                while ti < tn
                    invariant
                        ti <= tn,
                        tn == txs.len(),
                        txs == data.transactions@,
                        data.wf(),
                        cv == cat@,
                        q as int == ymv.0,
                        mm as int == ymv.1,
                        pmj == (|t: Transaction| debit_cat_in_month(t, cv, ymv.0, ymv.1)),
                        acc as int == sum_amounts(txs.take(ti as int).filter(pmj)),
                        0 <= acc as int <= (ti as int) * MAX_AMOUNT_UNITS,
                    decreases tn - ti,
                {
                    proof {
                        assert(txs[ti as int].wf());
                        assert((ti as int) * MAX_AMOUNT_UNITS + MAX_AMOUNT_UNITS == ((ti
                            + 1) as int) * MAX_AMOUNT_UNITS) by (nonlinear_arith);
                        assert(0 <= (ti as int) * MAX_AMOUNT_UNITS <= (tn as int)
                            * MAX_AMOUNT_UNITS && (tn as int) * MAX_AMOUNT_UNITS
                            < i128::MAX) by (nonlinear_arith)
                            requires
                                0 <= ti as int <= tn as int,
                                tn as int <= 18446744073709551615,
                                MAX_AMOUNT_UNITS == 100000000000000,
                        ;
                    }
                    let t = &data.transactions[ti];
                    let is_d: bool = match t.transaction_type {
                        TransactionType::Debit => true,
                        _ => false,
                    };
                    let matched: bool = is_d && (t.date.year as i128) == q && (t.date.month
                        as i128) == mm && (match &t.category {
                        Some(cc) => *cc == *cat,
                        None => false,
                    });
                    if matched {
                        acc = acc + t.amount.units;
                    }
                    proof {
                        reveal(Seq::filter);
                        let s1 = txs.take(ti + 1);
                        assert(s1.drop_last() =~= txs.take(ti as int));
                        assert(s1.last() == txs[ti as int]);
                        if pmj(txs[ti as int]) {
                            assert(s1.filter(pmj) =~= txs.take(ti as int).filter(pmj).push(
                                txs[ti as int],
                            ));
                            assert(s1.filter(pmj).drop_last() =~= txs.take(ti as int).filter(pmj));
                        }
                        assert(acc as int == sum_amounts(s1.filter(pmj)));
                    }
                    ti = ti + 1;
                }
                proof {
                    assert(txs.take(tn as int) =~= txs);
                    assert((tn as int) * MAX_AMOUNT_UNITS <= MAX_GROUP_TOTAL) by (nonlinear_arith)
                        requires
                            0 <= tn as int <= 18446744073709551615,
                            MAX_AMOUNT_UNITS == 100000000000000,
                            MAX_GROUP_TOTAL == 18446744073709551615 * 100000000000000,
                    ;
                }
                ma.push((label, Money { units: acc }));
                proof {
                    assert(goalseq[j as int] == (
                        month_label(ymv.0, ymv.1),
                        trend_month_sum(txs, cv, ymv.0, ymv.1),
                    ));
                    assert(pair_views(ma@)[j as int] == goalseq[j as int]);
                }
                j = j + 1;
            }
            proof {
                assert(pair_views(ma@) =~= goalseq);
            }
            let dir = AnalysisEngine::calculate_trend_direction(&ma);
            let avg = AnalysisEngine::calculate_average(&ma);
            let name = cat.clone();
            out.push(
                SpendingTrend {
                    category: name,
                    monthly_amounts: ma,
                    trend_direction: dir,
                    average_monthly: avg,
                },
            );
            ci = ci + 1;
        }
        proof {
            assert(trends_anchored(
                out@,
                data.transactions@,
                data.categories@,
                y0i,
                m0i,
                months_back as int,
            ));
        }
        out
    }
}

} // verus!
