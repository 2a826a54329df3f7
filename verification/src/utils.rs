//! Small verified helpers around amounts, transactions and field
//! validation.

use vstd::prelude::*;
use vstd::string::StringSliceAdditionalSpecFns;

use crate::analysis::{sum_amounts, MAX_GROUP_TOTAL};
use crate::data::{copy_transaction, Transaction, TransactionType, TxKind};
use crate::dates::Date;
use crate::money::{
    parse_amount_chars, spec_div_trunc, Money, MAX_AMOUNT_UNITS, UNIT_SCALE,
};
use crate::text::{
    append_pad2, append_uint, chars_of, find_from, is_digit_char, is_space_char,
    lemma_find_from_range, lowered, pad2_str, spec_trim, trim_text, uint_str,
};

verus! {

/// Sum of a list of amounts.
pub open spec fn sum_money(s: Seq<Money>) -> int
    decreases s.len(),
{
    if s.len() == 0 {
        0
    } else {
        sum_money(s.drop_last()) + s.last()@
    }
}

/// Sum of `v[lo..hi]`.
fn sum_money_range(v: &Vec<Money>, lo: usize, hi: usize) -> (r: i128)
    requires
        lo <= hi <= v@.len(),
        forall|i: int|
            0 <= i < v@.len() ==> -MAX_AMOUNT_UNITS <= (#[trigger] v@[i])@ <= MAX_AMOUNT_UNITS,
    ensures
        r as int == sum_money(v@.subrange(lo as int, hi as int)),
        -((hi - lo) * MAX_AMOUNT_UNITS) <= r as int <= (hi - lo) * MAX_AMOUNT_UNITS,
{
    let mut acc: i128 = 0;
    let mut i: usize = lo;
    proof {
        assert(v@.subrange(lo as int, lo as int) =~= Seq::<Money>::empty());
    }
    while i < hi
        invariant
            lo <= i <= hi <= v@.len(),
            forall|k: int|
                0 <= k < v@.len() ==> -MAX_AMOUNT_UNITS <= (#[trigger] v@[k])@ <= MAX_AMOUNT_UNITS,
            acc as int == sum_money(v@.subrange(lo as int, i as int)),
            -((i - lo) * MAX_AMOUNT_UNITS) <= acc as int <= (i - lo) * MAX_AMOUNT_UNITS,
        decreases hi - i,
    {
        proof {
            assert(v@.subrange(lo as int, i + 1).drop_last() =~= v@.subrange(lo as int, i as int));
            assert(v@.subrange(lo as int, i + 1).last() == v@[i as int]);
            let a = acc as int;
            let e = v@[i as int]@;
            assert(-((i + 1 - lo) * MAX_AMOUNT_UNITS) <= a + e <= (i + 1 - lo) * MAX_AMOUNT_UNITS
                && (i + 1 - lo) * MAX_AMOUNT_UNITS < i128::MAX) by (nonlinear_arith)
                requires
                    -((i - lo) * MAX_AMOUNT_UNITS) <= a <= (i - lo) * MAX_AMOUNT_UNITS,
                    -MAX_AMOUNT_UNITS <= e <= MAX_AMOUNT_UNITS,
                    0 <= i - lo,
                    i + 1 - lo <= 18446744073709551615,
                    MAX_AMOUNT_UNITS == 100000000000000,
            ;
        }
        acc = acc + v[i].units;
        i = i + 1;
    }
    acc
}

/// The moving average of `values` over `window_size` consecutive
/// entries, truncating toward zero; an impossible window yields no
/// entries.
pub fn simple_moving_average(values: &Vec<Money>, window_size: usize) -> (r: Vec<Money>)
    requires
        forall|i: int|
            0 <= i < values@.len() ==> -MAX_AMOUNT_UNITS <= (#[trigger] values@[i])@
                <= MAX_AMOUNT_UNITS,
    ensures
        (window_size == 0 || window_size > values@.len()) ==> r@.len() == 0,
        (0 < window_size <= values@.len()) ==> r@.len() == values@.len() - window_size + 1,
        forall|i: int|
            0 <= i < r@.len() ==> (#[trigger] r@[i])@ == spec_div_trunc(
                sum_money(values@.subrange(i, i + window_size as int)),
                window_size as int,
            ),
{
    let n: usize = values.len();
    let mut r: Vec<Money> = Vec::new();
    if window_size == 0 || window_size > n {
        return r;
    }
    let mut i: usize = 0;
    while i <= n - window_size
        invariant
            0 < window_size <= n,
            n == values@.len(),
            i <= n - window_size + 1,
            forall|k: int|
                0 <= k < values@.len() ==> -MAX_AMOUNT_UNITS <= (#[trigger] values@[k])@
                    <= MAX_AMOUNT_UNITS,
            r@.len() == i,
            forall|k: int|
                0 <= k < i ==> (#[trigger] r@[k])@ == spec_div_trunc(
                    sum_money(values@.subrange(k, k + window_size as int)),
                    window_size as int,
                ),
        decreases n - i,
    {
        let s = sum_money_range(values, i, i + window_size);
        let avg = Money { units: s }.divided_by(window_size);
        r.push(avg);
        i = i + 1;
    }
    r
}

/// Round to whole hundredths of a unit, halves to the even hundredth.
pub open spec fn round_cents(v: int) -> int {
    let m = if v < 0 {
        -v
    } else {
        v
    };
    let q = m / 100;
    let rem = m % 100;
    let rq = if rem > 50 {
        q + 1
    } else if rem < 50 {
        q
    } else if q % 2 == 0 {
        q
    } else {
        q + 1
    };
    if v < 0 {
        -(rq * 100)
    } else {
        rq * 100
    }
}

/// Round an amount to the nearest hundredth of a unit, halves to even.
pub fn round_currency(amount: Money) -> (r: Money)
    requires
        -MAX_GROUP_TOTAL <= amount@ <= MAX_GROUP_TOTAL,
    ensures
        r@ == round_cents(amount@),
{
    let neg = amount.units < 0;
    let m: i128 = if neg {
        -amount.units
    } else {
        amount.units
    };
    let q: i128 = ((m as u128) / 100) as i128;
    let rem: i128 = ((m as u128) % 100) as i128;
    let rq: i128 = if rem > 50 {
        q + 1
    } else if rem < 50 {
        q
    } else if q % 2 == 0 {
        q
    } else {
        q + 1
    };
    proof {
        vstd::arithmetic::div_mod::lemma_fundamental_div_mod(m as int, 100);
        vstd::arithmetic::div_mod::lemma_mod_bound(m as int, 100);
        assert(q as int * 100 <= m as int);
        assert((q as int + 1) * 100 <= m as int + 100) by (nonlinear_arith)
            requires
                q as int * 100 <= m as int,
        ;
    }
    if neg {
        Money { units: -(rq * 100) }
    } else {
        Money { units: rq * 100 }
    }
}

/// The characters of a currency string that carry its value.
pub open spec fn kept_amount_chars(s: Seq<char>) -> Seq<char>
    decreases s.len(),
{
    if s.len() == 0 {
        s
    } else {
        let p = kept_amount_chars(s.drop_last());
        if is_digit_char(s.last()) || s.last() == '.' || s.last() == '-' {
            p.push(s.last())
        } else {
            p
        }
    }
}

/// Read an amount out of a currency string: every character other than
/// digits, dots and minus signs is dropped, and the rest must form the
/// signed amount grammar.
pub fn parse_currency(input: &str) -> (r: Option<Money>)
    ensures
        match r {
            Some(m) => parse_amount_chars(kept_amount_chars(input@)) == Some(m@),
            None => parse_amount_chars(kept_amount_chars(input@)) is None,
        },
{
    let cs = chars_of(input);
    let n: usize = cs.len();
    let mut kept = String::new();
    let mut i: usize = 0;
    while i < n
        invariant
            i <= n,
            n == cs@.len(),
            cs@ == input@,
            kept@ == kept_amount_chars(cs@.take(i as int)),
        decreases n - i,
    {
        let c = cs[i];
        proof {
            assert(cs@.take(i + 1).drop_last() =~= cs@.take(i as int));
            assert(cs@.take(i + 1).last() == c);
        }
        if (c >= '0' && c <= '9') || c == '.' || c == '-' {
            kept.push(c);
        }
        i = i + 1;
    }
    proof {
        assert(cs@.take(n as int) =~= cs@);
    }
    Money::parse(kept.as_str())
}

/// Truncating division, whatever the divisor's sign.
pub open spec fn div_trunc_any(a: int, b: int) -> int {
    if b > 0 {
        spec_div_trunc(a, b)
    } else {
        spec_div_trunc(-a, -b)
    }
}

/// The percent change from `old_value` to `new_value`, carried to four
/// decimal places and truncated; zero when the old value is zero.
pub fn percentage_change(old_value: Money, new_value: Money) -> (r: Money)
    requires
        -1000000000000000000000000000000 <= old_value@ <= 1000000000000000000000000000000,
        -1000000000000000000000000000000 <= new_value@ <= 1000000000000000000000000000000,
    ensures
        old_value@ == 0 ==> r@ == 0,
        old_value@ != 0 ==> r@ == div_trunc_any(
            (new_value@ - old_value@) * 100 * (UNIT_SCALE as int),
            old_value@,
        ),
{
    if old_value.units == 0 {
        return Money { units: 0 };
    }
    let num: i128 = (new_value.units - old_value.units) * 100 * UNIT_SCALE;
    let nn = num < 0;
    let dn = old_value.units < 0;
    let nm: u128 = if nn {
        (-num) as u128
    } else {
        num as u128
    };
    let dm: u128 = if dn {
        (-old_value.units) as u128
    } else {
        old_value.units as u128
    };
    let q: u128 = nm / dm;
    let res: i128 = if nn != dn {
        -(q as i128)
    } else {
        q as i128
    };
    proof {
        let a = num as int;
        let b = old_value.units as int;
        assert(nm as int == if a < 0 {
            -a
        } else {
            a
        });
        assert(dm as int == if b < 0 {
            -b
        } else {
            b
        });
        vstd::arithmetic::div_mod::lemma_fundamental_div_mod(nm as int, dm as int);
        vstd::arithmetic::div_mod::lemma_mod_bound(nm as int, dm as int);
        assert(q as int <= nm as int) by (nonlinear_arith)
            requires
                nm as int == dm as int * (q as int) + (nm as int) % (dm as int),
                0 <= (nm as int) % (dm as int) < dm as int,
                1 <= dm as int,
                0 <= nm as int,
                0 <= q as int,
        ;
        assert(res as int == div_trunc_any(a * 1, b)) by {
            assert(a * 1 == a);
        }
    }
    Money { units: res }
}

/// Net worth: the sum of the assets minus the sum of the liabilities.
pub fn calculate_net_worth(assets: &Vec<Money>, liabilities: &Vec<Money>) -> (r: Money)
    requires
        forall|i: int|
            0 <= i < assets@.len() ==> -MAX_AMOUNT_UNITS <= (#[trigger] assets@[i])@
                <= MAX_AMOUNT_UNITS,
        forall|i: int|
            0 <= i < liabilities@.len() ==> -MAX_AMOUNT_UNITS <= (#[trigger] liabilities@[i])@
                <= MAX_AMOUNT_UNITS,
    ensures
        r@ == sum_money(assets@) - sum_money(liabilities@),
{
    let ta = sum_money_range(assets, 0, assets.len());
    let tl = sum_money_range(liabilities, 0, liabilities.len());
    proof {
        assert(assets@.subrange(0, assets@.len() as int) =~= assets@);
        assert(liabilities@.subrange(0, liabilities@.len() as int) =~= liabilities@);
    }
    Money { units: ta - tl }
}

/// Two dates fall in the same calendar month.
pub fn same_month(date1: &Date, date2: &Date) -> (r: bool)
    ensures
        r == (date1.year == date2.year && date1.month == date2.month),
{
    date1.same_month(date2)
}

/// `a` does not come after `b` in calendar order.
pub open spec fn date_le(a: Date, b: Date) -> bool {
    if a.year != b.year {
        a.year < b.year
    } else if a.month != b.month {
        a.month < b.month
    } else {
        a.day <= b.day
    }
}

/// The transactions dated within `[start, end]`, in order.
pub fn filter_by_date_range(transactions: &Vec<Transaction>, start: Date, end: Date) -> (r: Vec<
    Transaction,
>)
    ensures
        r@ == transactions@.filter(|t: Transaction| date_le(start, t.date) && date_le(t.date, end)),
{
    let ghost pred = |t: Transaction| date_le(start, t.date) && date_le(t.date, end);
    let n: usize = transactions.len();
    let mut r: Vec<Transaction> = Vec::new();
    proof {
        reveal(Seq::filter);
        assert(transactions@.take(0) =~= Seq::<Transaction>::empty());
        assert(r@ =~= transactions@.take(0).filter(pred));
    }
    let mut i: usize = 0;
    while i < n
        invariant
            i <= n,
            n == transactions@.len(),
            pred == (|t: Transaction| date_le(start, t.date) && date_le(t.date, end)),
            r@ == transactions@.take(i as int).filter(pred),
        decreases n - i,
    {
        let t = &transactions[i];
        let d = t.date;
        let ge_start: bool = if d.year != start.year {
            start.year < d.year
        } else if d.month != start.month {
            start.month < d.month
        } else {
            start.day <= d.day
        };
        let le_end: bool = if d.year != end.year {
            d.year < end.year
        } else if d.month != end.month {
            d.month < end.month
        } else {
            d.day <= end.day
        };
        if ge_start && le_end {
            r.push(copy_transaction(t));
        }
        proof {
            reveal(Seq::filter);
            let s1 = transactions@.take(i + 1);
            assert(s1.drop_last() =~= transactions@.take(i as int));
            assert(s1.last() == transactions@[i as int]);
            assert(r@ == s1.filter(pred));
        }
        i = i + 1;
    }
    proof {
        assert(transactions@.take(n as int) =~= transactions@);
    }
    r
}

/// Two transaction kinds agree up to the free text of the escape hatch.
pub open spec fn same_kind(a: TxKind, b: TxKind) -> bool {
    match (a, b) {
        (TxKind::Debit, TxKind::Debit) => true,
        (TxKind::Credit, TxKind::Credit) => true,
        (TxKind::Transfer, TxKind::Transfer) => true,
        (TxKind::Fee, TxKind::Fee) => true,
        (TxKind::Interest, TxKind::Interest) => true,
        (TxKind::Dividend, TxKind::Dividend) => true,
        (TxKind::Other(_), TxKind::Other(_)) => true,
        _ => false,
    }
}

/// The summed magnitudes of the transactions of one kind, the kind
/// compared without regard to escape-hatch text.
pub fn total_by_type(transactions: &Vec<Transaction>, transaction_type: TransactionType) -> (r:
    Money)
    requires
        forall|i: int|
            0 <= i < transactions@.len() ==> 0 <= (#[trigger] transactions@[i]).amount@
                <= MAX_AMOUNT_UNITS,
    ensures
        r@ == sum_amounts(
            transactions@.filter(|t: Transaction| same_kind(t.transaction_type@, transaction_type@)),
        ),
{
    let ghost tt = transaction_type@;
    let ghost pred = |t: Transaction| same_kind(t.transaction_type@, tt);
    let n: usize = transactions.len();
    let mut acc: i128 = 0;
    proof {
        reveal(Seq::filter);
        assert(transactions@.take(0) =~= Seq::<Transaction>::empty());
    }
    let mut i: usize = 0;
    while i < n
        invariant
            i <= n,
            n == transactions@.len(),
            tt == transaction_type@,
            forall|k: int|
                0 <= k < transactions@.len() ==> 0 <= (#[trigger] transactions@[k]).amount@
                    <= MAX_AMOUNT_UNITS,
            pred == (|t: Transaction| same_kind(t.transaction_type@, tt)),
            acc as int == sum_amounts(transactions@.take(i as int).filter(pred)),
            0 <= acc as int <= (i as int) * MAX_AMOUNT_UNITS,
        decreases n - i,
    {
        proof {
            assert((i as int) * MAX_AMOUNT_UNITS + MAX_AMOUNT_UNITS == ((i + 1) as int)
                * MAX_AMOUNT_UNITS) by (nonlinear_arith);
            assert(0 <= (i as int) * MAX_AMOUNT_UNITS <= (n as int) * MAX_AMOUNT_UNITS && (n as int)
                * MAX_AMOUNT_UNITS < i128::MAX) by (nonlinear_arith)
                requires
                    0 <= i as int <= n as int,
                    n as int <= 18446744073709551615,
                    MAX_AMOUNT_UNITS == 100000000000000,
            ;
        }
        let t = &transactions[i];
        let matched: bool = match (&t.transaction_type, &transaction_type) {
            (TransactionType::Debit, TransactionType::Debit) => true,
            (TransactionType::Credit, TransactionType::Credit) => true,
            (TransactionType::Transfer, TransactionType::Transfer) => true,
            (TransactionType::Fee, TransactionType::Fee) => true,
            (TransactionType::Interest, TransactionType::Interest) => true,
            (TransactionType::Dividend, TransactionType::Dividend) => true,
            (TransactionType::Other(_), TransactionType::Other(_)) => true,
            _ => false,
        };
        if matched {
            acc = acc + t.amount.units;
        }
        proof {
            reveal(Seq::filter);
            let s1 = transactions@.take(i + 1);
            assert(s1.drop_last() =~= transactions@.take(i as int));
            assert(s1.last() == transactions@[i as int]);
            if pred(transactions@[i as int]) {
                assert(s1.filter(pred) =~= transactions@.take(i as int).filter(pred).push(
                    transactions@[i as int],
                ));
                assert(s1.filter(pred).drop_last() =~= transactions@.take(i as int).filter(pred));
            }
            assert(acc as int == sum_amounts(s1.filter(pred)));
        }
        i = i + 1;
    }
    proof {
        assert(transactions@.take(n as int) =~= transactions@);
    }
    Money { units: acc }
}

/// The address shape the validator accepts: no whitespace, exactly one
/// separator with a non-empty local part, and a dot strictly inside
/// the domain.
pub open spec fn valid_email(s: Seq<char>) -> bool {
    let a = find_from(s, '@', 0);
    &&& (forall|i: int| 0 <= i < s.len() ==> !is_space_char(#[trigger] s[i]))
    &&& a >= 1
    &&& find_from(s, '@', a + 1) == -1
    &&& exists|p: int| a + 2 <= p < s.len() - 1 && s[p] == '.'
}

/// Whether a string is shaped like an email address.
pub fn is_valid_email(email: &str) -> (r: bool)
    ensures
        r == valid_email(email@),
{
    let cs = chars_of(email);
    let n: usize = cs.len();
    let mut i: usize = 0;
    while i < n
        invariant
            i <= n,
            n == cs@.len(),
            cs@ == email@,
            forall|k: int| 0 <= k < i ==> !is_space_char(#[trigger] cs@[k]),
        decreases n - i,
    {
        if crate::text::is_space(cs[i]) {
            return false;
        }
        i = i + 1;
    }
    proof {
        lemma_find_from_range(cs@, '@', 0);
    }
    let a = match crate::text::find_char_from(&cs, '@', 0) {
        Some(a) => a,
        None => {
            return false;
        },
    };
    if a < 1 {
        return false;
    }
    proof {
        lemma_find_from_range(cs@, '@', a + 1);
    }
    match crate::text::find_char_from(&cs, '@', a + 1) {
        Some(_) => {
            return false;
        },
        None => {},
    }
    if a >= n - 2 {
        proof {
            assert(forall|p: int| !(a + 2 <= p < cs@.len() - 1 && cs@[p] == '.'));
        }
        return false;
    }
    let mut p: usize = a + 2;
    while p < n - 1
        invariant
            a + 2 <= p <= n - 1,
            n == cs@.len(),
            n >= 2,
            1 <= a,
            cs@ == email@,
            forall|k: int| 0 <= k < n ==> !is_space_char(#[trigger] cs@[k]),
            find_from(cs@, '@', 0) == a as int,
            find_from(cs@, '@', a + 1) == -1,
            forall|k: int| a + 2 <= k < p ==> cs@[k] != '.',
        decreases n - p,
    {
        if cs[p] == '.' {
            proof {
                assert(a + 2 <= p < cs@.len() - 1 && cs@[p as int] == '.');
            }
            return true;
        }
        p = p + 1;
    }
    proof {
        assert(forall|k: int| !(a + 2 <= k < cs@.len() - 1 && cs@[k] == '.'));
    }
    false
}

/// Whether a string can serve as an account number: not blank, and at
/// least four bytes long.
pub fn is_valid_account_number(account_number: &str) -> (r: bool)
    ensures
        r == (spec_trim(account_number@).len() > 0 && account_number.spec_bytes().len() >= 4),
{
    let trimmed = trim_text(account_number);
    let nonblank = trimmed.as_str().unicode_len() > 0;
    nonblank && account_number.as_bytes().len() >= 4
}

/// An upper-case ASCII letter.
pub open spec fn is_upper_char(c: char) -> bool {
    'A' <= c && c <= 'Z'
}

/// Whether a string is a three-letter upper-case currency code.
pub fn is_valid_currency_code(currency: &str) -> (r: bool)
    ensures
        r == (currency@.len() == 3 && (forall|i: int|
            0 <= i < currency@.len() ==> is_upper_char(#[trigger] currency@[i]))),
{
    let n: usize = currency.unicode_len();
    if n != 3 {
        return false;
    }
    let mut i: usize = 0;
    while i < n
        invariant
            i <= n,
            n == currency@.len(),
            forall|k: int| 0 <= k < i ==> is_upper_char(#[trigger] currency@[k]),
        decreases n - i,
    {
        let c = currency.get_char(i);
        if !(c >= 'A' && c <= 'Z') {
            return false;
        }
        i = i + 1;
    }
    true
}

/// Whether an amount can stand as a transaction magnitude: strictly
/// positive.
pub fn is_valid_amount(amount: Money) -> (r: bool)
    ensures
        r == (amount@ > 0),
{
    amount.gt(&Money::zero())
}

/// The lowered extension of a path: the text after the last dot of the
/// last path component, absent when that component has no dot past its
/// first character.
pub open spec fn spec_extension(s: Seq<char>) -> Option<Seq<char>> {
    let name = (if find_from(s, '/', 0) == -1 {
        s
    } else {
        s.skip(last_slash(s) + 1)
    });
    let d = last_dot(name);
    if d >= 1 {
        Some(lowered(name.skip(d + 1)))
    } else {
        None
    }
}

/// The index of the last slash of `s` (call only when one exists).
pub open spec fn last_slash(s: Seq<char>) -> int
    decreases s.len(),
{
    if s.len() == 0 {
        -1
    } else if s.last() == '/' {
        s.len() - 1
    } else {
        last_slash(s.drop_last())
    }
}

/// The index of the last dot of `s`, or -1.
pub open spec fn last_dot(s: Seq<char>) -> int
    decreases s.len(),
{
    if s.len() == 0 {
        -1
    } else if s.last() == '.' {
        s.len() - 1
    } else {
        last_dot(s.drop_last())
    }
}

/// Find the last occurrence of `c` in `v`.
fn rfind_char(v: &Vec<char>, c: char, ghost_kind: Ghost<int>) -> (r: Option<usize>)
    ensures
        ({
            let li = (if ghost_kind@ == 0 {
                last_slash(v@)
            } else {
                last_dot(v@)
            });
            (ghost_kind@ == 0 ==> c == '/') && (ghost_kind@ != 0 ==> c == '.') ==> (match r {
                Some(i) => li == i as int && i < v@.len(),
                None => li == -1,
            })
        }),
{
    let n: usize = v.len();
    let mut i: usize = n;
    proof {
        assert(v@.take(n as int) =~= v@);
    }
    while i > 0
        invariant
            i <= n,
            n == v@.len(),
            c == '/' ==> last_slash(v@) == last_slash(v@.take(i as int)),
            c == '.' ==> last_dot(v@) == last_dot(v@.take(i as int)),
        decreases i,
    {
        proof {
            assert(v@.take(i as int).drop_last() =~= v@.take(i - 1));
            assert(v@.take(i as int).last() == v@[i - 1]);
        }
        if v[i - 1] == c {
            return Some(i - 1);
        }
        i = i - 1;
    }
    proof {
        assert(v@.take(0) =~= Seq::<char>::empty());
    }
    None
}

/// The lower-cased extension of a path, if its file name has one.
pub fn get_file_extension(path: &str) -> (r: Option<String>)
    ensures
        match r {
            Some(e) => spec_extension(path@) == Some(e@),
            None => spec_extension(path@) is None,
        },
{
    let cs = chars_of(path);
    let name_start: usize = match rfind_char(&cs, '/', Ghost(0)) {
        Some(i) => i + 1,
        None => 0,
    };
    let name = crate::text::string_from_range(&cs, name_start, cs.len());
    let nv = chars_of(name.as_str());
    proof {
        if find_from(cs@, '/', 0) == -1 {
            lemma_no_slash_means_none(cs@);
            assert(nv@ =~= cs@);
        } else {
            lemma_slash_exists(cs@);
            assert(nv@ =~= cs@.skip(last_slash(cs@) + 1));
        }
    }
    match rfind_char(&nv, '.', Ghost(1)) {
        Some(d) => {
            if d >= 1 {
                let ext = crate::text::string_from_range(&nv, d + 1, nv.len());
                let low = crate::text::lower_text(ext.as_str());
                proof {
                    assert(nv@.subrange(d + 1, nv@.len() as int) =~= nv@.skip(d + 1));
                }
                Some(low)
            } else {
                None
            }
        },
        None => None,
    }
}

/// Without a slash anywhere, the last-slash scan finds nothing.
proof fn lemma_no_slash_means_none(s: Seq<char>)
    requires
        find_from(s, '/', 0) == -1,
    ensures
        last_slash(s) == -1,
    decreases s.len(),
{
    if s.len() > 0 {
        assert(forall|i: int| 0 <= i < s.len() ==> s[i] != '/') by {
            lemma_find_none_no_occurrence(s, '/', 0);
        }
        lemma_no_occurrence_last_none(s);
    }
}

/// A failed search means the character occurs nowhere at or after `i`.
proof fn lemma_find_none_no_occurrence(s: Seq<char>, c: char, i: int)
    requires
        0 <= i,
        find_from(s, c, i) == -1,
    ensures
        forall|k: int| i <= k < s.len() ==> s[k] != c,
    decreases s.len() - i,
{
    if i < s.len() {
        lemma_find_none_no_occurrence(s, c, i + 1);
    }
}

/// Without an occurrence anywhere, the last-slash scan finds nothing.
proof fn lemma_no_occurrence_last_none(s: Seq<char>)
    requires
        forall|i: int| 0 <= i < s.len() ==> s[i] != '/',
    ensures
        last_slash(s) == -1,
    decreases s.len(),
{
    if s.len() > 0 {
        assert(forall|i: int| 0 <= i < s.len() - 1 ==> s.drop_last()[i] == s[i]);
        lemma_no_occurrence_last_none(s.drop_last());
    }
}

/// With a slash somewhere, the last-slash scan finds a valid index.
proof fn lemma_slash_exists(s: Seq<char>)
    requires
        find_from(s, '/', 0) != -1,
    ensures
        0 <= last_slash(s) < s.len(),
        s[last_slash(s)] == '/',
    decreases s.len(),
{
    lemma_find_from_range(s, '/', 0);
    let i = find_from(s, '/', 0);
    assert(s[i] == '/');
    lemma_some_occurrence_last_valid(s, i);
}

/// With an occurrence at `i`, the last-slash scan finds a valid index.
proof fn lemma_some_occurrence_last_valid(s: Seq<char>, i: int)
    requires
        0 <= i < s.len(),
        s[i] == '/',
    ensures
        0 <= last_slash(s) < s.len(),
        s[last_slash(s)] == '/',
    decreases s.len(),
{
    if s.last() != '/' {
        assert(i < s.len() - 1);
        assert(s.drop_last()[i] == s[i]);
        lemma_some_occurrence_last_valid(s.drop_last(), i);
        assert(s[last_slash(s.drop_last())] == s.drop_last()[last_slash(s.drop_last())]);
    }
}

/// Whether a path names an interchange-format file, judged by its
/// extension alone.
pub fn is_qif_file(path: &str) -> (r: bool)
    ensures
        r == (spec_extension(path@) == Some("qif"@)),
{
    match get_file_extension(path) {
        Some(e) => crate::text::str_eq_str(e.as_str(), "qif"),
        None => false,
    }
}


/// The two-decimal text of an amount already rounded to hundredths:
/// sign, whole units, a dot, two digits.
pub open spec fn fixed2_str(v: int) -> Seq<char> {
    let m = if v < 0 {
        -v
    } else {
        v
    };
    let cents = m / 100;
    let sign = (if v < 0 {
        seq!['-']
    } else {
        Seq::<char>::empty()
    });
    sign + uint_str((cents / 100) as nat) + seq!['.'] + pad2_str((cents % 100) as nat)
}

/// What the currency formatter prints: the currency's sign, or the
/// code and a space, before the amount rounded to two decimals.
pub open spec fn currency_text(v: int, cur: Seq<char>) -> Seq<char> {
    let amt = fixed2_str(round_cents(v));
    if cur == "USD"@ {
        "$"@ + amt
    } else if cur == "EUR"@ {
        "\u{20ac}"@ + amt
    } else if cur == "GBP"@ {
        "\u{a3}"@ + amt
    } else {
        cur + " "@ + amt
    }
}

/// Append the two-decimal text of `v`, which is a whole number of
/// hundredths.
fn append_fixed2(out: &mut String, v: i128)
    requires
        -MAX_GROUP_TOTAL - 100 <= v <= MAX_GROUP_TOTAL + 100,
        v % 100 == 0,
    ensures
        final(out)@ == old(out)@ + fixed2_str(v as int),
{
    let m: u128 = if v < 0 {
        out.append("-");
        (-v) as u128
    } else {
        v as u128
    };
    let cents: u128 = m / 100;
    append_uint(out, cents / 100);
    out.append(".");
    append_pad2(out, cents % 100);
    proof {
        reveal_strlit("-");
        reveal_strlit(".");
        assert(final(out)@ =~= old(out)@ + fixed2_str(v as int));
    }
}

/// Format an amount for display: a currency sign for the dollar, euro
/// and pound codes, otherwise the code itself and a space, then the
/// amount rounded to two decimals.
pub fn format_currency(amount: Money, currency: &str) -> (r: String)
    requires
        -MAX_GROUP_TOTAL <= amount@ <= MAX_GROUP_TOTAL,
    ensures
        r@ == currency_text(amount@, currency@),
{
    let rounded = round_currency(amount);
    let mut out = String::new();
    if crate::text::str_eq_str(currency, "USD") {
        out.append("$");
    } else if crate::text::str_eq_str(currency, "EUR") {
        out.append("\u{20ac}");
    } else if crate::text::str_eq_str(currency, "GBP") {
        out.append("\u{a3}");
    } else {
        out.append(currency);
        out.append(" ");
    }
    proof {
        reveal_strlit(" ");
    }
    append_fixed2(&mut out, rounded.units);
    proof {
        assert(out@ =~= currency_text(amount@, currency@));
    }
    out
}

/// The calendar month of a transaction.
pub open spec fn month_of(t: Transaction) -> (int, int) {
    (t.date.year as int, t.date.month as int)
}

/// Append a key to a table unless already present.
pub open spec fn key_push<K>(acc: Seq<K>, k: K) -> Seq<K> {
    if acc.contains(k) {
        acc
    } else {
        acc.push(k)
    }
}

/// The distinct calendar months of a transaction list, in order of
/// first appearance.
pub open spec fn month_table(s: Seq<Transaction>) -> Seq<(int, int)>
    decreases s.len(),
{
    if s.len() == 0 {
        Seq::empty()
    } else {
        key_push(month_table(s.drop_last()), month_of(s.last()))
    }
}

/// The distinct grouping categories of a transaction list (the
/// fallback bucket included), in order of first appearance.
pub open spec fn category_table(s: Seq<Transaction>) -> Seq<Seq<char>>
    decreases s.len(),
{
    if s.len() == 0 {
        Seq::empty()
    } else {
        key_push(category_table(s.drop_last()), crate::analysis::cat_key(s.last()))
    }
}

/// Group transactions by calendar month: one entry per distinct month
/// in order of first appearance, each holding that month's
/// transactions in order.
pub fn group_by_month(transactions: &Vec<Transaction>) -> (r: Vec<((i32, u32), Vec<Transaction>)>)
    ensures
        r@.len() == month_table(transactions@).len(),
        forall|g: int|
            0 <= g < r@.len() ==> ((#[trigger] r@[g]).0.0 as int, r@[g].0.1 as int) == month_table(
                transactions@,
            )[g],
        forall|g: int|
            0 <= g < r@.len() ==> (#[trigger] r@[g]).1@ == transactions@.filter(
                |t: Transaction| month_of(t) == month_table(transactions@)[g],
            ),
{
    let ghost txs = transactions@;
    let n: usize = transactions.len();
    let mut keys: Vec<(i32, u32)> = Vec::new();
    proof {
        assert(txs.take(0) =~= Seq::<Transaction>::empty());
        assert(keys@.map_values(|k: (i32, u32)| (k.0 as int, k.1 as int)) =~= month_table(
            txs.take(0),
        ));
    }
    let mut i: usize = 0;
    while i < n
        invariant
            i <= n,
            n == txs.len(),
            txs == transactions@,
            keys@.map_values(|k: (i32, u32)| (k.0 as int, k.1 as int)) == month_table(
                txs.take(i as int),
            ),
        decreases n - i,
    {
        let t = &transactions[i];
        let key = (t.date.year, t.date.month);
        let ghost kv = (key.0 as int, key.1 as int);
        let ghost keyviews = keys@.map_values(|k: (i32, u32)| (k.0 as int, k.1 as int));
        let m: usize = keys.len();
        let mut found = false;
        let mut j: usize = 0;
        while j < m
            invariant
                j <= m,
                m == keys@.len(),
                kv == (key.0 as int, key.1 as int),
                keyviews == keys@.map_values(|k: (i32, u32)| (k.0 as int, k.1 as int)),
                found ==> keyviews.contains(kv),
                !found ==> forall|u: int| 0 <= u < j ==> keyviews[u] != kv,
            decreases m - j,
        {
            if keys[j].0 == key.0 && keys[j].1 == key.1 {
                found = true;
                proof {
                    assert(keyviews[j as int] == kv);
                }
                j = m;
            } else {
                j = j + 1;
            }
        }
        proof {
            assert(txs.take(i + 1).drop_last() =~= txs.take(i as int));
            assert(txs.take(i + 1).last() == txs[i as int]);
            if !found {
                assert(!keyviews.contains(kv));
            }
        }
        if !found {
            keys.push(key);
            proof {
                assert(keys@.map_values(|k: (i32, u32)| (k.0 as int, k.1 as int)) =~= keyviews.push(
                    kv,
                ));
            }
        }
        i = i + 1;
    }
    proof {
        assert(txs.take(n as int) =~= txs);
    }
    let nk: usize = keys.len();
    let mut r: Vec<((i32, u32), Vec<Transaction>)> = Vec::new();
    let mut g: usize = 0;
    while g < nk
        invariant
            g <= nk,
            nk == keys@.len(),
            n == txs.len(),
            txs == transactions@,
            keys@.map_values(|k: (i32, u32)| (k.0 as int, k.1 as int)) == month_table(txs),
            r@.len() == g,
            forall|u: int|
                0 <= u < g ==> ((#[trigger] r@[u]).0.0 as int, r@[u].0.1 as int) == month_table(
                    txs,
                )[u],
            forall|u: int|
                0 <= u < g ==> (#[trigger] r@[u]).1@ == txs.filter(
                    |t: Transaction| month_of(t) == month_table(txs)[u],
                ),
        decreases nk - g,
    {
        let key = keys[g];
        let ghost kv = (key.0 as int, key.1 as int);
        let ghost pred = |t: Transaction| month_of(t) == kv;
        let mut bucket: Vec<Transaction> = Vec::new();
        proof {
            reveal(Seq::filter);
            assert(txs.take(0) =~= Seq::<Transaction>::empty());
            assert(bucket@ =~= txs.take(0).filter(pred));
        }
        let mut i2: usize = 0;
        while i2 < n
            invariant
                i2 <= n,
                n == txs.len(),
                txs == transactions@,
                kv == (key.0 as int, key.1 as int),
                pred == (|t: Transaction| month_of(t) == kv),
                bucket@ == txs.take(i2 as int).filter(pred),
            decreases n - i2,
        {
            let t = &transactions[i2];
            if t.date.year == key.0 && t.date.month == key.1 {
                bucket.push(copy_transaction(t));
            }
            proof {
                reveal(Seq::filter);
                let s1 = txs.take(i2 + 1);
                assert(s1.drop_last() =~= txs.take(i2 as int));
                assert(s1.last() == txs[i2 as int]);
                assert(bucket@ == s1.filter(pred));
            }
            i2 = i2 + 1;
        }
        proof {
            assert(txs.take(n as int) =~= txs);
            assert(keys@.map_values(|k: (i32, u32)| (k.0 as int, k.1 as int))[g as int] == kv);
        }
        r.push((key, bucket));
        g = g + 1;
    }
    r
}

/// Group transactions by category, uncategorised ones under the
/// fallback bucket: one entry per distinct label in order of first
/// appearance, each holding its transactions in order.
pub fn group_by_category(transactions: &Vec<Transaction>) -> (r: Vec<(String, Vec<Transaction>)>)
    ensures
        r@.len() == category_table(transactions@).len(),
        forall|g: int|
            0 <= g < r@.len() ==> (#[trigger] r@[g]).0@ == category_table(transactions@)[g],
        forall|g: int|
            0 <= g < r@.len() ==> (#[trigger] r@[g]).1@ == transactions@.filter(
                |t: Transaction| crate::analysis::cat_key(t) == category_table(transactions@)[g],
            ),
{
    let ghost txs = transactions@;
    let n: usize = transactions.len();
    let fallback = String::from_str("Uncategorized");
    let mut keys: Vec<String> = Vec::new();
    proof {
        reveal_strlit("Uncategorized");
        assert(txs.take(0) =~= Seq::<Transaction>::empty());
        assert(keys@.map_values(|k: String| k@) =~= category_table(txs.take(0)));
    }
    let mut i: usize = 0;
    while i < n
        invariant
            i <= n,
            n == txs.len(),
            txs == transactions@,
            fallback@ == "Uncategorized"@,
            keys@.map_values(|k: String| k@) == category_table(txs.take(i as int)),
        decreases n - i,
    {
        let t = &transactions[i];
        let key: &String = match &t.category {
            Some(c) => c,
            None => &fallback,
        };
        let ghost kv = key@;
        let ghost keyviews = keys@.map_values(|k: String| k@);
        let m: usize = keys.len();
        let mut found = false;
        let mut j: usize = 0;
        while j < m
            invariant
                j <= m,
                m == keys@.len(),
                kv == key@,
                keyviews == keys@.map_values(|k: String| k@),
                found ==> keyviews.contains(kv),
                !found ==> forall|u: int| 0 <= u < j ==> keyviews[u] != kv,
            decreases m - j,
        {
            if keys[j] == *key {
                found = true;
                proof {
                    assert(keyviews[j as int] == kv);
                }
                j = m;
            } else {
                j = j + 1;
            }
        }
        proof {
            assert(txs.take(i + 1).drop_last() =~= txs.take(i as int));
            assert(txs.take(i + 1).last() == txs[i as int]);
            assert(crate::analysis::cat_key(txs[i as int]) == kv);
            if !found {
                assert(!keyviews.contains(kv));
            }
        }
        if !found {
            let kc = key.clone();
            keys.push(kc);
            proof {
                assert(keys@.map_values(|k: String| k@) =~= keyviews.push(kv));
            }
        }
        i = i + 1;
    }
    proof {
        assert(txs.take(n as int) =~= txs);
    }
    let nk: usize = keys.len();
    let mut r: Vec<(String, Vec<Transaction>)> = Vec::new();
    let mut g: usize = 0;
    while g < nk
        invariant
            g <= nk,
            nk == keys@.len(),
            n == txs.len(),
            txs == transactions@,
            fallback@ == "Uncategorized"@,
            keys@.map_values(|k: String| k@) == category_table(txs),
            r@.len() == g,
            forall|u: int| 0 <= u < g ==> (#[trigger] r@[u]).0@ == category_table(txs)[u],
            forall|u: int|
                0 <= u < g ==> (#[trigger] r@[u]).1@ == txs.filter(
                    |t: Transaction| crate::analysis::cat_key(t) == category_table(txs)[u],
                ),
        decreases nk - g,
    {
        let key = &keys[g];
        let ghost kv = key@;
        let ghost pred = |t: Transaction| crate::analysis::cat_key(t) == kv;
        let mut bucket: Vec<Transaction> = Vec::new();
        proof {
            reveal(Seq::filter);
            assert(txs.take(0) =~= Seq::<Transaction>::empty());
            assert(bucket@ =~= txs.take(0).filter(pred));
        }
        let mut i2: usize = 0;
        while i2 < n
            invariant
                i2 <= n,
                n == txs.len(),
                txs == transactions@,
                fallback@ == "Uncategorized"@,
                kv == keys@[g as int]@,
                g < keys@.len(),
                pred == (|t: Transaction| crate::analysis::cat_key(t) == kv),
                bucket@ == txs.take(i2 as int).filter(pred),
            decreases n - i2,
        {
            let t = &transactions[i2];
            let tkey: &String = match &t.category {
                Some(c) => c,
                None => &fallback,
            };
            if *tkey == keys[g] {
                bucket.push(copy_transaction(t));
            }
            proof {
                reveal(Seq::filter);
                let s1 = txs.take(i2 + 1);
                assert(s1.drop_last() =~= txs.take(i2 as int));
                assert(s1.last() == txs[i2 as int]);
                assert(crate::analysis::cat_key(txs[i2 as int]) == tkey@);
                assert(bucket@ == s1.filter(pred));
            }
            i2 = i2 + 1;
        }
        proof {
            assert(txs.take(n as int) =~= txs);
            assert(keys@.map_values(|k: String| k@)[g as int] == kv);
        }
        let kc = key.clone();
        r.push((kc, bucket));
        g = g + 1;
    }
    r
}

} // verus!
