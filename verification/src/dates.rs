//! Calendar dates.
//!
//! Transactions carry their date as a plain calendar day.  The interchange
//! format writes dates as month/day/four-digit-year and reads a fixed,
//! ordered list of layouts: month/day/four-digit-year, month/day/two-digit
//! year (each with slash or hyphen separators), and year-month-day.

use vstd::prelude::*;

use crate::text::{
    all_digits, append_pad2, append_pad4, chars_of, find_char_from, find_from,
    lemma_find_from_first, lemma_pad_str_wf, lemma_uint_val_upper, lemma_ten_pow_vals, pad2_str,
    pad4_str, parse_digits, spec_trim, strip_quotes, trim_text, uint_val,
};

verus! {

/// A calendar day.  The codec handles years 0 through 9999.
#[derive(Clone, Copy, Debug, PartialEq, Eq, Structural, Hash)]
pub struct Date {
    pub year: i32,
    pub month: u32,
    pub day: u32,
}

/// The Gregorian leap-year rule.
pub open spec fn is_leap_year(y: int) -> bool {
    y % 4 == 0 && (y % 100 != 0 || y % 400 == 0)
}

/// Days in a month of a given year.
pub open spec fn days_in_month(y: int, m: int) -> int {
    if m == 2 {
        if is_leap_year(y) {
            29
        } else {
            28
        }
    } else if m == 4 || m == 6 || m == 9 || m == 11 {
        30
    } else {
        31
    }
}

/// A real calendar day within the years the codec can write.
pub open spec fn valid_date(y: int, m: int, d: int) -> bool {
    0 <= y <= 9999 && 1 <= m <= 12 && 1 <= d <= days_in_month(y, m)
}

impl Date {
    /// This date denotes a real calendar day the codec can write.
    pub open spec fn wf(self) -> bool {
        valid_date(self.year as int, self.month as int, self.day as int)
    }

    /// Build a date from its parts.
    pub fn new(year: i32, month: u32, day: u32) -> (r: Date)
        ensures
            r.year == year && r.month == month && r.day == day,
    {
        Date { year, month, day }
    }

    /// Two dates fall in the same calendar month.
    pub fn same_month(&self, other: &Date) -> (r: bool)
        ensures
            r == (self.year == other.year && self.month == other.month),
    {
        self.year == other.year && self.month == other.month
    }
}

/// Whether year `y` is a leap year.
pub fn leap_year(y: i32) -> (r: bool)
    requires
        0 <= y,
    ensures
        r == is_leap_year(y as int),
{
    y % 4 == 0 && (y % 100 != 0 || y % 400 == 0)
}

/// Days in month `m` of year `y`.
pub fn month_length(y: i32, m: u32) -> (r: u32)
    requires
        0 <= y,
    ensures
        r as int == days_in_month(y as int, m as int),
{
    if m == 2 {
        if leap_year(y) {
            29
        } else {
            28
        }
    } else if m == 4 || m == 6 || m == 9 || m == 11 {
        30
    } else {
        31
    }
}

/// Whether `(y, m, d)` denotes a real calendar day the codec can write.
pub fn date_is_valid(y: i32, m: u32, d: u32) -> (r: bool)
    ensures
        r == valid_date(y as int, m as int, d as int),
{
    0 <= y && y <= 9999 && 1 <= m && m <= 12 && 1 <= d && d <= month_length(if y >= 0 {
        y
    } else {
        0
    }, m)
}

/// The century a two-digit year denotes: 00 through 68 fall in the 2000s,
/// 69 through 99 in the 1900s.
pub open spec fn two_digit_year(v: int) -> int {
    if v <= 68 {
        2000 + v
    } else {
        1900 + v
    }
}

/// One month/day/year layout: fields separated by `sep`, month and day one
/// or two digits, the year four digits, or two when `four` is false.
pub open spec fn parse_mdy(s: Seq<char>, sep: char, four: bool) -> Option<(int, int, int)> {
    let i = find_from(s, sep, 0);
    let j = find_from(s, sep, i + 1);
    if i >= 1 && j >= 0 {
        let f1 = s.take(i);
        let f2 = s.subrange(i + 1, j);
        let f3 = s.skip(j + 1);
        if i <= 2 && 1 <= f2.len() <= 2 && f3.len() == (if four {
            4int
        } else {
            2int
        }) && all_digits(f1) && all_digits(f2) && all_digits(f3) {
            let y = if four {
                uint_val(f3)
            } else {
                two_digit_year(uint_val(f3))
            };
            if valid_date(y, uint_val(f1), uint_val(f2)) {
                Some((y, uint_val(f1), uint_val(f2)))
            } else {
                None
            }
        } else {
            None
        }
    } else {
        None
    }
}

/// The year-month-day layout: four-digit year, then month and day of one
/// or two digits, separated by hyphens.
pub open spec fn parse_ymd(s: Seq<char>) -> Option<(int, int, int)> {
    let i = find_from(s, '-', 0);
    let j = find_from(s, '-', i + 1);
    if i == 4 && j >= 0 {
        let f1 = s.take(i);
        let f2 = s.subrange(i + 1, j);
        let f3 = s.skip(j + 1);
        if 1 <= f2.len() <= 2 && 1 <= f3.len() <= 2 && all_digits(f1) && all_digits(f2)
            && all_digits(f3) {
            if valid_date(uint_val(f1), uint_val(f2), uint_val(f3)) {
                Some((uint_val(f1), uint_val(f2), uint_val(f3)))
            } else {
                None
            }
        } else {
            None
        }
    } else {
        None
    }
}

/// The date grammar over an already cleaned field: the five layouts, tried
/// in order.
pub open spec fn parse_date_chars(s: Seq<char>) -> Option<(int, int, int)> {
    if parse_mdy(s, '/', true) is Some {
        parse_mdy(s, '/', true)
    } else if parse_mdy(s, '/', false) is Some {
        parse_mdy(s, '/', false)
    } else if parse_mdy(s, '-', true) is Some {
        parse_mdy(s, '-', true)
    } else if parse_mdy(s, '-', false) is Some {
        parse_mdy(s, '-', false)
    } else {
        parse_ymd(s)
    }
}

/// What a raw date field denotes: the field is trimmed and stripped of
/// apostrophes before the grammar applies.
pub open spec fn parse_date_field(s: Seq<char>) -> Option<(int, int, int)> {
    parse_date_chars(strip_quotes(spec_trim(s)))
}

/// The canonical text of a date: month/day/year, zero-padded.
pub open spec fn date_str(y: int, m: int, d: int) -> Seq<char> {
    pad2_str(m as nat) + seq!['/'] + pad2_str(d as nat) + seq!['/'] + pad4_str(y as nat)
}

/// Read one month/day/year layout from `v`.
fn read_mdy(v: &Vec<char>, sep: char, four: bool) -> (r: Option<Date>)
    ensures
        match r {
            Some(t) => parse_mdy(v@, sep, four) == Some(
                (t.year as int, t.month as int, t.day as int),
            ) && t.wf(),
            None => parse_mdy(v@, sep, four) is None,
        },
{
    let n: usize = v.len();
    let i = match find_char_from(v, sep, 0) {
        Some(i) => i,
        None => {
            return None;
        },
    };
    let j = match find_char_from(v, sep, i + 1) {
        Some(j) => j,
        None => {
            return None;
        },
    };
    if i < 1 || i > 2 {
        return None;
    }
    if j - i - 1 < 1 || j - i - 1 > 2 {
        return None;
    }
    let ylen: usize = if four {
        4
    } else {
        2
    };
    if n - j - 1 != ylen {
        return None;
    }
    proof {
        assert(v@.take(i as int) =~= v@.subrange(0, i as int));
        assert(v@.skip(j + 1) =~= v@.subrange(j + 1, n as int));
    }
    let mo = match parse_digits(v, 0, i, 99) {
        Some(x) => x,
        None => {
            proof {
                field_cap(v@.take(i as int));
            }
            return None;
        },
    };
    let dy = match parse_digits(v, i + 1, j, 99) {
        Some(x) => x,
        None => {
            proof {
                field_cap(v@.subrange(i + 1, j as int));
            }
            return None;
        },
    };
    let yv = match parse_digits(v, j + 1, n, 9999) {
        Some(x) => x,
        None => {
            proof {
                field_cap(v@.skip(j + 1));
            }
            return None;
        },
    };
    let y: i32 = if four {
        yv as i32
    } else if yv <= 68 {
        2000 + yv as i32
    } else {
        1900 + yv as i32
    };
    if date_is_valid(y, mo as u32, dy as u32) {
        Some(Date { year: y, month: mo as u32, day: dy as u32 })
    } else {
        None
    }
}

/// Read the year-month-day layout from `v`.
fn read_ymd(v: &Vec<char>) -> (r: Option<Date>)
    ensures
        match r {
            Some(t) => parse_ymd(v@) == Some((t.year as int, t.month as int, t.day as int))
                && t.wf(),
            None => parse_ymd(v@) is None,
        },
{
    let n: usize = v.len();
    let i = match find_char_from(v, '-', 0) {
        Some(i) => i,
        None => {
            return None;
        },
    };
    let j = match find_char_from(v, '-', i + 1) {
        Some(j) => j,
        None => {
            return None;
        },
    };
    if i != 4 {
        return None;
    }
    if j - i - 1 < 1 || j - i - 1 > 2 {
        return None;
    }
    if n - j - 1 < 1 || n - j - 1 > 2 {
        return None;
    }
    proof {
        assert(v@.take(i as int) =~= v@.subrange(0, i as int));
        assert(v@.skip(j + 1) =~= v@.subrange(j + 1, n as int));
    }
    let yv = match parse_digits(v, 0, i, 9999) {
        Some(x) => x,
        None => {
            proof {
                field_cap(v@.take(i as int));
            }
            return None;
        },
    };
    let mo = match parse_digits(v, i + 1, j, 99) {
        Some(x) => x,
        None => {
            proof {
                field_cap(v@.subrange(i + 1, j as int));
            }
            return None;
        },
    };
    let dy = match parse_digits(v, j + 1, n, 99) {
        Some(x) => x,
        None => {
            proof {
                field_cap(v@.skip(j + 1));
            }
            return None;
        },
    };
    if date_is_valid(yv as i32, mo as u32, dy as u32) {
        Some(Date { year: yv as i32, month: mo as u32, day: dy as u32 })
    } else {
        None
    }
}

/// A digit field of at most four characters stays within the caps the
/// readers pass to `parse_digits`.
proof fn field_cap(s: Seq<char>)
    ensures
        all_digits(s) && s.len() <= 2 ==> uint_val(s) <= 99,
        all_digits(s) && s.len() <= 4 ==> uint_val(s) <= 9999,
{
    if all_digits(s) {
        lemma_uint_val_upper(s);
        lemma_ten_pow_vals();
        if s.len() <= 2 {
            assert(crate::text::ten_pow(s.len()) <= 100);
        } else if s.len() <= 4 {
            assert(crate::text::ten_pow(s.len()) <= 10000);
        }
    }
}

/// Read a raw date field.  The field is trimmed and stripped of
/// apostrophes, then the five layouts are tried in order; succeeds exactly
/// when `parse_date_field` does.
pub fn parse_date(s: &str) -> (r: Option<Date>)
    ensures
        match r {
            Some(t) => parse_date_field(s@) == Some((t.year as int, t.month as int, t.day as int))
                && t.wf(),
            None => parse_date_field(s@) is None,
        },
{
    let trimmed = trim_text(s);
    let raw = chars_of(trimmed.as_str());
    let mut v: Vec<char> = Vec::new();
    let mut i: usize = 0;
    while i < raw.len()
        invariant
            i <= raw@.len(),
            v@ == strip_quotes(raw@.take(i as int)),
        decreases raw@.len() - i,
    {
        let c = raw[i];
        proof {
            assert(raw@.take(i + 1).drop_last() =~= raw@.take(i as int));
            assert(raw@.take(i + 1).last() == c);
        }
        if c != '\'' {
            v.push(c);
        }
        i = i + 1;
    }
    proof {
        assert(raw@.take(raw@.len() as int) =~= raw@);
    }
    match read_mdy(&v, '/', true) {
        Some(t) => Some(t),
        None => match read_mdy(&v, '/', false) {
            Some(t) => Some(t),
            None => match read_mdy(&v, '-', true) {
                Some(t) => Some(t),
                None => match read_mdy(&v, '-', false) {
                    Some(t) => Some(t),
                    None => read_ymd(&v),
                },
            },
        },
    }
}

/// Append the canonical text of a date to `out`.
pub fn append_date(out: &mut String, d: &Date)
    requires
        d.wf(),
    ensures
        final(out)@ == old(out)@ + date_str(d.year as int, d.month as int, d.day as int),
{
    append_pad2(out, d.month as u128);
    out.append("/");
    append_pad2(out, d.day as u128);
    out.append("/");
    append_pad4(out, d.year as u128);
    proof {
        reveal_strlit("/");
        assert(final(out)@ =~= old(out)@ + date_str(d.year as int, d.month as int, d.day as int));
    }
}

/// Reading back the canonical text of a valid date yields the date itself.
pub proof fn lemma_date_roundtrip(y: int, m: int, d: int)
    requires
        valid_date(y, m, d),
    ensures
        parse_date_chars(date_str(y, m, d)) == Some((y, m, d)),
{
    let s = date_str(y, m, d);
    let f1 = pad2_str(m as nat);
    let f2 = pad2_str(d as nat);
    let f3 = pad4_str(y as nat);
    lemma_pad_str_wf(m as nat);
    lemma_pad_str_wf(d as nat);
    lemma_pad_str_wf(y as nat);
    assert(s.len() == 10);
    assert(s[2] == '/');
    assert(s[5] == '/');
    assert(forall|t: int| 0 <= t < 2 ==> s[t] == f1[t]);
    assert(forall|t: int| 3 <= t < 5 ==> s[t] == f2[t - 3]);
    assert(forall|t: int| 6 <= t < 10 ==> s[t] == f3[t - 6]);
    lemma_find_from_first(s, '/', 2, 0);
    lemma_find_from_first(s, '/', 5, 3);
    assert(s.take(2) =~= f1);
    assert(s.subrange(3, 5) =~= f2);
    assert(s.skip(6) =~= f3);
    assert(parse_mdy(s, '/', true) == Some((y, m, d)));
}

} // verus!
