//! Decimal digit strings.
//!
//! Shared spec-level grammar and verified helpers for reading and writing
//! runs of ASCII digits: the building blocks of the amount and date fields
//! of the interchange format.

use vstd::prelude::*;

verus! {

/// An ASCII decimal digit.
pub open spec fn is_digit_char(c: char) -> bool {
    c == '0' || c == '1' || c == '2' || c == '3' || c == '4' || c == '5' || c == '6' || c == '7'
        || c == '8' || c == '9'
}

/// The value of a digit character (0 for anything else).
pub open spec fn digit_val(c: char) -> int {
    if c == '0' {
        0
    } else if c == '1' {
        1
    } else if c == '2' {
        2
    } else if c == '3' {
        3
    } else if c == '4' {
        4
    } else if c == '5' {
        5
    } else if c == '6' {
        6
    } else if c == '7' {
        7
    } else if c == '8' {
        8
    } else if c == '9' {
        9
    } else {
        0
    }
}

/// The digit character for a value below ten ('0' for anything else).
pub open spec fn digit_char(d: int) -> char {
    if d == 0 {
        '0'
    } else if d == 1 {
        '1'
    } else if d == 2 {
        '2'
    } else if d == 3 {
        '3'
    } else if d == 4 {
        '4'
    } else if d == 5 {
        '5'
    } else if d == 6 {
        '6'
    } else if d == 7 {
        '7'
    } else if d == 8 {
        '8'
    } else if d == 9 {
        '9'
    } else {
        '0'
    }
}

/// Every character of `s` is a decimal digit.
pub open spec fn all_digits(s: Seq<char>) -> bool {
    forall|i: int| 0 <= i < s.len() ==> is_digit_char(#[trigger] s[i])
}

/// The number denoted by a digit string, most significant digit first.
pub open spec fn uint_val(s: Seq<char>) -> int
    decreases s.len(),
{
    if s.len() == 0 {
        0
    } else {
        uint_val(s.drop_last()) * 10 + digit_val(s.last())
    }
}

/// The canonical digit string of a non-negative number (no leading zeros,
/// except that zero itself is "0").
pub open spec fn uint_str(n: nat) -> Seq<char>
    decreases n,
{
    if n < 10 {
        seq![digit_char(n as int)]
    } else {
        uint_str(n / 10).push(digit_char((n % 10) as int))
    }
}

/// `uint_str(n)` zero-padded on the left to two characters.
pub open spec fn pad2_str(n: nat) -> Seq<char> {
    if n < 10 {
        seq!['0'] + uint_str(n)
    } else {
        uint_str(n)
    }
}

/// `uint_str(n)` zero-padded on the left to four characters.
pub open spec fn pad4_str(n: nat) -> Seq<char> {
    if n < 10 {
        seq!['0', '0', '0'] + uint_str(n)
    } else if n < 100 {
        seq!['0', '0'] + uint_str(n)
    } else if n < 1000 {
        seq!['0'] + uint_str(n)
    } else {
        uint_str(n)
    }
}

/// Index of the first occurrence of `c` in `s` at or after `i`, or -1.
pub open spec fn find_from(s: Seq<char>, c: char, i: int) -> int
    decreases s.len() - i,
{
    if i < 0 || i >= s.len() {
        -1
    } else if s[i] == c {
        i
    } else {
        find_from(s, c, i + 1)
    }
}

/// A digit string denotes a non-negative number.
pub proof fn lemma_uint_val_nonneg(s: Seq<char>)
    ensures
        0 <= uint_val(s),
    decreases s.len(),
{
    if s.len() > 0 {
        lemma_uint_val_nonneg(s.drop_last());
    }
}

/// Reading a prefix of a digit string never yields more than the whole.
pub proof fn lemma_uint_val_take_le(s: Seq<char>, k: int)
    requires
        0 <= k <= s.len(),
    ensures
        uint_val(s.take(k)) <= uint_val(s),
    decreases s.len(),
{
    if k == s.len() {
        assert(s.take(k) =~= s);
    } else {
        let dl = s.drop_last();
        assert(s.take(k) =~= dl.take(k));
        lemma_uint_val_take_le(dl, k);
        lemma_uint_val_nonneg(dl);
    }
}

/// The canonical digit string really is all digits, and is never empty.
pub proof fn lemma_uint_str_wf(n: nat)
    ensures
        all_digits(uint_str(n)),
        uint_str(n).len() >= 1,
    decreases n,
{
    if n >= 10 {
        lemma_uint_str_wf(n / 10);
    }
}

/// Reading back the canonical digit string yields the number itself.
pub proof fn lemma_uint_str_val(n: nat)
    ensures
        uint_val(uint_str(n)) == n,
    decreases n,
{
    if n < 10 {
        let s = seq![digit_char(n as int)];
        assert(s.drop_last() =~= Seq::<char>::empty());
        assert(uint_val(s) == uint_val(s.drop_last()) * 10 + digit_val(s.last()));
    } else {
        lemma_uint_str_val(n / 10);
        let s = uint_str(n);
        let p = uint_str(n / 10);
        assert(s == p.push(digit_char((n % 10) as int)));
        assert(s.drop_last() =~= p);
        vstd::arithmetic::div_mod::lemma_fundamental_div_mod(n as int, 10);
    }
}

/// A leading zero does not change the number a digit string denotes.
pub proof fn lemma_uint_val_leading_zero(s: Seq<char>)
    ensures
        uint_val(seq!['0'] + s) == uint_val(s),
    decreases s.len(),
{
    let z = seq!['0'] + s;
    if s.len() == 0 {
        assert(z =~= seq!['0']);
        assert(uint_val(z) == uint_val(z.drop_last()) * 10 + digit_val(z.last()));
        assert(z.drop_last() =~= Seq::<char>::empty());
    } else {
        assert(z.drop_last() =~= seq!['0'] + s.drop_last());
        assert(z.last() == s.last());
        lemma_uint_val_leading_zero(s.drop_last());
    }
}

/// The padded forms are digit strings denoting the same number.
pub proof fn lemma_pad_str_wf(n: nat)
    ensures
        all_digits(pad2_str(n)),
        uint_val(pad2_str(n)) == n,
        n < 100 ==> pad2_str(n).len() == 2,
        all_digits(pad4_str(n)),
        uint_val(pad4_str(n)) == n,
        n < 10000 ==> pad4_str(n).len() == 4,
{
    lemma_uint_str_wf(n);
    lemma_uint_str_val(n);
    lemma_uint_str_len(n);
    lemma_uint_val_leading_zero(uint_str(n));
    lemma_uint_val_leading_zero(seq!['0'] + uint_str(n));
    lemma_uint_val_leading_zero(seq!['0'] + (seq!['0'] + uint_str(n)));
    assert(seq!['0', '0'] + uint_str(n) =~= seq!['0'] + (seq!['0'] + uint_str(n)));
    assert(seq!['0', '0', '0'] + uint_str(n) =~= seq!['0'] + (seq!['0'] + (seq!['0'] + uint_str(
        n,
    ))));
}

/// Length of the canonical digit string for small numbers.
pub proof fn lemma_uint_str_len(n: nat)
    ensures
        uint_str(n).len() >= 1,
        n < 10 ==> uint_str(n).len() == 1,
        10 <= n < 100 ==> uint_str(n).len() == 2,
        100 <= n < 1000 ==> uint_str(n).len() == 3,
        1000 <= n < 10000 ==> uint_str(n).len() == 4,
    decreases n,
{
    if n >= 10 {
        lemma_uint_str_len(n / 10);
    }
}

/// Powers of ten.
pub open spec fn ten_pow(n: nat) -> int
    decreases n,
{
    if n == 0 {
        1
    } else {
        10 * ten_pow((n - 1) as nat)
    }
}

/// Concrete values of the small powers of ten.
pub proof fn lemma_ten_pow_vals()
    ensures
        ten_pow(0) == 1,
        ten_pow(1) == 10,
        ten_pow(2) == 100,
        ten_pow(3) == 1000,
        ten_pow(4) == 10000,
{
    reveal_with_fuel(ten_pow, 5);
}

/// A digit string of length `n` denotes less than the `n`-th power of ten.
pub proof fn lemma_uint_val_upper(s: Seq<char>)
    requires
        all_digits(s),
    ensures
        uint_val(s) < ten_pow(s.len()),
    decreases s.len(),
{
    if s.len() > 0 {
        lemma_uint_val_upper(s.drop_last());
    }
}

/// Searching from `k + i` in `s` is searching from `i` in `s.skip(k)`,
/// with found indices shifted by `k`.
pub proof fn lemma_find_from_skip(s: Seq<char>, c: char, k: int, i: int)
    requires
        0 <= k <= s.len(),
        0 <= i,
    ensures
        find_from(s, c, k + i) == (if find_from(s.skip(k), c, i) == -1 {
            -1
        } else {
            find_from(s.skip(k), c, i) + k
        }),
    decreases s.len() - k - i,
{
    let t = s.skip(k);
    if k + i >= s.len() {
    } else {
        assert(t[i] == s[k + i]);
        if s[k + i] != c {
            lemma_find_from_skip(s, c, k, i + 1);
        }
    }
}

/// A successful search yields an in-range index holding `c`.
pub proof fn lemma_find_from_range(s: Seq<char>, c: char, i: int)
    requires
        0 <= i,
    ensures
        find_from(s, c, i) == -1 || (i <= find_from(s, c, i) < s.len() && s[find_from(s, c, i)]
            == c),
    decreases s.len() - i,
{
    if i < s.len() && s[i] != c {
        lemma_find_from_range(s, c, i + 1);
    }
}

/// If `c` first occurs at `j` looking from `i`, the search finds `j`.
pub proof fn lemma_find_from_first(s: Seq<char>, c: char, j: int, i: int)
    requires
        0 <= i <= j < s.len(),
        s[j] == c,
        forall|t: int| i <= t < j ==> s[t] != c,
    ensures
        find_from(s, c, i) == j,
    decreases j - i,
{
    if i < j {
        lemma_find_from_first(s, c, j, i + 1);
    }
}

/// Relies on the documented behaviour of `std::string::String::push`:
/// appending one character to the end of the string.
pub assume_specification[ String::push ](s: &mut String, ch: char)
    ensures
        final(s)@ == old(s)@.push(ch),
;

/// ASCII whitespace, the characters the line scanner strips at field edges.
pub open spec fn is_space_char(c: char) -> bool {
    c == ' ' || c == '\t' || c == '\n' || c == '\r' || c == '\u{0b}' || c == '\u{0c}'
}

/// `s` without trailing whitespace.
pub open spec fn trim_end(s: Seq<char>) -> Seq<char>
    decreases s.len(),
{
    if s.len() == 0 {
        s
    } else if is_space_char(s.last()) {
        trim_end(s.drop_last())
    } else {
        s
    }
}

/// `s` without leading whitespace.
pub open spec fn trim_start(s: Seq<char>) -> Seq<char>
    decreases s.len(),
{
    if s.len() == 0 {
        s
    } else if is_space_char(s.first()) {
        trim_start(s.drop_first())
    } else {
        s
    }
}

/// `s` without leading or trailing whitespace.
pub open spec fn spec_trim(s: Seq<char>) -> Seq<char> {
    trim_start(trim_end(s))
}

/// Trimming the end never introduces a character: every character of
/// the result is a character the input already had at the same place.
pub proof fn lemma_trim_end_chars(s: Seq<char>)
    ensures
        trim_end(s).len() <= s.len(),
        forall|i: int| 0 <= i < trim_end(s).len() ==> #[trigger] trim_end(s)[i] == s[i],
        trim_end(s).len() > 0 ==> !is_space_char(trim_end(s).last()),
    decreases s.len(),
{
    if s.len() > 0 && is_space_char(s.last()) {
        lemma_trim_end_chars(s.drop_last());
    }
}

/// Trimming the start keeps a suffix: the result's characters are the
/// input's from some offset on, and the last character is unchanged.
pub proof fn lemma_trim_start_chars(s: Seq<char>)
    ensures
        trim_start(s).len() <= s.len(),
        forall|i: int|
            0 <= i < trim_start(s).len() ==> #[trigger] trim_start(s)[i] == s[i + s.len()
                - trim_start(s).len()],
        trim_start(s).len() > 0 ==> trim_start(s).last() == s.last(),
    decreases s.len(),
{
    if s.len() > 0 && is_space_char(s.first()) {
        lemma_trim_start_chars(s.drop_first());
        assert(forall|i: int| 0 <= i < s.len() - 1 ==> s.drop_first()[i] == s[i + 1]);
    }
}

/// A trimmed string carries no character the input lacked, and its last
/// character is never whitespace.
pub proof fn lemma_trim_chars(s: Seq<char>)
    ensures
        forall|i: int|
            0 <= i < spec_trim(s).len() ==> exists|j: int|
                0 <= j < s.len() && s[j] == #[trigger] spec_trim(s)[i],
        spec_trim(s).len() > 0 ==> !is_space_char(spec_trim(s).last()),
{
    lemma_trim_end_chars(s);
    lemma_trim_start_chars(trim_end(s));
    assert forall|i: int| 0 <= i < spec_trim(s).len() implies exists|j: int|
        0 <= j < s.len() && s[j] == #[trigger] spec_trim(s)[i] by {
        let t = trim_end(s);
        let off = t.len() - spec_trim(s).len();
        assert(spec_trim(s)[i] == t[i + off]);
        assert(t[i + off] == s[i + off]);
    }
}

/// What a search skipped holds no occurrence: before a found index, or
/// anywhere at all when the search failed.
pub proof fn lemma_find_from_prefix(s: Seq<char>, c: char, i: int)
    requires
        0 <= i,
    ensures
        find_from(s, c, i) == -1 ==> forall|t: int| i <= t < s.len() ==> s[t] != c,
        find_from(s, c, i) >= 0 ==> forall|t: int| i <= t < find_from(s, c, i) ==> s[t] != c,
    decreases s.len() - i,
{
    if i < s.len() && s[i] != c {
        lemma_find_from_prefix(s, c, i + 1);
    }
}

/// No line the splitter yields contains a newline.
pub proof fn lemma_spec_lines_no_newline(s: Seq<char>)
    ensures
        forall|i: int, j: int|
            0 <= i < spec_lines(s).len() && 0 <= j < spec_lines(s)[i].len() ==> #[trigger] spec_lines(
                s,
            )[i][j] != '\n',
    decreases s.len(),
{
    if s.len() > 0 {
        let idx = find_from(s, '\n', 0);
        lemma_find_from_prefix(s, '\n', 0);
        crate::text::lemma_find_from_range(s, '\n', 0);
        if idx < 0 || idx >= s.len() {
        } else {
            let chunk = line_chunk(s.take(idx));
            assert(forall|j: int| 0 <= j < chunk.len() ==> chunk[j] == s[j]);
            lemma_spec_lines_no_newline(s.skip(idx + 1));
            let rest = spec_lines(s.skip(idx + 1));
            assert(forall|i: int| 0 <= i < rest.len() ==> spec_lines(s)[i + 1] == rest[i]);
        }
    }
}

/// A string whose edges carry no whitespace trims to itself.
pub proof fn lemma_trim_noop(s: Seq<char>)
    requires
        s.len() > 0 ==> !is_space_char(s.first()) && !is_space_char(s.last()),
    ensures
        spec_trim(s) == s,
{
}

/// The signed decimal text of an integer.
pub open spec fn int_str(v: int) -> Seq<char> {
    if v < 0 {
        seq!['-'] + uint_str((-v) as nat)
    } else {
        uint_str(v as nat)
    }
}

/// Whether this character is ASCII whitespace.
pub fn is_space(c: char) -> (r: bool)
    ensures
        r == is_space_char(c),
{
    c == ' ' || c == '\t' || c == '\n' || c == '\r' || c == '\u{0b}' || c == '\u{0c}'
}

/// Strip leading and trailing whitespace from a string.
pub fn trim_text(s: &str) -> (r: String)
    ensures
        r@ == spec_trim(s@),
{
    let n: usize = s.unicode_len();
    let mut e: usize = n;
    proof {
        assert(s@.take(n as int) =~= s@);
    }
    while e > 0 && is_space(s.get_char(e - 1))
        invariant
            e <= n,
            n == s@.len(),
            trim_end(s@) == trim_end(s@.take(e as int)),
        decreases e,
    {
        proof {
            assert(s@.take(e as int).drop_last() =~= s@.take(e - 1));
            assert(s@.take(e as int).last() == s@[e - 1]);
        }
        e = e - 1;
    }
    proof {
        if e > 0 {
            assert(s@.take(e as int).last() == s@[e - 1]);
        }
        assert(trim_end(s@) =~= s@.take(e as int));
    }
    let mut a: usize = 0;
    let ghost t = s@.take(e as int);
    proof {
        assert(t.skip(0) =~= t);
    }
    while a < e && is_space(s.get_char(a))
        invariant
            a <= e <= n,
            n == s@.len(),
            t == s@.take(e as int),
            trim_end(s@) == t,
            trim_start(t) == trim_start(t.skip(a as int)),
        decreases e - a,
    {
        proof {
            assert(t.skip(a as int).first() == s@[a as int]);
            assert(t.skip(a as int).drop_first() =~= t.skip(a + 1));
        }
        a = a + 1;
    }
    proof {
        if a < e {
            assert(t.skip(a as int).first() == s@[a as int]);
        }
        assert(trim_start(t) =~= t.skip(a as int));
        assert(t.skip(a as int) =~= s@.subrange(a as int, e as int));
    }
    let piece = s.substring_char(a, e);
    String::from_str(piece)
}

/// `s` with every apostrophe removed.
pub open spec fn strip_quotes(s: Seq<char>) -> Seq<char>
    decreases s.len(),
{
    if s.len() == 0 {
        s
    } else if s.last() == '\'' {
        strip_quotes(s.drop_last())
    } else {
        strip_quotes(s.drop_last()).push(s.last())
    }
}

/// Append the signed decimal text of `v` to `out`.
pub fn append_int(out: &mut String, v: i128)
    requires
        i128::MIN < v,
    ensures
        final(out)@ == old(out)@ + int_str(v as int),
{
    if v < 0 {
        out.append("-");
        append_uint(out, (-v) as u128);
        proof {
            reveal_strlit("-");
            assert(final(out)@ =~= old(out)@ + int_str(v as int));
        }
    } else {
        append_uint(out, v as u128);
    }
}

/// `p` is a prefix of `s`.
pub open spec fn has_prefix(s: Seq<char>, p: Seq<char>) -> bool {
    s.len() >= p.len() && s.take(p.len() as int) == p
}

/// The lower-case form of an ASCII letter (anything else is unchanged).
pub open spec fn lower_char(c: char) -> char {
    if c == 'A' {
        'a'
    } else if c == 'B' {
        'b'
    } else if c == 'C' {
        'c'
    } else if c == 'D' {
        'd'
    } else if c == 'E' {
        'e'
    } else if c == 'F' {
        'f'
    } else if c == 'G' {
        'g'
    } else if c == 'H' {
        'h'
    } else if c == 'I' {
        'i'
    } else if c == 'J' {
        'j'
    } else if c == 'K' {
        'k'
    } else if c == 'L' {
        'l'
    } else if c == 'M' {
        'm'
    } else if c == 'N' {
        'n'
    } else if c == 'O' {
        'o'
    } else if c == 'P' {
        'p'
    } else if c == 'Q' {
        'q'
    } else if c == 'R' {
        'r'
    } else if c == 'S' {
        's'
    } else if c == 'T' {
        't'
    } else if c == 'U' {
        'u'
    } else if c == 'V' {
        'v'
    } else if c == 'W' {
        'w'
    } else if c == 'X' {
        'x'
    } else if c == 'Y' {
        'y'
    } else if c == 'Z' {
        'z'
    } else {
        c
    }
}

/// `s` with ASCII letters lowered.
pub open spec fn lowered(s: Seq<char>) -> Seq<char> {
    Seq::new(s.len(), |i: int| lower_char(s[i]))
}

/// The lower-case form of one character.
pub fn ascii_lower_char(c: char) -> (r: char)
    ensures
        r == lower_char(c),
{
    match c {
        'A' => 'a',
        'B' => 'b',
        'C' => 'c',
        'D' => 'd',
        'E' => 'e',
        'F' => 'f',
        'G' => 'g',
        'H' => 'h',
        'I' => 'i',
        'J' => 'j',
        'K' => 'k',
        'L' => 'l',
        'M' => 'm',
        'N' => 'n',
        'O' => 'o',
        'P' => 'p',
        'Q' => 'q',
        'R' => 'r',
        'S' => 's',
        'T' => 't',
        'U' => 'u',
        'V' => 'v',
        'W' => 'w',
        'X' => 'x',
        'Y' => 'y',
        'Z' => 'z',
        other => other,
    }
}

/// Lower the ASCII letters of a string.
pub fn lower_text(s: &str) -> (r: String)
    ensures
        r@ == lowered(s@),
{
    let n: usize = s.unicode_len();
    let mut r = String::new();
    let mut i: usize = 0;
    while i < n
        invariant
            i <= n,
            n == s@.len(),
            r@ =~= lowered(s@).take(i as int),
        decreases n - i,
    {
        let c = ascii_lower_char(s.get_char(i));
        r.push(c);
        proof {
            assert(r@ =~= lowered(s@).take(i + 1));
        }
        i = i + 1;
    }
    proof {
        assert(lowered(s@).take(n as int) =~= lowered(s@));
    }
    r
}

/// Compare two strings character by character.
pub fn str_eq_str(a: &str, b: &str) -> (r: bool)
    ensures
        r == (a@ == b@),
{
    let n: usize = a.unicode_len();
    if n != b.unicode_len() {
        proof {
            assert(a@ != b@);
        }
        return false;
    }
    let mut i: usize = 0;
    while i < n
        invariant
            i <= n,
            n == a@.len() == b@.len(),
            forall|k: int| 0 <= k < i ==> a@[k] == b@[k],
        decreases n - i,
    {
        if a.get_char(i) != b.get_char(i) {
            return false;
        }
        i = i + 1;
    }
    proof {
        assert(a@ =~= b@);
    }
    true
}

/// Whether `p` begins `s`.
pub fn starts_with_text(s: &str, p: &str) -> (r: bool)
    ensures
        r == has_prefix(s@, p@),
{
    let m: usize = p.unicode_len();
    let n: usize = s.unicode_len();
    if n < m {
        return false;
    }
    let mut i: usize = 0;
    while i < m
        invariant
            i <= m <= n,
            m == p@.len(),
            n == s@.len(),
            forall|k: int| 0 <= k < i ==> s@[k] == p@[k],
        decreases m - i,
    {
        if s.get_char(i) != p.get_char(i) {
            proof {
                assert(s@.take(m as int)[i as int] != p@[i as int]);
            }
            return false;
        }
        i = i + 1;
    }
    proof {
        assert(s@.take(m as int) =~= p@);
    }
    true
}

/// The string of the characters `cs[a..b]`.
pub fn string_from_range(cs: &Vec<char>, a: usize, b: usize) -> (r: String)
    requires
        a <= b <= cs@.len(),
    ensures
        r@ == cs@.subrange(a as int, b as int),
{
    let mut r = String::new();
    let mut i: usize = a;
    while i < b
        invariant
            a <= i <= b <= cs@.len(),
            r@ =~= cs@.subrange(a as int, i as int),
        decreases b - i,
    {
        r.push(cs[i]);
        proof {
            assert(r@ =~= cs@.subrange(a as int, i + 1));
        }
        i = i + 1;
    }
    r
}

/// A chunk between newlines, with one trailing carriage return stripped.
pub open spec fn line_chunk(c: Seq<char>) -> Seq<char> {
    if c.len() > 0 && c.last() == '\r' {
        c.drop_last()
    } else {
        c
    }
}

/// The lines of a text: split at each newline, the final line ending
/// optional, a carriage return before a newline stripped.
pub open spec fn spec_lines(s: Seq<char>) -> Seq<Seq<char>>
    decreases s.len(),
{
    if s.len() == 0 {
        Seq::empty()
    } else {
        let i = find_from(s, '\n', 0);
        if i < 0 || i >= s.len() {
            seq![s]
        } else {
            seq![line_chunk(s.take(i))] + spec_lines(s.skip(i + 1))
        }
    }
}

/// The text of a list of lines, each followed by a newline.
pub open spec fn join_lines(ls: Seq<Seq<char>>) -> Seq<char>
    decreases ls.len(),
{
    if ls.len() == 0 {
        Seq::empty()
    } else {
        ls.first() + seq!['\n'] + join_lines(ls.drop_first())
    }
}

/// Joining distributes over concatenation of line lists.
pub proof fn lemma_join_concat(a: Seq<Seq<char>>, b: Seq<Seq<char>>)
    ensures
        join_lines(a + b) == join_lines(a) + join_lines(b),
    decreases a.len(),
{
    if a.len() == 0 {
        assert(a + b =~= b);
        assert(join_lines(a) + join_lines(b) =~= join_lines(b));
    } else {
        assert((a + b).first() == a.first());
        assert((a + b).drop_first() =~= a.drop_first() + b);
        lemma_join_concat(a.drop_first(), b);
        assert(a.first() + seq!['\n'] + (join_lines(a.drop_first()) + join_lines(b)) =~= (a.first()
            + seq!['\n'] + join_lines(a.drop_first())) + join_lines(b));
    }
}

/// The views of a list of strings.
pub open spec fn text_views(v: Seq<String>) -> Seq<Seq<char>> {
    v.map_values(|s: String| s@)
}

/// Split a text into its lines.
pub fn split_lines(s: &str) -> (r: Vec<String>)
    ensures
        text_views(r@) == spec_lines(s@),
{
    let cs = chars_of(s);
    let n: usize = cs.len();
    let mut r: Vec<String> = Vec::new();
    let mut pos: usize = 0;
    proof {
        assert(cs@.skip(0) =~= cs@);
        assert(text_views(r@) =~= Seq::<Seq<char>>::empty());
    }
    while pos < n
        invariant
            pos <= n,
            n == cs@.len(),
            cs@ == s@,
            spec_lines(s@) == text_views(r@) + spec_lines(cs@.skip(pos as int)),
        decreases n - pos,
    {
        let ghost rest = cs@.skip(pos as int);
        proof {
            lemma_find_from_skip(cs@, '\n', pos as int, 0);
            lemma_find_from_range(cs@, '\n', pos as int);
        }
        match find_char_from(&cs, '\n', pos) {
            Some(j) => {
                let mut end: usize = j;
                if end > pos && cs[end - 1] == '\r' {
                    end = end - 1;
                }
                let line = string_from_range(&cs, pos, end);
                proof {
                    assert(rest.take(j - pos) =~= cs@.subrange(pos as int, j as int));
                    assert(line_chunk(rest.take(j - pos)) =~= cs@.subrange(
                        pos as int,
                        end as int,
                    ));
                    assert(rest.skip(j - pos + 1) =~= cs@.skip(j + 1));
                }
                r.push(line);
                proof {
                    assert(text_views(r@) =~= text_views(r@.drop_last()) + seq![line@]);
                }
                pos = j + 1;
            },
            None => {
                let line = string_from_range(&cs, pos, n);
                proof {
                    assert(rest =~= cs@.subrange(pos as int, n as int));
                }
                r.push(line);
                proof {
                    assert(text_views(r@) =~= text_views(r@.drop_last()) + seq![line@]);
                    assert(text_views(r@) + spec_lines(cs@.skip(n as int)) =~= text_views(r@));
                }
                pos = n;
            },
        }
    }
    proof {
        assert(spec_lines(cs@.skip(n as int)) =~= Seq::<Seq<char>>::empty());
        assert(text_views(r@) =~= text_views(r@) + spec_lines(cs@.skip(pos as int)));
    }
    r
}

/// Turn a string slice into its sequence of characters.
pub fn chars_of(s: &str) -> (v: Vec<char>)
    ensures
        v@ == s@,
{
    let n: usize = s.unicode_len();
    let mut v: Vec<char> = Vec::new();
    let mut i: usize = 0;
    while i < n
        invariant
            i <= n,
            n == s@.len(),
            v@ =~= s@.take(i as int),
        decreases n - i,
    {
        let c = s.get_char(i);
        v.push(c);
        proof {
            assert(v@ =~= s@.take(i + 1));
        }
        i = i + 1;
    }
    proof {
        assert(v@ =~= s@);
    }
    v
}

/// First occurrence of `c` in `v` at or after `start`.
pub fn find_char_from(v: &Vec<char>, c: char, start: usize) -> (r: Option<usize>)
    requires
        start <= v@.len(),
    ensures
        match r {
            Some(j) => find_from(v@, c, start as int) == j as int && start <= j < v@.len(),
            None => find_from(v@, c, start as int) == -1,
        },
{
    let n: usize = v.len();
    let mut i: usize = start;
    while i < n
        invariant
            start <= i <= n,
            n == v@.len(),
            find_from(v@, c, start as int) == find_from(v@, c, i as int),
        decreases n - i,
    {
        if v[i] == c {
            return Some(i);
        }
        proof {
            assert(find_from(v@, c, i as int) == find_from(v@, c, i + 1));
        }
        i = i + 1;
    }
    None
}

/// Read the digit run `v[start..end]` as a number, refusing an empty run,
/// a non-digit, or a value above `cap`.
pub fn parse_digits(v: &Vec<char>, start: usize, end: usize, cap: i128) -> (r: Option<i128>)
    requires
        start <= end <= v@.len(),
        0 <= cap,
        cap * 10 + 9 <= i128::MAX,
    ensures
        ({
            let s = v@.subrange(start as int, end as int);
            match r {
                Some(x) => all_digits(s) && s.len() > 0 && x as int == uint_val(s) && 0 <= x <= cap,
                None => s.len() == 0 || !all_digits(s) || uint_val(s) > cap,
            }
        }),
{
    let ghost s = v@.subrange(start as int, end as int);
    if start == end {
        return None;
    }
    let mut acc: i128 = 0;
    let mut i: usize = start;
    while i < end
        invariant
            start <= i <= end <= v@.len(),
            s == v@.subrange(start as int, end as int),
            0 <= acc <= cap,
            cap * 10 + 9 <= i128::MAX,
            all_digits(s.take(i - start)),
            acc as int == uint_val(s.take(i - start)),
        decreases end - i,
    {
        let c = v[i];
        if !(c >= '0' && c <= '9') {
            proof {
                assert(s[i - start] == c);
                assert(!all_digits(s));
            }
            return None;
        }
        let d: u8 = digit_of_char(c);
        let next: i128 = acc * 10 + (d as i128);
        proof {
            let t = s.take(i + 1 - start);
            assert(t.drop_last() =~= s.take(i - start));
            assert(t.last() == c);
            assert(uint_val(t) == acc as int * 10 + digit_val(c));
        }
        if next > cap {
            proof {
                if all_digits(s) {
                    lemma_uint_val_take_le(s, i + 1 - start);
                }
            }
            return None;
        }
        acc = next;
        i = i + 1;
    }
    proof {
        assert(s.take(end - start) =~= s);
    }
    Some(acc)
}

/// The value of a digit character.
pub fn digit_of_char(c: char) -> (d: u8)
    requires
        is_digit_char(c),
    ensures
        d as int == digit_val(c),
        d < 10,
{
    match c {
        '0' => 0,
        '1' => 1,
        '2' => 2,
        '3' => 3,
        '4' => 4,
        '5' => 5,
        '6' => 6,
        '7' => 7,
        '8' => 8,
        _ => 9,
    }
}

/// The one-character string for a digit value.
pub fn digit_text(d: u8) -> (r: &'static str)
    requires
        d < 10,
    ensures
        r@ == seq![digit_char(d as int)],
{
    proof {
        reveal_strlit("0");
        reveal_strlit("1");
        reveal_strlit("2");
        reveal_strlit("3");
        reveal_strlit("4");
        reveal_strlit("5");
        reveal_strlit("6");
        reveal_strlit("7");
        reveal_strlit("8");
        reveal_strlit("9");
    }
    let r = match d {
        0 => "0",
        1 => "1",
        2 => "2",
        3 => "3",
        4 => "4",
        5 => "5",
        6 => "6",
        7 => "7",
        8 => "8",
        _ => "9",
    };
    proof {
        assert(r@ =~= seq![digit_char(d as int)]);
    }
    r
}

/// Append the canonical digit string of `n` to `out`.
pub fn append_uint(out: &mut String, n: u128)
    ensures
        final(out)@ == old(out)@ + uint_str(n as nat),
    decreases n,
{
    if n < 10 {
        out.append(digit_text(n as u8));
        proof {
            assert(final(out)@ =~= old(out)@ + uint_str(n as nat));
        }
    } else {
        append_uint(out, n / 10);
        out.append(digit_text((n % 10) as u8));
        proof {
            assert(final(out)@ =~= old(out)@ + uint_str(n as nat));
        }
    }
}

/// Append `n` to `out`, zero-padded on the left to two digits.
pub fn append_pad2(out: &mut String, n: u128)
    requires
        n < 100,
    ensures
        final(out)@ == old(out)@ + pad2_str(n as nat),
{
    if n < 10 {
        out.append("0");
        append_uint(out, n);
        proof {
            reveal_strlit("0");
            assert(final(out)@ =~= old(out)@ + pad2_str(n as nat));
        }
    } else {
        append_uint(out, n);
    }
}

/// Append `n` to `out`, zero-padded on the left to four digits.
pub fn append_pad4(out: &mut String, n: u128)
    requires
        n < 10000,
    ensures
        final(out)@ == old(out)@ + pad4_str(n as nat),
{
    proof {
        reveal_strlit("0");
        reveal_strlit("00");
        reveal_strlit("000");
    }
    if n < 10 {
        out.append("000");
        append_uint(out, n);
        proof {
            assert(final(out)@ =~= old(out)@ + pad4_str(n as nat));
        }
    } else if n < 100 {
        out.append("00");
        append_uint(out, n);
        proof {
            assert(final(out)@ =~= old(out)@ + pad4_str(n as nat));
        }
    } else if n < 1000 {
        out.append("0");
        append_uint(out, n);
        proof {
            assert(final(out)@ =~= old(out)@ + pad4_str(n as nat));
        }
    } else {
        append_uint(out, n);
    }
}

} // verus!
