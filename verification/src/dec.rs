//! Exact fixed-point decimal amounts.
//!
//! A [`Dec`] stores a currency amount (or a percentage) as an integer
//! count of `10^-8` units, so every amount with at most eight fraction
//! digits is represented exactly and arithmetic on amounts is plain
//! integer arithmetic.  This is the exactness guarantee the rebalancing
//! pipeline depends on: sums, percentages of a total, and threshold
//! comparisons never suffer binary-floating-point drift.

use vstd::prelude::*;

verus! {

/// Number of `10^-8` units in one whole currency unit.
pub const UNITS_PER_ONE: i128 = 100_000_000;

/// Largest magnitude (in units) that [`Dec::parse`] accepts: amounts with
/// up to eighteen integer digits, i.e. strictly below `10^18 * 10^8`.
pub const PARSE_MAX_UNITS: i128 = 100_000_000_000_000_000_000_000_000;

/// Whether `c` is an ASCII decimal digit.
pub open spec fn is_digit(c: char) -> bool {
    48 <= c as u32 && c as u32 <= 57
}

/// The numeric value of an ASCII decimal digit.
pub open spec fn digit_val(c: char) -> int {
    c as u32 - 48
}

/// Whether every character of `s` is an ASCII decimal digit.
pub open spec fn all_digits(s: Seq<char>) -> bool {
    forall|i: int| 0 <= i < s.len() ==> is_digit(#[trigger] s[i])
}

/// `10^n`.
pub open spec fn pow10(n: nat) -> int
    decreases n,
{
    if n == 0 {
        1
    } else {
        10 * pow10((n - 1) as nat)
    }
}

/// The integer denoted by a string of decimal digits, read left to right.
pub open spec fn digits_val(s: Seq<char>) -> int
    decreases s.len(),
{
    if s.len() == 0 {
        0
    } else {
        digits_val(s.drop_last()) * 10 + digit_val(s.last())
    }
}

/// Index of the first occurrence of `c` in `s`, or `s.len()` if absent.
pub open spec fn first_index_of(s: Seq<char>, c: char) -> int
    decreases s.len(),
{
    if s.len() == 0 {
        0
    } else if s[0] == c {
        0
    } else {
        1 + first_index_of(s.drop_first(), c)
    }
}

/// Splits a leading `+` or `-` sign off `s`: returns (negative, rest).
pub open spec fn parse_sign(s: Seq<char>) -> (bool, Seq<char>) {
    if s.len() > 0 && s[0] == '-' {
        (true, s.drop_first())
    } else if s.len() > 0 && s[0] == '+' {
        (false, s.drop_first())
    } else {
        (false, s)
    }
}

/// The exact number of `10^-8` units denoted by a decimal numeral, or
/// `None` if the text is not a numeral this library accepts.
///
/// The accepted grammar is an optional sign, then digits with at most one
/// embedded decimal point and at least one digit overall.  At most eight
/// fraction digits are representable; the integer part must stay below
/// `10^18`.  Anything else—including an empty string, stray characters,
/// or a second decimal point—is rejected.
pub open spec fn parse_units(s: Seq<char>) -> Option<int> {
    let signed = parse_sign(s);
    let neg = signed.0;
    let body = signed.1;
    let di = first_index_of(body, '.');
    let ip = body.take(di);
    let fp = if di == body.len() {
        Seq::<char>::empty()
    } else {
        body.skip(di + 1)
    };
    if all_digits(ip) && all_digits(fp) && ip.len() + fp.len() >= 1 && fp.len() <= 8
        && digits_val(ip) < pow10(18) {
        let mag = digits_val(ip) * pow10(8) + digits_val(fp) * pow10((8 - fp.len()) as nat);
        Some(
            if neg {
                -mag
            } else {
                mag
            },
        )
    } else {
        None
    }
}

pub proof fn lemma_pow10_pos(n: nat)
    ensures
        pow10(n) >= 1,
    decreases n,
{
    if n > 0 {
        lemma_pow10_pos((n - 1) as nat);
    }
}

pub proof fn lemma_pow10_add(a: nat, b: nat)
    ensures
        pow10(a + b) == pow10(a) * pow10(b),
    decreases a,
{
    if a == 0 {
    } else {
        lemma_pow10_add((a - 1) as nat, b);
        assert(pow10(a + b) == 10 * pow10((a + b - 1) as nat));
        assert(10 * (pow10((a - 1) as nat) * pow10(b)) == (10 * pow10((a - 1) as nat)) * pow10(
            b,
        )) by (nonlinear_arith);
    }
}

pub proof fn lemma_pow10_mono(a: nat, b: nat)
    requires
        a <= b,
    ensures
        pow10(a) <= pow10(b),
{
    lemma_pow10_add(a, (b - a) as nat);
    lemma_pow10_pos(a);
    lemma_pow10_pos((b - a) as nat);
    assert(pow10(a) * 1 <= pow10(a) * pow10((b - a) as nat)) by (nonlinear_arith)
        requires
            pow10(a) >= 1,
            pow10((b - a) as nat) >= 1,
    ;
}

/// A digit string denotes a value in `[0, 10^len)`.
pub proof fn lemma_digits_val_bounds(s: Seq<char>)
    requires
        all_digits(s),
    ensures
        0 <= digits_val(s) < pow10(s.len()),
    decreases s.len(),
{
    if s.len() > 0 {
        lemma_digits_val_bounds(s.drop_last());
        lemma_pow10_pos((s.len() - 1) as nat);
        assert(digits_val(s.drop_last()) <= pow10((s.len() - 1) as nat) - 1);
        assert(digits_val(s.drop_last()) * 10 <= (pow10((s.len() - 1) as nat) - 1) * 10)
            by (nonlinear_arith)
            requires
                digits_val(s.drop_last()) <= pow10((s.len() - 1) as nat) - 1,
        ;
        assert(is_digit(s.last()));
    }
}

/// Reading digits left to right: appending `b` multiplies the value of
/// `a` by `10^|b|` and adds the value of `b`.
pub proof fn lemma_digits_val_append(a: Seq<char>, b: Seq<char>)
    ensures
        digits_val(a + b) == digits_val(a) * pow10(b.len()) + digits_val(b),
    decreases b.len(),
{
    if b.len() == 0 {
        assert(a + b =~= a);
    } else {
        lemma_digits_val_append(a, b.drop_last());
        assert((a + b).drop_last() =~= a + b.drop_last());
        assert((a + b).last() == b.last());
        assert((digits_val(a) * pow10((b.len() - 1) as nat) + digits_val(b.drop_last())) * 10
            == digits_val(a) * (10 * pow10((b.len() - 1) as nat)) + digits_val(b.drop_last()) * 10)
            by (nonlinear_arith);
    }
}

pub proof fn lemma_first_index_range(s: Seq<char>, c: char)
    ensures
        0 <= first_index_of(s, c) <= s.len(),
        first_index_of(s, c) < s.len() ==> s[first_index_of(s, c)] == c,
    decreases s.len(),
{
    if s.len() > 0 && s[0] != c {
        lemma_first_index_range(s.drop_first(), c);
    }
}

/// If the first `k` characters of `s` are not `c`, the first occurrence
/// of `c` is at `k` or later (exactly at `k` when `s[k] == c`, and at
/// `s.len()` when `k` is the whole string).
pub proof fn lemma_first_index_from(s: Seq<char>, c: char, k: int)
    requires
        0 <= k <= s.len(),
        forall|j: int| 0 <= j < k ==> s[j] != c,
    ensures
        first_index_of(s, c) >= k,
        k < s.len() && s[k] == c ==> first_index_of(s, c) == k,
        k == s.len() ==> first_index_of(s, c) == s.len(),
    decreases k,
{
    lemma_first_index_range(s, c);
    if k > 0 {
        lemma_first_index_from(s.drop_first(), c, k - 1);
    }
}

/// Concrete values of the powers of ten the library computes with.
pub proof fn lemma_pow10_vals()
    ensures
        pow10(0) == 1,
        pow10(1) == 10,
        pow10(2) == 100,
        pow10(3) == 1000,
        pow10(4) == 10000,
        pow10(5) == 100000,
        pow10(6) == 1000000,
        pow10(7) == 10000000,
        pow10(8) == 100_000_000,
        pow10(10) == 10_000_000_000,
        pow10(18) == 1_000_000_000_000_000_000,
        pow10(26) == PARSE_MAX_UNITS as int,
{
    reveal_with_fuel(pow10, 27);
}

/// If the integer part already denotes at least `10^18` on a digit
/// prefix, the whole numeral is rejected.
proof fn lemma_int_prefix_cap(s: Seq<char>, m: int)
    requires
        0 <= m <= parse_sign(s).1.len(),
        all_digits(parse_sign(s).1.take(m)),
        digits_val(parse_sign(s).1.take(m)) >= pow10(18),
    ensures
        parse_units(s) is None,
{
    let body = parse_sign(s).1;
    assert forall|j: int| 0 <= j < m implies body[j] != '.' by {
        assert(is_digit(body.take(m)[j]));
        assert('.' as u32 == 46);
    }
    lemma_first_index_from(body, '.', m);
    lemma_first_index_range(body, '.');
    let di = first_index_of(body, '.');
    let ip = body.take(di);
    assert(m <= di <= body.len());
    if all_digits(ip) {
        assert(ip.len() == di);
        assert(ip.skip(m).len() == di - m);
        assert(forall|j: int| 0 <= j < di ==> ip[j] == body[j]);
        assert(forall|j: int| 0 <= j < di - m ==> #[trigger] ip.skip(m)[j] == body[m + j]);
        assert(ip =~= body.take(m) + ip.skip(m));
        assert(all_digits(ip.skip(m))) by {
            assert(forall|j: int| 0 <= j < di - m ==> is_digit(#[trigger] ip.skip(m)[j]));
        }
        lemma_digits_val_append(body.take(m), ip.skip(m));
        lemma_digits_val_bounds(ip.skip(m));
        lemma_digits_val_bounds(body.take(m));
        lemma_pow10_pos(ip.skip(m).len());
        assert(digits_val(body.take(m)) * pow10(ip.skip(m).len()) >= digits_val(body.take(m)))
            by (nonlinear_arith)
            requires
                digits_val(body.take(m)) >= 0,
                pow10(ip.skip(m).len()) >= 1,
        ;
        assert(digits_val(ip) >= pow10(18));
    }
}

/// Whether the character at position `i` is an ASCII decimal digit.
fn digit_at(s: &str, i: usize) -> (r: bool)
    requires
        i < s@.len(),
    ensures
        r == is_digit(s@[i as int]),
{
    let c = s.get_char(i);
    let u = c as u32;
    48 <= u && u <= 57
}

/// `10^n` as a machine integer.
fn pow10_i128(n: usize) -> (r: i128)
    requires
        n <= 18,
    ensures
        r == pow10(n as nat),
{
    let mut r: i128 = 1;
    let mut j: usize = 0;
    while j < n
        invariant
            j <= n <= 18,
            r == pow10(j as nat),
        decreases n - j,
    {
        proof {
            lemma_pow10_mono((j + 1) as nat, 18);
            lemma_pow10_vals();
            lemma_pow10_pos(j as nat);
            assert(pow10((j + 1) as nat) == 10 * pow10(j as nat));
        }
        r = r * 10;
        j = j + 1;
    }
    r
}

/// Largest magnitude (in units) the calculator works with; parsed
/// amounts stay a factor of ten below it, so sums of up to ten maximal
/// holdings are still representable.
pub const CALC_MAX_UNITS: i128 = 1_000_000_000_000_000_000_000_000_000;

/// The unit count of `100`, the largest admissible target percentage.
pub const PCT_MAX_UNITS: i128 = 10_000_000_000;

/// `|n|`.
pub open spec fn abs_int(n: int) -> int {
    if n < 0 {
        -n
    } else {
        n
    }
}

/// Division of `n` by `d > 0`, rounding half away from zero.
pub open spec fn round_half_away(n: int, d: int) -> int {
    if n >= 0 {
        (n + d / 2) / d
    } else {
        -((-n + d / 2) / d)
    }
}

/// Division of `n` by `d != 0`, truncating toward zero.
pub open spec fn trunc_div(n: int, d: int) -> int {
    if (n >= 0) == (d > 0) {
        abs_int(n) / abs_int(d)
    } else {
        -(abs_int(n) / abs_int(d))
    }
}

/// The units of `pct` per cent of the amount with units `total`:
/// `total * pct / 100`, rounded half away from zero at the eighth
/// fraction digit.
pub open spec fn pct_apply(total: int, pct: int) -> int {
    round_half_away(total * pct, 10_000_000_000)
}

/// The ASCII character for the digit `d`.
pub open spec fn digit_char(d: int) -> char {
    if d == 0 {
        '0'
    } else if d == 1 {
        '1'
    } else if d == 2 {
        '2'
    } else if d == 3 {
        '3'
    } else if d == 4 {
        '4'
    } else if d == 5 {
        '5'
    } else if d == 6 {
        '6'
    } else if d == 7 {
        '7'
    } else if d == 8 {
        '8'
    } else {
        '9'
    }
}

/// The shortest decimal numeral for `n >= 0`, most significant digit
/// first.
pub open spec fn dec_digits(n: int) -> Seq<char>
    decreases n,
{
    if n < 10 {
        seq![digit_char(n)]
    } else {
        dec_digits(n / 10).push(digit_char(n % 10))
    }
}

/// The low `w` decimal digits of `n >= 0`, zero-padded to exactly `w`
/// characters.
pub open spec fn fixed_digits(n: int, w: nat) -> Seq<char>
    decreases w,
{
    if w == 0 {
        Seq::<char>::empty()
    } else {
        fixed_digits(n / 10, (w - 1) as nat).push(digit_char(n % 10))
    }
}

/// The amount with unit count `u`, rounded to a whole cent half away
/// from zero and written with exactly two fraction digits.
pub open spec fn fmt_2dp_spec(u: int) -> Seq<char> {
    let cents = round_half_away(u, 1_000_000);
    let m = abs_int(cents);
    let sign: Seq<char> = if cents < 0 {
        seq!['-']
    } else {
        Seq::<char>::empty()
    };
    sign + dec_digits(m / 100) + seq!['.'] + fixed_digits(m % 100, 2)
}

/// The canonical exact numeral for the amount with unit count `u`: all
/// eight fraction digits, so parsing it back recovers `u` exactly.
pub open spec fn fmt_exact_spec(u: int) -> Seq<char> {
    let m = abs_int(u);
    let sign: Seq<char> = if u < 0 {
        seq!['-']
    } else {
        Seq::<char>::empty()
    };
    sign + dec_digits(m / 100_000_000) + seq!['.'] + fixed_digits(m % 100_000_000, 8)
}

/// A one-character string for the digit `d`.
fn digit_str(d: u128) -> (r: &'static str)
    requires
        d < 10,
    ensures
        r@ == seq![digit_char(d as int)],
{
    proof {
        reveal_strlit("0");
        reveal_strlit("1");
        reveal_strlit("2");
        reveal_strlit("3");
        reveal_strlit("4");
        reveal_strlit("5");
        reveal_strlit("6");
        reveal_strlit("7");
        reveal_strlit("8");
        reveal_strlit("9");
        assert("0"@ =~= seq!['0']);
        assert("1"@ =~= seq!['1']);
        assert("2"@ =~= seq!['2']);
        assert("3"@ =~= seq!['3']);
        assert("4"@ =~= seq!['4']);
        assert("5"@ =~= seq!['5']);
        assert("6"@ =~= seq!['6']);
        assert("7"@ =~= seq!['7']);
        assert("8"@ =~= seq!['8']);
        assert("9"@ =~= seq!['9']);
    }
    if d == 0 {
        "0"
    } else if d == 1 {
        "1"
    } else if d == 2 {
        "2"
    } else if d == 3 {
        "3"
    } else if d == 4 {
        "4"
    } else if d == 5 {
        "5"
    } else if d == 6 {
        "6"
    } else if d == 7 {
        "7"
    } else if d == 8 {
        "8"
    } else {
        "9"
    }
}

/// Appends the shortest decimal numeral for `n`.
fn append_dec_digits(out: &mut String, n: u128)
    ensures
        final(out)@ == old(out)@ + dec_digits(n as int),
    decreases n,
{
    if n < 10 {
        let s = digit_str(n);
        out.append(s);
    } else {
        append_dec_digits(out, n / 10);
        let s = digit_str(n % 10);
        out.append(s);
        proof {
            assert(old(out)@ + dec_digits(n as int / 10) + seq![digit_char(n as int % 10)]
                =~= old(out)@ + dec_digits(n as int));
        }
    }
}

/// Appends exactly `w` digits: the low `w` decimal digits of `n`.
fn append_fixed_digits(out: &mut String, n: u128, w: usize)
    ensures
        final(out)@ == old(out)@ + fixed_digits(n as int, w as nat),
    decreases w,
{
    if w > 0 {
        append_fixed_digits(out, n / 10, w - 1);
        let s = digit_str(n % 10);
        out.append(s);
        proof {
            assert(old(out)@ + fixed_digits(n as int / 10, (w - 1) as nat) + seq![
                digit_char(n as int % 10),
            ] =~= old(out)@ + fixed_digits(n as int, w as nat));
        }
    } else {
        proof {
            assert(old(out)@ + fixed_digits(n as int, 0) =~= old(out)@);
        }
    }
}

/// Every position before the first occurrence holds another character.
pub proof fn lemma_first_index_min(s: Seq<char>, c: char)
    ensures
        forall|j: int| 0 <= j < first_index_of(s, c) ==> s[j] != c,
    decreases s.len(),
{
    lemma_first_index_range(s, c);
    if s.len() > 0 && s[0] != c {
        lemma_first_index_min(s.drop_first(), c);
        assert forall|j: int| 0 <= j < first_index_of(s, c) implies s[j] != c by {
            if j > 0 {
                assert(s.drop_first()[j - 1] == s[j]);
                assert(s.drop_first()[j - 1] != c);
            }
        }
    }
}

/// The numeral of a digit is that digit.
proof fn lemma_digit_char_props(d: int)
    requires
        0 <= d <= 9,
    ensures
        is_digit(digit_char(d)),
        digit_val(digit_char(d)) == d,
{
    assert('0' as u32 == 48);
    assert('1' as u32 == 49);
    assert('2' as u32 == 50);
    assert('3' as u32 == 51);
    assert('4' as u32 == 52);
    assert('5' as u32 == 53);
    assert('6' as u32 == 54);
    assert('7' as u32 == 55);
    assert('8' as u32 == 56);
    assert('9' as u32 == 57);
}

/// The shortest numeral of `n` is all digits, non-empty, and denotes
/// `n`.
pub proof fn lemma_dec_digits_props(n: int)
    requires
        n >= 0,
    ensures
        all_digits(dec_digits(n)),
        digits_val(dec_digits(n)) == n,
        dec_digits(n).len() >= 1,
    decreases n,
{
    if n < 10 {
        lemma_digit_char_props(n);
        assert(seq![digit_char(n)].last() == digit_char(n));
        assert(seq![digit_char(n)].drop_last() =~= Seq::<char>::empty());
        assert(digits_val(Seq::<char>::empty()) == 0);
        assert(digits_val(dec_digits(n)) == n);
    } else {
        vstd::arithmetic::div_mod::lemma_fundamental_div_mod(n, 10);
        assert(0 <= n % 10 < 10);
        assert(n / 10 < n);
        lemma_dec_digits_props(n / 10);
        lemma_digit_char_props(n % 10);
        let prefix = dec_digits(n / 10);
        assert(dec_digits(n) == prefix.push(digit_char(n % 10)));
        assert(prefix.push(digit_char(n % 10)).drop_last() =~= prefix);
        assert(prefix.push(digit_char(n % 10)).last() == digit_char(n % 10));
        assert(digits_val(dec_digits(n)) == digits_val(prefix) * 10 + digit_val(
            digit_char(n % 10),
        ));
        assert(digits_val(prefix) == n / 10);
        assert(digit_val(digit_char(n % 10)) == n % 10);
        assert((n / 10) * 10 + n % 10 == n);
        assert(digits_val(dec_digits(n)) == n);
        assert(forall|j: int|
            0 <= j < prefix.len() ==> dec_digits(n)[j] == prefix[j]);
    }
}

/// The `w`-wide numeral of `n < 10^w` is all digits, exactly `w` long,
/// and denotes `n`.
pub proof fn lemma_fixed_digits_props(n: int, w: nat)
    requires
        0 <= n < pow10(w),
    ensures
        all_digits(fixed_digits(n, w)),
        fixed_digits(n, w).len() == w,
        digits_val(fixed_digits(n, w)) == n,
    decreases w,
{
    if w == 0 {
    } else {
        vstd::arithmetic::div_mod::lemma_fundamental_div_mod(n, 10);
        assert(0 <= n % 10 < 10);
        assert(pow10(w) == 10 * pow10((w - 1) as nat));
        assert(n / 10 < pow10((w - 1) as nat)) by (nonlinear_arith)
            requires
                n == 10 * (n / 10) + n % 10,
                0 <= n % 10 < 10,
                n < 10 * pow10((w - 1) as nat),
        ;
        lemma_fixed_digits_props(n / 10, (w - 1) as nat);
        lemma_digit_char_props(n % 10);
        let prefix = fixed_digits(n / 10, (w - 1) as nat);
        assert(fixed_digits(n, w) == prefix.push(digit_char(n % 10)));
        assert(prefix.push(digit_char(n % 10)).drop_last() =~= prefix);
        assert(forall|j: int|
            0 <= j < prefix.len() ==> fixed_digits(n, w)[j] == prefix[j]);
    }
}

/// Every character of a canonical numeral is a digit, the decimal
/// point, or a leading minus sign.
pub proof fn lemma_fmt_exact_chars(u: int)
    requires
        abs_int(u) < PARSE_MAX_UNITS,
    ensures
        forall|j: int|
            0 <= j < fmt_exact_spec(u).len() ==> (is_digit(#[trigger] fmt_exact_spec(u)[j])
                || fmt_exact_spec(u)[j] == '.' || fmt_exact_spec(u)[j] == '-'),
        fmt_exact_spec(u).len() >= 3,
{
    let m = abs_int(u);
    let q = m / 100_000_000;
    let rem = m % 100_000_000;
    lemma_pow10_vals();
    vstd::arithmetic::div_mod::lemma_fundamental_div_mod(m, 100_000_000);
    assert(0 <= rem < 100_000_000);
    assert(q >= 0) by (nonlinear_arith)
        requires
            m == 100_000_000 * q + rem,
            0 <= rem < 100_000_000,
            m >= 0,
    ;
    lemma_dec_digits_props(q);
    lemma_fixed_digits_props(rem, 8);
}

/// Parsing the canonical numeral of an amount recovers the amount
/// exactly.
pub proof fn lemma_parse_fmt_exact_roundtrip(u: int)
    requires
        abs_int(u) < PARSE_MAX_UNITS,
    ensures
        parse_units(fmt_exact_spec(u)) == Some(u),
{
    let m = abs_int(u);
    let q = m / 100_000_000;
    let rem = m % 100_000_000;
    lemma_pow10_vals();
    vstd::arithmetic::div_mod::lemma_fundamental_div_mod(m, 100_000_000);
    assert(0 <= rem < 100_000_000);
    assert(q >= 0 && q < pow10(18)) by (nonlinear_arith)
        requires
            m == 100_000_000 * q + rem,
            0 <= rem < 100_000_000,
            0 <= m < 100_000_000_000_000_000_000_000_000,
            pow10(18) == 1_000_000_000_000_000_000,
    ;
    lemma_dec_digits_props(q);
    lemma_fixed_digits_props(rem, 8);
    let ip = dec_digits(q);
    let fp8 = fixed_digits(rem, 8);
    let s = fmt_exact_spec(u);
    let body = ip + seq!['.'] + fp8;
    assert('.' as u32 == 46);
    assert('-' as u32 == 45);
    assert('+' as u32 == 43);
    assert(body.len() == ip.len() + 9);
    assert(forall|j: int| 0 <= j < ip.len() ==> body[j] == ip[j]);
    assert(body[ip.len() as int] == '.');
    assert(forall|j: int| 0 <= j < 8 ==> body[ip.len() + 1 + j] == fp8[j]);
    if u < 0 {
        assert(s =~= seq!['-'] + body);
        assert(s[0] == '-');
        assert(parse_sign(s).0 == true);
        assert(parse_sign(s).1 =~= body);
    } else {
        assert(s =~= body);
        assert(is_digit(s[0]));
        assert(parse_sign(s).0 == false);
        assert(parse_sign(s).1 == s);
    }
    let pbody = parse_sign(s).1;
    assert(pbody =~= body);
    assert forall|j: int| 0 <= j < ip.len() implies body[j] != '.' by {
        assert(is_digit(body[j]));
    }
    lemma_first_index_from(body, '.', ip.len() as int);
    let di = first_index_of(body, '.');
    assert(di == ip.len());
    assert(body.take(di) =~= ip);
    assert(body.skip(di + 1) =~= fp8);
    assert(digits_val(ip) == q);
    assert(digits_val(fp8) == rem);
    assert(pow10((8 - fp8.len()) as nat) == 1);
    assert(q * pow10(8) + rem * 1 == m);
    assert(parse_units(s) == Some(
        if u < 0 {
            -m
        } else {
            m
        },
    ));
}

/// A successfully parsed amount is strictly below `10^26` units in
/// magnitude.
pub proof fn lemma_parse_units_bounds(s: Seq<char>, u: int)
    requires
        parse_units(s) == Some(u),
    ensures
        abs_int(u) < PARSE_MAX_UNITS,
{
    let body = parse_sign(s).1;
    let di = first_index_of(body, '.');
    let ip = body.take(di);
    let fp = if di == body.len() {
        Seq::<char>::empty()
    } else {
        body.skip(di + 1)
    };
    lemma_pow10_vals();
    lemma_digits_val_bounds(ip);
    lemma_digits_val_bounds(fp);
    lemma_pow10_pos((8 - fp.len()) as nat);
    lemma_pow10_add(fp.len(), (8 - fp.len()) as nat);
    assert(digits_val(ip) * pow10(8) <= (pow10(18) - 1) * pow10(8)) by (nonlinear_arith)
        requires
            digits_val(ip) <= pow10(18) - 1,
            pow10(8) >= 1,
    ;
    assert(digits_val(fp) * pow10((8 - fp.len()) as nat) <= (pow10(fp.len()) - 1) * pow10(
        (8 - fp.len()) as nat,
    )) by (nonlinear_arith)
        requires
            digits_val(fp) <= pow10(fp.len()) - 1,
            pow10((8 - fp.len()) as nat) >= 1,
    ;
    assert((pow10(fp.len()) - 1) * pow10((8 - fp.len()) as nat) == pow10(fp.len()) * pow10(
        (8 - fp.len()) as nat,
    ) - pow10((8 - fp.len()) as nat)) by (nonlinear_arith);
    assert(digits_val(ip) * pow10(8) >= 0) by (nonlinear_arith)
        requires
            digits_val(ip) >= 0,
            pow10(8) >= 1,
    ;
    assert(digits_val(fp) * pow10((8 - fp.len()) as nat) >= 0) by (nonlinear_arith)
        requires
            digits_val(fp) >= 0,
            pow10((8 - fp.len()) as nat) >= 1,
    ;
}

/// An exact decimal amount: the value is `units / 10^8`.
#[derive(Clone, Copy, Debug, PartialEq, Eq, Structural)]
pub struct Dec {
    pub units: i128,
}

impl Dec {
    /// The zero amount.
    pub fn zero() -> (r: Dec)
        ensures
            r.units == 0,
    {
        Dec { units: 0 }
    }

    /// The amount worth `n` whole currency units.
    pub fn from_int(n: i64) -> (r: Dec)
        ensures
            r.units == n * UNITS_PER_ONE,
    {
        Dec { units: (n as i128) * UNITS_PER_ONE }
    }

    /// Exact sum of two amounts.
    pub fn add(self, rhs: Dec) -> (r: Dec)
        requires
            i128::MIN <= self.units + rhs.units <= i128::MAX,
        ensures
            r.units == self.units + rhs.units,
    {
        Dec { units: self.units + rhs.units }
    }

    /// Exact difference of two amounts.
    pub fn sub(self, rhs: Dec) -> (r: Dec)
        requires
            i128::MIN <= self.units - rhs.units <= i128::MAX,
        ensures
            r.units == self.units - rhs.units,
    {
        Dec { units: self.units - rhs.units }
    }

    /// Absolute value of an amount.
    pub fn abs(self) -> (r: Dec)
        requires
            self.units != i128::MIN,
        ensures
            r.units == abs_int(self.units as int),
    {
        if self.units < 0 {
            Dec { units: -self.units }
        } else {
            self
        }
    }

    /// `pct` per cent of this amount: `self * pct / 100`, exact whenever
    /// the true result has at most eight fraction digits and otherwise
    /// rounded half away from zero at the eighth.
    pub fn pct_of(self, pct: Dec) -> (r: Dec)
        requires
            abs_int(self.units as int) <= CALC_MAX_UNITS,
            abs_int(pct.units as int) <= PCT_MAX_UNITS,
        ensures
            r.units == pct_apply(self.units as int, pct.units as int),
    {
        let neg = (self.units < 0) != (pct.units < 0);
        let ua: u128 = (if self.units < 0 {
            -self.units
        } else {
            self.units
        }) as u128;
        let up: u128 = (if pct.units < 0 {
            -pct.units
        } else {
            pct.units
        }) as u128;
        proof {
            assert(ua * up == abs_int(self.units as int) * abs_int(pct.units as int))
                by (nonlinear_arith)
                requires
                    ua == abs_int(self.units as int),
                    up == abs_int(pct.units as int),
            ;
            assert(abs_int(self.units as int) * abs_int(pct.units as int) <= CALC_MAX_UNITS
                * PCT_MAX_UNITS) by (nonlinear_arith)
                requires
                    0 <= abs_int(self.units as int) <= CALC_MAX_UNITS,
                    0 <= abs_int(pct.units as int) <= PCT_MAX_UNITS,
            ;
            assert(abs_int(self.units as int) * abs_int(pct.units as int) == abs_int(
                (self.units as int) * (pct.units as int),
            )) by (nonlinear_arith);
        }
        let prod: u128 = ua * up;
        let q: u128 = (prod + 5_000_000_000) / 10_000_000_000;
        let r: i128 = if neg {
            -(q as i128)
        } else {
            q as i128
        };
        proof {
            let nprod = (self.units as int) * (pct.units as int);
            assert((nprod >= 0) == !neg || nprod == 0) by (nonlinear_arith)
                requires
                    nprod == (self.units as int) * (pct.units as int),
                    neg == ((self.units < 0) != (pct.units < 0)),
            ;
        }
        Dec { units: r }
    }

    /// Quotient of two amounts, truncated toward zero at the eighth
    /// fraction digit.
    pub fn div(self, rhs: Dec) -> (r: Dec)
        requires
            rhs.units != 0,
            abs_int(self.units as int) <= CALC_MAX_UNITS,
            abs_int(rhs.units as int) <= CALC_MAX_UNITS,
        ensures
            r.units == trunc_div(self.units as int * 100_000_000, rhs.units as int),
    {
        let neg = (self.units < 0) != (rhs.units < 0);
        let ua: u128 = (if self.units < 0 {
            -self.units
        } else {
            self.units
        }) as u128;
        let ub: u128 = (if rhs.units < 0 {
            -rhs.units
        } else {
            rhs.units
        }) as u128;
        let q: u128 = (ua * 100_000_000) / ub;
        proof {
            let a8 = (self.units as int) * 100_000_000;
            assert(ua * 100_000_000 == abs_int(a8)) by (nonlinear_arith)
                requires
                    ua == abs_int(self.units as int),
                    a8 == (self.units as int) * 100_000_000,
            ;
            assert((a8 >= 0) == (self.units >= 0) || a8 == 0) by (nonlinear_arith)
                requires
                    a8 == (self.units as int) * 100_000_000,
            ;
            assert(abs_int(a8) / abs_int(rhs.units as int) <= abs_int(a8)) by {
                assert(abs_int(a8) / abs_int(rhs.units as int) <= abs_int(a8)) by (nonlinear_arith)
                    requires
                        abs_int(a8) >= 0,
                        abs_int(rhs.units as int) >= 1,
                ;
            }
        }
        let r: i128 = if neg {
            -(q as i128)
        } else {
            q as i128
        };
        Dec { units: r }
    }

    /// The amount rounded to two fraction digits (to a whole cent),
    /// half away from zero.
    pub fn round_dp2(self) -> (r: Dec)
        requires
            abs_int(self.units as int) <= CALC_MAX_UNITS,
        ensures
            r.units == round_half_away(self.units as int, 1_000_000) * 1_000_000,
    {
        let neg = self.units < 0;
        let ua: u128 = (if self.units < 0 {
            -self.units
        } else {
            self.units
        }) as u128;
        let cents: u128 = (ua + 500_000) / 1_000_000;
        let back: u128 = cents * 1_000_000;
        let r: i128 = if neg {
            -(back as i128)
        } else {
            back as i128
        };
        Dec { units: r }
    }

    /// Renders the amount rounded to a whole cent, always with exactly
    /// two fraction digits (`"1500.50"`, `"-0.25"`, `"0.00"`).
    pub fn fmt_2dp(self) -> (r: String)
        requires
            self.units != i128::MIN,
        ensures
            r@ == fmt_2dp_spec(self.units as int),
    {
        let neg = self.units < 0;
        let ua: u128 = (if self.units < 0 {
            -self.units
        } else {
            self.units
        }) as u128;
        let cents: u128 = (ua + 500_000) / 1_000_000;
        let mut out = String::new();
        if neg && cents > 0 {
            out.append("-");
        }
        append_dec_digits(&mut out, cents / 100);
        out.append(".");
        append_fixed_digits(&mut out, cents % 100, 2);
        proof {
            reveal_strlit("-");
            reveal_strlit(".");
            assert("-"@ =~= seq!['-']);
            assert("."@ =~= seq!['.']);
            let u = self.units as int;
            let scents = round_half_away(u, 1_000_000);
            let m = abs_int(scents);
            assert(m == cents as int);
            let sign: Seq<char> = if scents < 0 {
                seq!['-']
            } else {
                Seq::<char>::empty()
            };
            assert(out@ =~= sign + dec_digits(m / 100) + seq!['.'] + fixed_digits(m % 100, 2));
        }
        out
    }

    /// Renders the amount exactly, with all eight fraction digits; the
    /// canonical form that [`Dec::parse`] maps back to the same amount.
    pub fn fmt_exact(self) -> (r: String)
        requires
            self.units != i128::MIN,
        ensures
            r@ == fmt_exact_spec(self.units as int),
    {
        let neg = self.units < 0;
        let ua: u128 = (if self.units < 0 {
            -self.units
        } else {
            self.units
        }) as u128;
        let mut out = String::new();
        if neg {
            out.append("-");
        }
        append_dec_digits(&mut out, ua / 100_000_000);
        out.append(".");
        append_fixed_digits(&mut out, ua % 100_000_000, 8);
        proof {
            reveal_strlit("-");
            reveal_strlit(".");
            assert("-"@ =~= seq!['-']);
            assert("."@ =~= seq!['.']);
            let u = self.units as int;
            let m = abs_int(u);
            let sign: Seq<char> = if u < 0 {
                seq!['-']
            } else {
                Seq::<char>::empty()
            };
            assert(out@ =~= sign + dec_digits(m / 100_000_000) + seq!['.'] + fixed_digits(
                m % 100_000_000,
                8,
            ));
        }
        out
    }

    /// Parses a decimal numeral such as `"5600.43"`, `"-12"` or `"+0.5"`
    /// into an exact amount.  Returns `None` exactly when [`parse_units`]
    /// rejects the text.
    pub fn parse(s: &str) -> (r: Option<Dec>)
        ensures
            match r {
                Some(d) => parse_units(s@) == Some(d.units as int),
                None => parse_units(s@) is None,
            },
    {
        let n = s.unicode_len();
        let mut i: usize = 0;
        let mut neg = false;
        if n > 0 {
            let c0 = s.get_char(0);
            if c0 == '-' {
                neg = true;
                i = 1;
            } else if c0 == '+' {
                i = 1;
            }
        }
        let sign_len = i;
        let ghost off = i as int;
        let ghost body = s@.skip(off);
        proof {
            assert(parse_sign(s@).0 == neg);
            assert(parse_sign(s@).1 =~= body);
            lemma_pow10_vals();
        }
        // Integer part: a maximal run of digits.
        let mut acc: i128 = 0;
        while i < n && digit_at(s, i)
            invariant
                n == s@.len(),
                0 <= off <= i as int <= n as int,
                body == s@.skip(off),
                parse_sign(s@).0 == neg,
                parse_sign(s@).1 == body,
                all_digits(body.take(i - off)),
                acc == digits_val(body.take(i - off)),
                0 <= acc < pow10(18),
                pow10(18) == 1_000_000_000_000_000_000,
                pow10(8) == 100_000_000,
            decreases n - i,
        {
            let c = s.get_char(i);
            let u = c as u32;
            let d = (u - 48) as i128;
            proof {
                assert(body[i as int - off] == s@[i as int]);
                assert(body.take(i as int - off + 1).drop_last() =~= body.take(i as int - off));
                assert(body.take(i as int - off + 1).last() == body[i as int - off]);
            }
            let acc2 = acc * 10 + d;
            i = i + 1;
            if acc2 >= 1_000_000_000_000_000_000i128 {
                proof {
                    lemma_int_prefix_cap(s@, i as int - off);
                }
                return None;
            }
            acc = acc2;
        }
        if i == n {
            // No decimal point: the whole body is the integer part.
            proof {
                assert(body.take(n as int - off) =~= body);
                lemma_first_index_from(body, '.', body.len() as int);
            }
            if i == sign_len {
                // No digits at all: "", "-" or "+".
                return None;
            }
            let mag = acc * 100_000_000;
            proof {
                assert(first_index_of(body, '.') == body.len());
                assert(body.take(body.len() as int) =~= body);
                assert(digits_val(body) * pow10(8) + digits_val(Seq::<char>::empty()) * pow10(8)
                    == mag);
            }
            return Some(
                Dec {
                    units: if neg {
                        -mag
                    } else {
                        mag
                    },
                },
            );
        }
        // A non-digit stopped the scan.
        let c = s.get_char(i);
        let ghost k = i as int - off;
        if c != '.' {
            // Neither digit nor point: the grammar is broken.
            proof {
                assert(body[k] == s@[i as int]);
                assert forall|j: int| 0 <= j < k + 1 implies body[j] != '.' by {
                    if j < k {
                        assert(is_digit(body.take(k)[j]));
                        assert('.' as u32 == 46);
                    }
                }
                lemma_first_index_from(body, '.', k + 1);
                lemma_first_index_range(body, '.');
                let di = first_index_of(body, '.');
                assert(!is_digit(body.take(di)[k]));
            }
            return None;
        }
        // Fraction part after the point.
        i = i + 1;
        let frac_start = i;
        proof {
            assert(body[k] == '.');
            assert forall|j: int| 0 <= j < k implies body[j] != '.' by {
                assert(is_digit(body.take(k)[j]));
                assert('.' as u32 == 46);
            }
            lemma_first_index_from(body, '.', k);
        }
        let ghost fp = body.skip(k + 1);
        let mut facc: i128 = 0;
        let mut flen: usize = 0;
        while i < n && digit_at(s, i)
            invariant
                n == s@.len(),
                0 <= off,
                off + k + 1 == frac_start as int,
                frac_start as int <= i as int <= n as int,
                body == s@.skip(off),
                parse_sign(s@).0 == neg,
                parse_sign(s@).1 == body,
                0 <= k <= body.len(),
                first_index_of(body, '.') == k,
                all_digits(body.take(k)),
                acc == digits_val(body.take(k)),
                0 <= acc < pow10(18),
                fp == body.skip(k + 1),
                flen == i - frac_start,
                flen <= 8,
                all_digits(fp.take(flen as int)),
                facc == digits_val(fp.take(flen as int)),
                0 <= facc < pow10(flen as nat),
                pow10(18) == 1_000_000_000_000_000_000,
                pow10(8) == 100_000_000,
            decreases n - i,
        {
            let c2 = s.get_char(i);
            let u = c2 as u32;
            if flen == 8 {
                // A ninth fraction digit: more precision than an amount holds.
                proof {
                    assert(fp.len() >= 9);
                }
                return None;
            }
            let d = (u - 48) as i128;
            proof {
                assert(fp[i as int - frac_start as int] == s@[i as int]);
                assert(fp.take(i as int - frac_start as int + 1).drop_last() =~= fp.take(
                    i as int - frac_start as int,
                ));
                assert(fp.take(i as int - frac_start as int + 1).last() == fp[i as int
                    - frac_start as int]);
                lemma_pow10_mono((flen + 1) as nat, 8);
            }
            facc = facc * 10 + d;
            flen = flen + 1;
            i = i + 1;
        }
        if i < n {
            // A stray character inside the fraction: the grammar is broken.
            proof {
                assert(fp[i as int - frac_start as int] == s@[i as int]);
                assert(!is_digit(fp[i as int - frac_start as int]));
            }
            return None;
        }
        // The fraction ran to the end of the text.
        proof {
            assert(fp.take(flen as int) =~= fp);
        }
        if frac_start == sign_len + 1 && flen == 0 {
            // "." alone (possibly signed): no digits anywhere.
            return None;
        }
        let mult = pow10_i128(8 - flen);
        proof {
            lemma_pow10_pos((8 - flen) as nat);
            lemma_pow10_add(flen as nat, (8 - flen) as nat);
            assert(facc * pow10((8 - flen) as nat) < pow10(flen as nat) * pow10((8 - flen) as nat))
                by (nonlinear_arith)
                requires
                    0 <= facc < pow10(flen as nat),
                    pow10((8 - flen) as nat) >= 1,
            ;
            assert(facc * pow10((8 - flen) as nat) >= 0) by (nonlinear_arith)
                requires
                    facc >= 0,
                    pow10((8 - flen) as nat) >= 1,
            ;
        }
        let mag2 = facc * mult;
        let mag = acc * 100_000_000 + mag2;
        return Some(
            Dec {
                units: if neg {
                    -mag
                } else {
                    mag
                },
            },
        );
    }
}

} // verus!
