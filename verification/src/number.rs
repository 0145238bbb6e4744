//! Exact decimal values.
//!
//! A value is held as a signed count of scale units, one unit being a
//! ten-thousandth of a whole.  A numeral with an optional sign, a non-empty
//! run of integer digits and at most four fraction digits is represented
//! exactly; the integer part must stay below `INT_LIMIT`, which keeps every
//! value, and every sum of values the aggregator can form, inside machine
//! integers.

use vstd::prelude::*;

use crate::scan::contains_char;
use crate::scan::first_idx;
use crate::scan::lemma_first_idx;
use crate::scan::lemma_first_idx_at;

verus! {

/// Scale units per whole: values are counts of ten-thousandths.
pub const SCALE_UNIT: i64 = 10000;

/// Strict bound on the magnitude of any representable scaled value.
pub const VALUE_LIMIT: i64 = 1000000000000000000;

/// Strict bound on the integer part of a parsed numeral.
pub const INT_LIMIT: u64 = 100000000000000;

pub open spec fn is_digit(c: char) -> bool {
    c == '0' || c == '1' || c == '2' || c == '3' || c == '4' || c == '5' || c == '6' || c == '7'
        || c == '8' || c == '9'
}

pub open spec fn digit_val(c: char) -> int {
    if c == '1' {
        1
    } else if c == '2' {
        2
    } else if c == '3' {
        3
    } else if c == '4' {
        4
    } else if c == '5' {
        5
    } else if c == '6' {
        6
    } else if c == '7' {
        7
    } else if c == '8' {
        8
    } else if c == '9' {
        9
    } else {
        0
    }
}

pub open spec fn digit_char(d: int) -> char {
    if d == 1 {
        '1'
    } else if d == 2 {
        '2'
    } else if d == 3 {
        '3'
    } else if d == 4 {
        '4'
    } else if d == 5 {
        '5'
    } else if d == 6 {
        '6'
    } else if d == 7 {
        '7'
    } else if d == 8 {
        '8'
    } else if d == 9 {
        '9'
    } else {
        '0'
    }
}

pub open spec fn all_digits(s: Seq<char>) -> bool {
    forall|i: int| 0 <= i < s.len() ==> is_digit(s[i])
}

/// Value of a digit run read as a decimal numeral.
pub open spec fn digits_val(s: Seq<char>) -> int
    decreases s.len(),
{
    if s.len() == 0 {
        0
    } else {
        10 * digits_val(s.drop_last()) + digit_val(s.last())
    }
}

pub open spec fn pow10(n: nat) -> int
    decreases n,
{
    if n == 0 {
        1
    } else {
        10 * pow10((n - 1) as nat)
    }
}

pub proof fn lemma_pow10_vals()
    ensures
        pow10(0) == 1,
        pow10(1) == 10,
        pow10(2) == 100,
        pow10(3) == 1000,
        pow10(4) == 10000,
        pow10(14) == 100000000000000,
{
    reveal_with_fuel(pow10, 16);
}

pub proof fn lemma_digits_val_bounds(s: Seq<char>)
    ensures
        0 <= digits_val(s),
        digits_val(s) < pow10(s.len()),
    decreases s.len(),
{
    if s.len() > 0 {
        lemma_digits_val_bounds(s.drop_last());
        assert(digit_val(s.last()) <= 9);
    }
}

/// Reading more digits can only grow the value.
pub proof fn lemma_digits_val_prefix(s: Seq<char>, m: int)
    requires
        0 <= m <= s.len(),
    ensures
        digits_val(s.take(m)) <= digits_val(s),
    decreases s.len() - m,
{
    if m == s.len() {
        assert(s.take(m) =~= s);
    } else {
        lemma_digits_val_bounds(s.take(m));
        assert(s.take(m + 1).drop_last() =~= s.take(m));
        assert(s.take(m + 1).last() == s[m]);
        lemma_digits_val_prefix(s, m + 1);
    }
}

pub open spec fn has_sign(t: Seq<char>) -> bool {
    t.len() > 0 && (t[0] == '+' || t[0] == '-')
}

pub open spec fn is_negative(t: Seq<char>) -> bool {
    t.len() > 0 && t[0] == '-'
}

/// The numeral with its sign stripped.
pub open spec fn number_body(t: Seq<char>) -> Seq<char> {
    if has_sign(t) {
        t.drop_first()
    } else {
        t
    }
}

/// Digits ahead of the decimal point of an unsigned numeral.
pub open spec fn int_part(u: Seq<char>) -> Seq<char> {
    if contains_char(u, '.') {
        u.take(first_idx(u, '.'))
    } else {
        u
    }
}

/// Digits after the decimal point of an unsigned numeral.
pub open spec fn frac_part(u: Seq<char>) -> Seq<char> {
    if contains_char(u, '.') {
        u.skip(first_idx(u, '.') + 1)
    } else {
        Seq::<char>::empty()
    }
}

/// A plain decimal numeral: an optional sign, a non-empty integer part,
/// and, when a point is present, a non-empty fraction, digits throughout.
pub open spec fn valid_number(t: Seq<char>) -> bool {
    let u = number_body(t);
    &&& int_part(u).len() >= 1
    &&& all_digits(int_part(u))
    &&& all_digits(frac_part(u))
    &&& (contains_char(u, '.') ==> frac_part(u).len() >= 1)
}

/// A numeral the scaled representation holds exactly: at most four
/// fraction digits, integer part below `INT_LIMIT`.
pub open spec fn number_fits(t: Seq<char>) -> bool {
    &&& valid_number(t)
    &&& frac_part(number_body(t)).len() <= 4
    &&& digits_val(int_part(number_body(t))) < INT_LIMIT as int
}

/// The value of a numeral, in scale units.
pub open spec fn number_val(t: Seq<char>) -> int {
    let u = number_body(t);
    let m = digits_val(int_part(u)) * (SCALE_UNIT as int) + digits_val(frac_part(u)) * pow10(
        (4 - frac_part(u).len()) as nat,
    );
    if is_negative(t) {
        -m
    } else {
        m
    }
}

fn digit_of(c: char) -> (r: Option<u64>)
    ensures
        r.is_some() == is_digit(c),
        r matches Some(d) ==> d == digit_val(c) && d <= 9,
{
    if c == '0' {
        Some(0)
    } else if c == '1' {
        Some(1)
    } else if c == '2' {
        Some(2)
    } else if c == '3' {
        Some(3)
    } else if c == '4' {
        Some(4)
    } else if c == '5' {
        Some(5)
    } else if c == '6' {
        Some(6)
    } else if c == '7' {
        Some(7)
    } else if c == '8' {
        Some(8)
    } else if c == '9' {
        Some(9)
    } else {
        None
    }
}

/// Parses a numeral into scale units.  `None` exactly when the text is not
/// a plain decimal numeral or does not fit the representation.
#[verifier::loop_isolation(false)]
#[verifier::rlimit(100)]
pub fn parse_number(t: &str) -> (r: Option<i64>)
    ensures
        r.is_some() == number_fits(t@),
        r matches Some(v) ==> v == number_val(t@) && -VALUE_LIMIT < v < VALUE_LIMIT,
{
    proof {
        lemma_pow10_vals();
    }
    let n = t.unicode_len();
    if n == 0 {
        return None;
    }
    let c0 = t.get_char(0);
    let neg = c0 == '-';
    let signed = neg || c0 == '+';
    let s0: usize = if signed {
        1
    } else {
        0
    };
    let ghost u = number_body(t@);
    proof {
        assert(u =~= t@.skip(s0 as int));
    }

    // Integer part: a run of digits up to the end or the first point.
    let mut i: usize = s0;
    let mut acc: u64 = 0;
    proof {
        assert(u.take(0) =~= Seq::<char>::empty());
    }
    let mut dot = false;
    while i < n && !dot
        invariant
            s0 <= i <= n,
            acc == digits_val(u.take(i - s0)),
            acc < INT_LIMIT,
            forall|k: int| 0 <= k < i - s0 ==> is_digit(u[k]),
            dot ==> i < n && u[i - s0] == '.',
        decreases n - i + (if dot { 0int } else { 1int }),
    {
        let c = t.get_char(i);
        let ghost j = i - s0;
        if c == '.' {
            dot = true;
        } else {
        match digit_of(c) {
            Some(d) => {
                proof {
                    assert(u.take(j + 1).drop_last() =~= u.take(j));
                    assert(u.take(j + 1).last() == u[j]);
                }
                let acc2 = acc * 10 + d;
                if acc2 >= INT_LIMIT {
                    proof {
                        // Every extension of this digit run is at least as
                        // large, so the integer part cannot fit.
                        if contains_char(u, '.') {
                            lemma_first_idx(u, '.');
                            let f = first_idx(u, '.');
                            assert(f > j);
                            assert(int_part(u).take(j + 1) =~= u.take(j + 1));
                            lemma_digits_val_prefix(int_part(u), j + 1);
                        } else {
                            assert(int_part(u).take(j + 1) =~= u.take(j + 1));
                            lemma_digits_val_prefix(int_part(u), j + 1);
                        }
                        assert(digits_val(int_part(u)) >= INT_LIMIT as int);
                    }
                    return None;
                }
                acc = acc2;
                i = i + 1;
            },
            None => {
                proof {
                    // A character that is neither a digit nor a point sits
                    // inside the integer part, so the numeral is invalid.
                    if contains_char(u, '.') {
                        lemma_first_idx(u, '.');
                        let f = first_idx(u, '.');
                        assert(f > j);
                        assert(int_part(u)[j] == u[j]);
                        assert(!is_digit(int_part(u)[j]));
                    } else {
                        assert(!is_digit(int_part(u)[j]));
                    }
                    assert(!valid_number(t@));
                }
                return None;
            },
        }
        }
    }
    let ghost j = i - s0;
    proof {
        if i < n {
            lemma_first_idx_at(u, '.', j);
            assert(int_part(u) =~= u.take(j));
        } else {
            if contains_char(u, '.') {
                lemma_first_idx(u, '.');
                assert(false);
            }
            assert(int_part(u) =~= u.take(j));
        }
    }
    if i == s0 {
        // Empty integer part.
        return None;
    }

    // Fraction part, when a point follows.
    let mut frs: u64 = 0;
    if i < n {
        i = i + 1;
        let fstart = i;
        let ghost fp = frac_part(u);
        proof {
            assert(fp =~= u.skip(j + 1));
        }
        let mut fr: u64 = 0;
        let mut flen: usize = 0;
        while i < n
            invariant
                fstart <= i <= n,
                fstart == s0 + j + 1,
                flen == i - fstart,
                flen <= 4,
                fr == digits_val(fp.take(flen as int)),
                fr < pow10(flen as nat),
                forall|k: int| 0 <= k < flen ==> is_digit(fp[k]),
            decreases n - i,
        {
            let c = t.get_char(i);
            match digit_of(c) {
                Some(d) => {
                    if flen == 4 {
                        proof {
                            assert(fp.len() > 4);
                        }
                        return None;
                    }
                    proof {
                        assert(fp.take(flen + 1).drop_last() =~= fp.take(flen as int));
                        assert(fp.take(flen + 1).last() == fp[flen as int]);
                    }
                    fr = fr * 10 + d;
                    flen = flen + 1;
                    i = i + 1;
                },
                None => {
                    proof {
                        assert(!is_digit(fp[i - fstart]));
                        assert(!valid_number(t@));
                    }
                    return None;
                },
            }
        }
        if flen == 0 {
            proof {
                assert(fp.len() == 0);
                assert(!valid_number(t@));
            }
            return None;
        }
        proof {
            assert(fp.take(flen as int) =~= fp);
            assert(fr == digits_val(fp));
            assert(all_digits(fp));
        }
        let mult: u64 = if flen == 1 {
            1000
        } else if flen == 2 {
            100
        } else if flen == 3 {
            10
        } else {
            1
        };
        proof {
            assert(mult == pow10((4 - fp.len()) as nat));
            if flen == 1 {
                assert(fr * mult <= 9000);
            } else if flen == 2 {
                assert(fr * mult <= 9900);
            } else if flen == 3 {
                assert(fr * mult <= 9990);
            } else {
                assert(fr * mult <= 9999);
            }
        }
        frs = fr * mult;
    } else {
        proof {
            assert(frac_part(u) =~= Seq::<char>::empty());
        }
    }

    let m: i64 = (acc as i64) * SCALE_UNIT + (frs as i64);
    proof {
        assert(m == digits_val(int_part(u)) * (SCALE_UNIT as int) + digits_val(frac_part(u))
            * pow10((4 - frac_part(u).len()) as nat));
        assert(0 <= m < VALUE_LIMIT);
        assert(number_fits(t@));
    }
    if neg {
        Some(-m)
    } else {
        Some(m)
    }
}

/// Decimal digit string of a whole number.
pub open spec fn dec_digits(n: nat) -> Seq<char>
    decreases n,
{
    if n < 10 {
        seq![digit_char(n as int)]
    } else {
        dec_digits(n / 10) + seq![digit_char((n % 10) as int)]
    }
}

/// Report form of a signed count of tenths: one fraction digit, a minus
/// sign ahead of negative values.
pub open spec fn nonneg_tenths_chars(t: nat) -> Seq<char> {
    dec_digits(t / 10) + seq!['.'] + seq![digit_char((t % 10) as int)]
}

pub open spec fn tenths_chars(t: int) -> Seq<char> {
    if t >= 0 {
        nonneg_tenths_chars(t as nat)
    } else {
        seq!['-'] + nonneg_tenths_chars((-t) as nat)
    }
}

/// Half-away-from-zero rounding of `n / d`, for `0 <= n` and `0 < d`.
pub open spec fn round_half_up(n: int, d: int) -> int {
    (2 * n + d) / (2 * d)
}

/// A scaled value reduced to tenths, rounding half away from zero.
pub open spec fn value_tenths(v: int) -> int {
    if v >= 0 {
        round_half_up(v, 1000)
    } else {
        -round_half_up(-v, 1000)
    }
}

/// The mean of a statistic with sum `s` over `c` values, in tenths,
/// rounding half away from zero.
pub open spec fn mean_tenths(s: int, c: int) -> int {
    if s >= 0 {
        round_half_up(s, 1000 * c)
    } else {
        -round_half_up(-s, 1000 * c)
    }
}

fn digit_str(d: u64) -> (r: &'static str)
    requires
        d <= 9,
    ensures
        r@ == seq![digit_char(d as int)],
{
    if d == 0 {
        proof {
            reveal_strlit("0");
            assert("0"@ =~= seq![digit_char(0)]);
        }
        "0"
    } else if d == 1 {
        proof {
            reveal_strlit("1");
            assert("1"@ =~= seq![digit_char(1)]);
        }
        "1"
    } else if d == 2 {
        proof {
            reveal_strlit("2");
            assert("2"@ =~= seq![digit_char(2)]);
        }
        "2"
    } else if d == 3 {
        proof {
            reveal_strlit("3");
            assert("3"@ =~= seq![digit_char(3)]);
        }
        "3"
    } else if d == 4 {
        proof {
            reveal_strlit("4");
            assert("4"@ =~= seq![digit_char(4)]);
        }
        "4"
    } else if d == 5 {
        proof {
            reveal_strlit("5");
            assert("5"@ =~= seq![digit_char(5)]);
        }
        "5"
    } else if d == 6 {
        proof {
            reveal_strlit("6");
            assert("6"@ =~= seq![digit_char(6)]);
        }
        "6"
    } else if d == 7 {
        proof {
            reveal_strlit("7");
            assert("7"@ =~= seq![digit_char(7)]);
        }
        "7"
    } else if d == 8 {
        proof {
            reveal_strlit("8");
            assert("8"@ =~= seq![digit_char(8)]);
        }
        "8"
    } else {
        proof {
            reveal_strlit("9");
            assert("9"@ =~= seq![digit_char(9)]);
        }
        "9"
    }
}

/// Renders a whole number in decimal.
pub fn whole_to_string(n: u128) -> (s: String)
    ensures
        s@ == dec_digits(n as nat),
    decreases n,
{
    if n < 10 {
        String::from_str(digit_str(n as u64))
    } else {
        let mut s = whole_to_string(n / 10);
        s.append(digit_str((n % 10) as u64));
        s
    }
}

/// Renders a signed count of tenths with one fraction digit.
pub fn tenths_to_string(t: i128) -> (s: String)
    requires
        i128::MIN < t,
    ensures
        s@ == tenths_chars(t as int),
{
    proof {
        reveal_strlit(".");
        reveal_strlit("-");
        assert("."@ =~= seq!['.']);
        assert("-"@ =~= seq!['-']);
    }
    if t >= 0 {
        let tt = t as u128;
        let mut s = whole_to_string(tt / 10);
        s.append(".");
        s.append(digit_str((tt % 10) as u64));
        proof {
            assert(s@ =~= tenths_chars(t as int));
        }
        s
    } else {
        let tt = (-t) as u128;
        let mut s = String::from_str("-");
        let w = whole_to_string(tt / 10);
        s.append(w.as_str());
        s.append(".");
        s.append(digit_str((tt % 10) as u64));
        proof {
            assert(s@ =~= tenths_chars(t as int));
        }
        s
    }
}

} // verus!
