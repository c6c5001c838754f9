use vstd::prelude::*;
use vstd::string::*;
use vstd::arithmetic::div_mod::lemma_fundamental_div_mod_converse;

verus! {

/// Significant digits kept of a written number; the rest are rounded off.
pub const SIGNIFICANT_DIGITS: u64 = 17;

/// Bound below which the digits of a mantissa are added up exactly.
pub const MANTISSA_LIMIT: u64 = 1000000000000000000;

/// The largest mantissa that a measure holds.
pub const MAX_MANTISSA: u64 = 100000000000000000;

/// The smallest size that single-precision floating point rounds to infinity:
/// two to the 128 less two to the 103.
pub const OVERFLOW_BOUND: u128 = 340282356779733661637539395458142568448;

/// The lowest power of ten that a non-zero measure carries: a smaller number
/// lies below half the least single-precision number, which rounds to zero.
pub const MIN_EXPONENT: i32 = -62;

/// A height in metres or a weight in kilograms: a finite number, held as
/// `mantissa` times ten to the `exponent` with its sign (so that minus zero
/// is kept), or infinity, or no number. Finite numbers cover the range of
/// single-precision floating point: larger ones read as infinity.
#[derive(Clone, Copy, Debug, PartialEq, Eq, Structural)]
pub enum Measure {
    Finite { negative: bool, mantissa: u64, exponent: i32 },
    PositiveInfinity,
    NegativeInfinity,
    NotANumber,
}

/// A finite measure's size is below the overflow bound, its mantissa has at
/// most the digits kept, and its exponent lies where the parser puts it.
pub open spec fn finite_wf(mantissa: u64, exponent: i32) -> bool {
    &&& mantissa <= MAX_MANTISSA
    &&& MIN_EXPONENT <= exponent <= 38
    &&& exponent >= 0 ==> mantissa * pow10(exponent as nat) < OVERFLOW_BOUND
}

impl Measure {
    pub open spec fn wf(self) -> bool {
        match self {
            Measure::Finite { mantissa, exponent, .. } => finite_wf(mantissa, exponent),
            _ => true,
        }
    }

    /// The finite measure of `mantissa` times ten to the `exponent`, where it
    /// is one that a measure holds.
    pub fn from_parts(negative: bool, mantissa: u64, exponent: i32) -> (r: Option<Measure>)
        ensures
            r == (if finite_wf(mantissa, exponent) {
                Some(Measure::Finite { negative, mantissa, exponent })
            } else {
                None::<Measure>
            }),
    {
        if mantissa > MAX_MANTISSA || exponent < MIN_EXPONENT || exponent > 38 {
            return None;
        }
        if exponent >= 0 {
            let p = power_of_ten(exponent as u32);
            match (mantissa as u128).checked_mul(p) {
                Some(x) => {
                    if x >= OVERFLOW_BOUND {
                        return None;
                    }
                },
                None => {
                    return None;
                },
            }
        }
        Some(Measure::Finite { negative, mantissa, exponent })
    }
}

/// Ten to the `e`.
pub fn power_of_ten(e: u32) -> (r: u128)
    requires
        e <= 38,
    ensures
        r == pow10(e as nat),
{
    let mut p: u128 = 1;
    let mut k: u32 = 0;
    while k < e
        invariant
            0 <= k <= e <= 38,
            p == pow10(k as nat),
        decreases e - k,
    {
        proof {
            lemma_pow10_monotone(k as nat, 37);
            reveal_with_fuel(pow10, 39);
        }
        p = p * 10;
        k = k + 1;
    }
    p
}

/// Why a line of text is not a measure.
#[derive(Clone, Copy, Debug, PartialEq, Eq, Structural)]
pub enum ParseError {
    /// Nothing but white space.
    Empty,
    /// Not a number: neither a decimal with an optional exponent nor a word
    /// for infinity or for no number.
    Invalid,
}

impl ParseError {
    /// The diagnostic shown before a question is asked again.
    pub fn message(&self) -> (r: &'static str)
        ensures
            r@ == error_message(*self),
    {
        match self {
            ParseError::Empty => "ParseFloatError { kind: Empty }",
            ParseError::Invalid => "ParseFloatError { kind: Invalid }",
        }
    }
}

pub open spec fn error_message(e: ParseError) -> Seq<char> {
    match e {
        ParseError::Empty => "ParseFloatError { kind: Empty }"@,
        ParseError::Invalid => "ParseFloatError { kind: Invalid }"@,
    }
}

/// Unicode white space, as trimmed from both ends of an answer.
pub open spec fn is_space(c: char) -> bool {
    let u = c as u32;
    u == 0x20 || (0x09 <= u && u <= 0x0d) || u == 0x85 || u == 0xa0 || u == 0x1680 || (0x2000
        <= u && u <= 0x200a) || u == 0x2028 || u == 0x2029 || u == 0x202f || u == 0x205f || u
        == 0x3000
}

pub open spec fn trim_start(s: Seq<char>) -> Seq<char>
    decreases s.len(),
{
    if s.len() > 0 && is_space(s[0]) {
        trim_start(s.drop_first())
    } else {
        s
    }
}

pub open spec fn trim_end(s: Seq<char>) -> Seq<char>
    decreases s.len(),
{
    if s.len() > 0 && is_space(s.last()) {
        trim_end(s.drop_last())
    } else {
        s
    }
}

/// The text with white space removed from both ends.
pub open spec fn trim(s: Seq<char>) -> Seq<char> {
    trim_end(trim_start(s))
}

pub open spec fn is_digit(c: char) -> bool {
    0x30 <= (c as u32) && (c as u32) <= 0x39
}

pub open spec fn digit_of(c: char) -> int {
    (c as u32) as int - 0x30
}

/// The number that a string of decimal digits writes.
pub open spec fn digits_value(d: Seq<char>) -> int
    decreases d.len(),
{
    if d.len() == 0 {
        0
    } else {
        digits_value(d.drop_last()) * 10 + digit_of(d.last())
    }
}

pub open spec fn pow10(n: nat) -> int
    decreases n,
{
    if n == 0 {
        1
    } else {
        10 * pow10((n - 1) as nat)
    }
}

/// The end of the run of digits that starts at `i`.
pub open spec fn digit_run_end(t: Seq<char>, i: int) -> int
    decreases t.len() - i,
{
    if 0 <= i < t.len() && is_digit(t[i]) {
        digit_run_end(t, i + 1)
    } else {
        i
    }
}

pub open spec fn sign_len(t: Seq<char>) -> int {
    if t.len() > 0 && (t[0] == '+' || t[0] == '-') {
        1
    } else {
        0
    }
}

pub open spec fn whole_end(t: Seq<char>) -> int {
    digit_run_end(t, sign_len(t))
}

pub open spec fn has_point(t: Seq<char>) -> bool {
    0 <= whole_end(t) < t.len() && t[whole_end(t)] == '.'
}

pub open spec fn fraction_end(t: Seq<char>) -> int {
    if has_point(t) {
        digit_run_end(t, whole_end(t) + 1)
    } else {
        whole_end(t)
    }
}

/// The digits before the point.
pub open spec fn whole_digits(t: Seq<char>) -> Seq<char> {
    t.subrange(sign_len(t), whole_end(t))
}

/// The digits after the point.
pub open spec fn fraction_digits(t: Seq<char>) -> Seq<char> {
    if has_point(t) {
        t.subrange(whole_end(t) + 1, fraction_end(t))
    } else {
        Seq::empty()
    }
}

/// All digits of the number before its exponent, the point left out.
pub open spec fn mantissa_digits(t: Seq<char>) -> Seq<char> {
    whole_digits(t) + fraction_digits(t)
}

pub open spec fn has_exponent(t: Seq<char>) -> bool {
    0 <= fraction_end(t) < t.len() && (t[fraction_end(t)] == 'e' || t[fraction_end(t)] == 'E')
}

pub open spec fn exponent_negative(t: Seq<char>) -> bool {
    has_exponent(t) && fraction_end(t) + 1 < t.len() && t[fraction_end(t) + 1] == '-'
}

pub open spec fn exponent_sign_len(t: Seq<char>) -> int {
    if has_exponent(t) && fraction_end(t) + 1 < t.len() && (t[fraction_end(t) + 1] == '+' || t[
        fraction_end(t) + 1] == '-') {
        1
    } else {
        0
    }
}

pub open spec fn exponent_start(t: Seq<char>) -> int {
    fraction_end(t) + 1 + exponent_sign_len(t)
}

/// The digits of the exponent, after `e` or `E` and its optional sign.
pub open spec fn exponent_digits(t: Seq<char>) -> Seq<char> {
    if has_exponent(t) {
        t.subrange(exponent_start(t), digit_run_end(t, exponent_start(t)))
    } else {
        Seq::empty()
    }
}

pub open spec fn number_end(t: Seq<char>) -> int {
    if has_exponent(t) {
        digit_run_end(t, exponent_start(t))
    } else {
        fraction_end(t)
    }
}

/// An optional sign, digits with at most one point and at least one digit,
/// and an optional exponent: `e` or `E`, an optional sign and digits.
pub open spec fn is_decimal(t: Seq<char>) -> bool {
    &&& number_end(t) == t.len()
    &&& mantissa_digits(t).len() >= 1
    &&& has_exponent(t) ==> exponent_digits(t).len() >= 1
}

pub open spec fn exponent_value(t: Seq<char>) -> int {
    if exponent_negative(t) {
        -digits_value(exponent_digits(t))
    } else {
        digits_value(exponent_digits(t))
    }
}

/// `a / b` rounded to the nearest whole number, halves upward.
pub open spec fn round_div(a: int, b: int) -> int {
    (2 * a + b) / (2 * b)
}

/// The number of zeros that a string of digits starts with.
pub open spec fn leading_zeros(d: Seq<char>) -> int
    decreases d.len(),
{
    if d.len() > 0 && d[0] == '0' {
        1 + leading_zeros(d.drop_first())
    } else {
        0
    }
}

/// Digits of the mantissa dropped by rounding to the significant digits kept.
pub open spec fn cut_digits(t: Seq<char>) -> int {
    let d = mantissa_digits(t);
    let significant = d.len() - leading_zeros(d);
    if significant > SIGNIFICANT_DIGITS {
        significant - SIGNIFICANT_DIGITS
    } else {
        0
    }
}

/// The mantissa's digits rounded to the significant digits kept.
pub open spec fn rounded_mantissa(t: Seq<char>) -> int {
    round_div(digits_value(mantissa_digits(t)), pow10(cut_digits(t) as nat))
}

/// The power of ten that the rounded mantissa is to be multiplied by.
pub open spec fn decimal_exponent(t: Seq<char>) -> int {
    exponent_value(t) - fraction_digits(t).len() + cut_digits(t)
}

/// The measure that a decimal number writes: zero where it rounds to zero
/// in single precision, infinity where it overflows it.
pub open spec fn decimal_measure(t: Seq<char>, negative: bool) -> Measure {
    measure_of(rounded_mantissa(t), decimal_exponent(t), negative)
}

/// The measure of `m` times ten to the `e`, for a mantissa of at most the
/// digits kept.
pub open spec fn measure_of(m: int, e: int, negative: bool) -> Measure {
    if m == 0 || e < MIN_EXPONENT {
        Measure::Finite { negative, mantissa: 0, exponent: 0 }
    } else if e >= 0 && m * pow10(e as nat) >= OVERFLOW_BOUND {
        if negative {
            Measure::NegativeInfinity
        } else {
            Measure::PositiveInfinity
        }
    } else {
        Measure::Finite { negative, mantissa: m as u64, exponent: e as i32 }
    }
}

/// `c` is the lower-case ASCII letter `lower` in either case.
pub open spec fn same_letter(c: char, lower: char) -> bool {
    c == lower || (c as u32) + 32 == (lower as u32)
}

/// `s` spells the lower-case word `w` in any mix of cases.
pub open spec fn spells(s: Seq<char>, w: Seq<char>) -> bool {
    s.len() == w.len() && forall|i: int| 0 <= i < s.len() ==> same_letter(#[trigger] s[i], w[i])
}

pub open spec fn is_infinity_word(u: Seq<char>) -> bool {
    spells(u, seq!['i', 'n', 'f']) || spells(u, seq!['i', 'n', 'f', 'i', 'n', 'i', 't', 'y'])
}

pub open spec fn is_nan_word(u: Seq<char>) -> bool {
    spells(u, seq!['n', 'a', 'n'])
}

/// What an answer means, or why it has no meaning.
pub open spec fn parse_spec(s: Seq<char>) -> Result<Measure, ParseError> {
    let t = trim(s);
    let u = t.subrange(sign_len(t), t.len() as int);
    let negative = t.len() > 0 && t[0] == '-';
    if t.len() == 0 {
        Err(ParseError::Empty)
    } else if is_infinity_word(u) {
        Ok(
            if negative {
                Measure::NegativeInfinity
            } else {
                Measure::PositiveInfinity
            },
        )
    } else if is_nan_word(u) {
        Ok(Measure::NotANumber)
    } else if !is_decimal(t) {
        Err(ParseError::Invalid)
    } else {
        Ok(decimal_measure(t, negative))
    }
}

fn is_space_char(c: char) -> (r: bool)
    ensures
        r == is_space(c),
{
    let u = c as u32;
    u == 0x20 || (0x09 <= u && u <= 0x0d) || u == 0x85 || u == 0xa0 || u == 0x1680 || (0x2000
        <= u && u <= 0x200a) || u == 0x2028 || u == 0x2029 || u == 0x202f || u == 0x205f || u
        == 0x3000
}

fn is_digit_char(c: char) -> (r: bool)
    ensures
        r == is_digit(c),
{
    let u = c as u32;
    0x30 <= u && u <= 0x39
}

/// The answer with white space removed from both ends.
pub fn trim_answer(s: &str) -> (r: &str)
    ensures
        r@ == trim(s@),
{
    let n = s.unicode_len();
    let mut lo: usize = 0;
    assert(s@.subrange(0, n as int) =~= s@);
    while lo < n && is_space_char(s.get_char(lo))
        invariant
            n == s@.len(),
            lo <= n,
            trim_start(s@) == trim_start(s@.subrange(lo as int, n as int)),
        decreases n - lo,
    {
        assert(s@.subrange(lo as int, n as int).drop_first() =~= s@.subrange(
            lo as int + 1,
            n as int,
        ));
        lo = lo + 1;
    }
    assert(trim_start(s@) == s@.subrange(lo as int, n as int));
    let mut hi: usize = n;
    while hi > lo && is_space_char(s.get_char(hi - 1))
        invariant
            n == s@.len(),
            lo <= hi <= n,
            trim(s@) == trim_end(s@.subrange(lo as int, hi as int)),
        decreases hi - lo,
    {
        assert(s@.subrange(lo as int, hi as int).drop_last() =~= s@.subrange(
            lo as int,
            hi as int - 1,
        ));
        hi = hi - 1;
    }
    s.substring_char(lo, hi)
}

/// Exponents from this size up are held only as "this size or more".
const EXPONENT_CAP: u128 = 1000000000000000000000000000000;

proof fn lemma_digits_value_bounds(d: Seq<char>)
    requires
        forall|i: int| 0 <= i < d.len() ==> is_digit(#[trigger] d[i]),
    ensures
        0 <= digits_value(d) < pow10(d.len()),
    decreases d.len(),
{
    if d.len() > 0 {
        lemma_digits_value_bounds(d.drop_last());
    }
}

/// Ten to any power is at least one.
pub proof fn lemma_pow10_positive(n: nat)
    ensures
        pow10(n) >= 1,
    decreases n,
{
    if n > 0 {
        lemma_pow10_positive((n - 1) as nat);
    }
}

/// Ten to a power of 38 or more is at least ten to the 38.
pub proof fn lemma_pow10_at_least_38(b: nat)
    requires
        38 <= b,
    ensures
        pow10(b) >= 100000000000000000000000000000000000000,
{
    reveal_with_fuel(pow10, 39);
    lemma_pow10_monotone(38, b);
}

/// Ten to a larger power is no smaller.
pub proof fn lemma_pow10_monotone(a: nat, b: nat)
    requires
        a <= b,
    ensures
        1 <= pow10(a) <= pow10(b),
    decreases b,
{
    lemma_pow10_positive(a);
    lemma_pow10_positive(b);
    if a < b {
        lemma_pow10_monotone(a, (b - 1) as nat);
    }
}

/// Digits written after others shift those by their own count.
proof fn lemma_digits_concat(s: Seq<char>, u: Seq<char>)
    ensures
        digits_value(s + u) == digits_value(s) * pow10(u.len()) + digits_value(u),
    decreases u.len(),
{
    if u.len() == 0 {
        assert(s + u =~= s);
    } else {
        assert((s + u).drop_last() =~= s + u.drop_last());
        assert((s + u).last() == u.last());
        lemma_digits_concat(s, u.drop_last());
        let a = digits_value(s);
        let p = pow10(u.drop_last().len());
        let b = digits_value(u.drop_last());
        assert((a * p + b) * 10 == a * (10 * p) + b * 10) by (nonlinear_arith);
    }
}

/// Rounding a quotient by a power of ten goes by the first digit dropped.
proof fn lemma_round_first_dropped(a: int, d: int, c: int, p1: int)
    requires
        p1 >= 1,
        0 <= c < p1,
        0 <= d <= 9,
    ensures
        round_div(a * (10 * p1) + d * p1 + c, 10 * p1) == a + (if d >= 5 {
            1int
        } else {
            0
        }),
{
    let p = 10 * p1;
    let x = 2 * (a * p + d * p1 + c) + p;
    let q = a + (if d >= 5 {
        1int
    } else {
        0
    });
    let r = if d >= 5 {
        (2 * d - 10) * p1 + 2 * c
    } else {
        2 * d * p1 + 2 * c + 10 * p1
    };
    assert(x == q * (2 * p) + r) by (nonlinear_arith)
        requires
            p == 10 * p1,
            x == 2 * (a * p + d * p1 + c) + p,
            q == a + (if d >= 5 {
                1int
            } else {
                0
            }),
            r == (if d >= 5 {
                (2 * d - 10) * p1 + 2 * c
            } else {
                2 * d * p1 + 2 * c + 10 * p1
            }),
    ;
    assert(0 <= r < 2 * p) by (nonlinear_arith)
        requires
            p == 10 * p1,
            p1 >= 1,
            0 <= c < p1,
            0 <= d <= 9,
            r == (if d >= 5 {
                (2 * d - 10) * p1 + 2 * c
            } else {
                2 * d * p1 + 2 * c + 10 * p1
            }),
    ;
    lemma_fundamental_div_mod_converse(x, 2 * p, q, r);
}

/// A number of fewer digits than the power of ten rounds to zero.
proof fn lemma_round_small(v: int, n: nat, m: nat)
    requires
        0 <= v < pow10(n),
        n < m,
    ensures
        round_div(v, pow10(m)) == 0,
{
    lemma_pow10_monotone(n, (m - 1) as nat);
    let p = pow10(m);
    assert(p == 10 * pow10((m - 1) as nat));
    lemma_fundamental_div_mod_converse(2 * v + p, 2 * p, 0, 2 * v + p);
}

proof fn lemma_run_end(t: Seq<char>, i: int)
    requires
        0 <= i <= t.len(),
    ensures
        i <= digit_run_end(t, i) <= t.len(),
        forall|j: int| i <= j < digit_run_end(t, i) ==> is_digit(#[trigger] t[j]),
        digit_run_end(t, i) < t.len() ==> !is_digit(t[digit_run_end(t, i)]),
    decreases t.len() - i,
{
    if i < t.len() && is_digit(t[i]) {
        lemma_run_end(t, i + 1);
    }
}

fn run_end(t: &str, i: usize) -> (r: usize)
    requires
        i <= t@.len(),
    ensures
        r == digit_run_end(t@, i as int),
{
    let n = t.unicode_len();
    let mut j = i;
    while j < n && is_digit_char(t.get_char(j))
        invariant
            n == t@.len(),
            i <= j <= n,
            digit_run_end(t@, i as int) == digit_run_end(t@, j as int),
        decreases n - j,
    {
        j = j + 1;
    }
    j
}

fn spells_word(u: &str, w: &Vec<char>) -> (r: bool)
    ensures
        r == spells(u@, w@),
{
    let n = u.unicode_len();
    if n != w.len() {
        return false;
    }
    let mut i: usize = 0;
    while i < n
        invariant
            n == u@.len(),
            n == w@.len(),
            i <= n,
            forall|j: int| 0 <= j < i ==> same_letter(#[trigger] u@[j], w@[j]),
        decreases n - i,
    {
        let c = u.get_char(i);
        let lower = w[i];
        if !(c == lower || (c as u32) + 32 == (lower as u32)) {
            return false;
        }
        i = i + 1;
    }
    true
}

/// The value of digits `from..to` of `t`, saturated: `true` where it
/// reaches the cap, in which case the number returned means nothing.
fn run_value(t: &str, from: usize, to: usize, cap: u128) -> (r: (u128, bool))
    requires
        from <= to <= t@.len(),
        forall|j: int| from <= j < to ==> is_digit(#[trigger] t@[j]),
        cap <= EXPONENT_CAP,
    ensures
        r.1 == (digits_value(t@.subrange(from as int, to as int)) >= cap),
        !r.1 ==> r.0 == digits_value(t@.subrange(from as int, to as int)),
{
    let mut i = from;
    let mut acc: u128 = 0;
    let mut big = cap == 0;
    assert(t@.subrange(from as int, from as int) =~= Seq::<char>::empty());
    while i < to
        invariant
            from <= i <= to <= t@.len(),
            forall|j: int| from <= j < to ==> is_digit(#[trigger] t@[j]),
            cap <= EXPONENT_CAP,
            big == (digits_value(t@.subrange(from as int, i as int)) >= cap),
            !big ==> acc == digits_value(t@.subrange(from as int, i as int)),
            digits_value(t@.subrange(from as int, i as int)) >= 0,
        decreases to - i,
    {
        let c = t.get_char(i);
        proof {
            assert(t@.subrange(from as int, i as int + 1).drop_last() =~= t@.subrange(
                from as int,
                i as int,
            ));
        }
        if !big {
            acc = acc * 10 + (c as u32 - 0x30) as u128;
            big = acc >= cap;
        }
        i = i + 1;
    }
    (acc, big)
}

/// Digit `i` of the number before its exponent.
fn mantissa_digit(t: &str, a: usize, we: usize, i: usize) -> (c: char)
    requires
        a == sign_len(t@),
        we == whole_end(t@),
        a <= we <= t@.len(),
        fraction_end(t@) <= t@.len(),
        has_point(t@) ==> we + 1 <= fraction_end(t@),
        i < mantissa_digits(t@).len(),
    ensures
        c == mantissa_digits(t@)[i as int],
{
    proof {
        assert(whole_digits(t@).len() == we - a);
        if !has_point(t@) {
            assert(fraction_digits(t@).len() == 0);
        } else {
            assert(fraction_digits(t@).len() == fraction_end(t@) - we - 1);
        }
    }
    // Positions in the text fit in a usize.
    let _n = t.unicode_len();
    if i < we - a {
        t.get_char(a + i)
    } else {
        t.get_char(we + 1 + (i - (we - a)))
    }
}

/// The value of the first `count` digits of the number before its exponent,
/// saturated as in `run_value`.
fn mantissa_prefix_value(t: &str, a: usize, we: usize, count: usize) -> (r: (u64, bool))
    requires
        a == sign_len(t@),
        we == whole_end(t@),
        a <= we <= t@.len(),
        fraction_end(t@) <= t@.len(),
        has_point(t@) ==> we + 1 <= fraction_end(t@),
        count <= mantissa_digits(t@).len(),
        forall|j: int| 0 <= j < mantissa_digits(t@).len() ==> is_digit(
            #[trigger] mantissa_digits(t@)[j],
        ),
    ensures
        r.1 == (digits_value(mantissa_digits(t@).take(count as int)) >= MANTISSA_LIMIT),
        !r.1 ==> r.0 == digits_value(mantissa_digits(t@).take(count as int)),
{
    let ghost d = mantissa_digits(t@);
    let mut i: usize = 0;
    let mut acc: u64 = 0;
    let mut big = false;
    assert(d.take(0) =~= Seq::<char>::empty());
    while i < count
        invariant
            a == sign_len(t@),
            we == whole_end(t@),
            a <= we <= t@.len(),
            fraction_end(t@) <= t@.len(),
            has_point(t@) ==> we + 1 <= fraction_end(t@),
            d == mantissa_digits(t@),
            count <= d.len(),
            forall|j: int| 0 <= j < d.len() ==> is_digit(#[trigger] d[j]),
            i <= count,
            big == (digits_value(d.take(i as int)) >= MANTISSA_LIMIT),
            !big ==> acc == digits_value(d.take(i as int)),
            digits_value(d.take(i as int)) >= 0,
        decreases count - i,
    {
        let c = mantissa_digit(t, a, we, i);
        proof {
            assert(d.take(i as int + 1).drop_last() =~= d.take(i as int));
            assert(d.take(i as int + 1).last() == d[i as int]);
        }
        if !big {
            acc = acc * 10 + (c as u32 - 0x30) as u64;
            big = acc >= MANTISSA_LIMIT;
        }
        i = i + 1;
    }
    (acc, big)
}

/// Reads a height or a weight from one line of input. White space at both
/// ends is ignored. The rest is a word for infinity or for no number, or a
/// decimal with an optional exponent, rounded to the nearest billionth.
#[verifier::rlimit(100)]
pub fn parse_measure(line: &str) -> (r: Result<Measure, ParseError>)
    ensures
        r == parse_spec(line@),
        r matches Ok(m) ==> m.wf(),
{
    let t = trim_answer(line);
    let n = t.unicode_len();
    if n == 0 {
        return Err(ParseError::Empty);
    }
    let first = t.get_char(0);
    let a: usize = if first == '+' || first == '-' {
        1
    } else {
        0
    };
    let negative = first == '-';
    let u = t.substring_char(a, n);
    let inf = vec!['i', 'n', 'f'];
    let infinity = vec!['i', 'n', 'f', 'i', 'n', 'i', 't', 'y'];
    let nan = vec!['n', 'a', 'n'];
    proof {
        assert(inf@ =~= seq!['i', 'n', 'f']);
        assert(infinity@ =~= seq!['i', 'n', 'f', 'i', 'n', 'i', 't', 'y']);
        assert(nan@ =~= seq!['n', 'a', 'n']);
    }
    if spells_word(u, &inf) || spells_word(u, &infinity) {
        return Ok(
            if negative {
                Measure::NegativeInfinity
            } else {
                Measure::PositiveInfinity
            },
        );
    }
    if spells_word(u, &nan) {
        return Ok(Measure::NotANumber);
    }
    proof {
        lemma_run_end(t@, a as int);
    }
    let we = run_end(t, a);
    let point = we < n && t.get_char(we) == '.';
    let mut fe = we;
    if point {
        proof {
            lemma_run_end(t@, we + 1);
        }
        fe = run_end(t, we + 1);
    }
    let has_exp = fe < n && (t.get_char(fe) == 'e' || t.get_char(fe) == 'E');
    let mut es = fe;
    let mut eneg = false;
    let mut ee = fe;
    if has_exp {
        es = fe + 1;
        if fe + 1 < n {
            let c = t.get_char(fe + 1);
            if c == '+' || c == '-' {
                es = fe + 2;
                eneg = c == '-';
            }
        }
        proof {
            lemma_run_end(t@, es as int);
        }
        ee = run_end(t, es);
    }
    let nd: usize = (we - a) + (if point {
        fe - we - 1
    } else {
        0
    });
    let ghost d = mantissa_digits(t@);
    proof {
        assert(whole_digits(t@).len() == we - a);
        if point {
            assert(fraction_digits(t@).len() == fe - we - 1);
        } else {
            assert(fraction_digits(t@).len() == 0);
        }
        assert(d.len() == nd);
        if has_exp {
            assert(exponent_digits(t@).len() == ee - es);
        }
        assert(exponent_negative(t@) == eneg);
    }
    if ee != n || nd == 0 || (has_exp && ee == es) {
        return Err(ParseError::Invalid);
    }
    proof {
        assert forall|j: int| 0 <= j < d.len() implies is_digit(#[trigger] d[j]) by {
            if j < we - a {
                assert(d[j] == t@[a + j]);
            } else {
                assert(d[j] == t@[we + 1 + j - (we - a)]);
            }
        }
        if has_exp {
            assert(exponent_digits(t@) == t@.subrange(es as int, ee as int));
        } else {
            assert(exponent_digits(t@) =~= Seq::<char>::empty());
        }
    }
    let fl: usize = nd - (we - a);
    proof {
        assert(decimal_measure(t@, negative) == measure_of(
            round_div(digits_value(d), pow10(cut_digits(t@) as nat)),
            exponent_value(t@) - fl + cut_digits(t@),
            negative,
        ));
    }
    Ok(decimal_value(t, a, we, nd, fl, has_exp, es, ee, eneg, negative, Ghost(exponent_value(t@))))
}

/// The first `nd - m` digits of the number before its exponent, with the
/// digit after them deciding the rounding: the digits over ten to the `m`,
/// rounded, where that lies below the bound.
#[verifier::rlimit(50)]
fn rounded_prefix(t: &str, a: usize, we: usize, nd: usize, m: usize) -> (r: Option<u64>)
    requires
        a == sign_len(t@),
        we == whole_end(t@),
        a <= we <= t@.len(),
        fraction_end(t@) <= t@.len(),
        has_point(t@) ==> we + 1 <= fraction_end(t@),
        nd == mantissa_digits(t@).len(),
        1 <= m <= nd,
        forall|j: int| 0 <= j < nd ==> is_digit(#[trigger] mantissa_digits(t@)[j]),
    ensures
        r == (if round_div(digits_value(mantissa_digits(t@)), pow10(m as nat)) >= MANTISSA_LIMIT {
            None::<u64>
        } else {
            Some(round_div(digits_value(mantissa_digits(t@)), pow10(m as nat)) as u64)
        }),
        r matches Some(x) ==> x < MANTISSA_LIMIT,
{
    let ghost d = mantissa_digits(t@);
    let ghost big_v = digits_value(d);
    let ghost shift = -(m as int);
    let k: usize = nd - (m as usize);
    let (av, abig) = mantissa_prefix_value(t, a, we, k);
    let dk = mantissa_digit(t, a, we, k);
    proof {
        let head = d.take(k as int);
        let rest = d.skip(k as int);
        let after = d.skip(k as int + 1);
        assert(d =~= head + rest);
        assert(rest =~= seq![dk] + after);
        assert(seq![dk].drop_last() =~= Seq::<char>::empty());
        lemma_digits_concat(head, rest);
        lemma_digits_concat(seq![dk], after);
        lemma_digits_value_bounds(after);
        lemma_digits_value_bounds(head);
        assert(pow10(m as nat) == 10 * pow10((m - 1) as nat));
        lemma_pow10_positive((m - 1) as nat);
        let p1 = pow10((m - 1) as nat);
        assert(rest.len() == m);
        assert(after.len() == m - 1);
        assert(seq![dk].last() == dk);
        assert(digits_value(Seq::<char>::empty()) == 0);
        assert(digits_value(seq![dk]) == digit_of(dk));
        assert(big_v == digits_value(head) * (10 * p1) + digit_of(dk) * p1
            + digits_value(after));
        lemma_round_first_dropped(
            digits_value(head),
            digit_of(dk),
            digits_value(after),
            p1,
        );
        assert(round_div(big_v, pow10(m as nat)) == digits_value(head) + (if digit_of(dk) >= 5 {
            1int
        } else {
            0
        }));
    }
    if abig {
        return None;
    }
    let up: u64 = if (dk as u32) >= 0x35 {
        1
    } else {
        0
    };
    if av + up >= MANTISSA_LIMIT {
        return None;
    }
    Some(av + up)
}


/// Ten to a sum of powers is the product of the two.
pub proof fn lemma_pow10_add(a: nat, b: nat)
    ensures
        pow10(a + b) == pow10(a) * pow10(b),
    decreases a,
{
    if a > 0 {
        lemma_pow10_add((a - 1) as nat, b);
        assert(pow10(a + b) == 10 * pow10((a - 1 + b) as nat));
        assert(10 * (pow10((a - 1) as nat) * pow10(b)) == (10 * pow10((a - 1) as nat)) * pow10(b))
            by (nonlinear_arith);
    }
}

proof fn lemma_zeros_value(d: Seq<char>)
    requires
        forall|j: int| 0 <= j < d.len() ==> d[j] == '0',
    ensures
        digits_value(d) == 0,
    decreases d.len(),
{
    if d.len() > 0 {
        lemma_zeros_value(d.drop_last());
    }
}

/// Leading zeros add nothing: the digits after them bound the value.
proof fn lemma_value_below_significant(d: Seq<char>, lz: int)
    requires
        0 <= lz <= d.len(),
        forall|j: int| 0 <= j < lz ==> d[j] == '0',
        forall|j: int| 0 <= j < d.len() ==> is_digit(#[trigger] d[j]),
    ensures
        0 <= digits_value(d) < pow10((d.len() - lz) as nat),
{
    assert(d =~= d.take(lz) + d.skip(lz));
    lemma_digits_concat(d.take(lz), d.skip(lz));
    lemma_zeros_value(d.take(lz));
    lemma_digits_value_bounds(d.skip(lz));
}

/// A quotient rounded to the nearest is at most `c` when the dividend lies
/// below `c` times the divisor.
proof fn lemma_round_div_at_most(v: int, p: int, c: int)
    requires
        0 <= v < c * p,
        p >= 1,
    ensures
        0 <= round_div(v, p) <= c,
{
    let x = 2 * v + p;
    let q = x / (2 * p);
    vstd::arithmetic::div_mod::lemma_fundamental_div_mod(x, 2 * p);
    vstd::arithmetic::div_mod::lemma_mod_pos_bound(x, 2 * p);
    assert(0 <= q <= c) by (nonlinear_arith)
        requires
            x == (2 * p) * q + x % (2 * p),
            0 <= x % (2 * p) < 2 * p,
            x == 2 * v + p,
            0 <= v < c * p,
            p >= 1,
    ;
}

/// The measure that the decimal number in `t` writes.
#[verifier::rlimit(100)]
fn decimal_value(
    t: &str,
    a: usize,
    we: usize,
    nd: usize,
    fl: usize,
    has_exp: bool,
    es: usize,
    ee: usize,
    eneg: bool,
    negative: bool,
    Ghost(ev): Ghost<int>,
) -> (r: Measure)
    requires
        a == sign_len(t@),
        we == whole_end(t@),
        a <= we <= t@.len(),
        fraction_end(t@) <= t@.len(),
        has_point(t@) ==> we + 1 <= fraction_end(t@),
        nd == mantissa_digits(t@).len(),
        1 <= nd,
        fl <= nd <= t@.len(),
        forall|j: int| 0 <= j < nd ==> is_digit(#[trigger] mantissa_digits(t@)[j]),
        has_exp ==> es <= ee <= t@.len(),
        has_exp ==> forall|j: int| es <= j < ee ==> is_digit(#[trigger] t@[j]),
        has_exp && eneg ==> ev == -digits_value(t@.subrange(es as int, ee as int)),
        has_exp && !eneg ==> ev == digits_value(t@.subrange(es as int, ee as int)),
        !has_exp ==> ev == 0 && !eneg,
    ensures
        r == measure_of(
            round_div(digits_value(mantissa_digits(t@)), pow10(cut_digits(t@) as nat)),
            ev - fl + cut_digits(t@),
            negative,
        ),
        r.wf(),
{
    let ghost d = mantissa_digits(t@);
    // Positions in the text fit in a usize.
    let _n = t.unicode_len();
    let mut lz: usize = 0;
    assert(d.skip(0) =~= d);
    while lz < nd && mantissa_digit(t, a, we, lz) == '0'
        invariant
            a == sign_len(t@),
            we == whole_end(t@),
            a <= we <= t@.len(),
            fraction_end(t@) <= t@.len(),
            has_point(t@) ==> we + 1 <= fraction_end(t@),
            d == mantissa_digits(t@),
            nd == d.len(),
            lz <= nd,
            leading_zeros(d) == lz + leading_zeros(d.skip(lz as int)),
            forall|j: int| 0 <= j < lz ==> d[j] == '0',
        decreases nd - lz,
    {
        proof {
            assert(d.skip(lz as int).drop_first() =~= d.skip(lz as int + 1));
        }
        lz = lz + 1;
    }
    proof {
        if lz < nd {
            assert(d.skip(lz as int)[0] == d[lz as int]);
        }
        assert(leading_zeros(d.skip(lz as int)) == 0);
        assert(forall|j: int| 0 <= j < d.len() ==> is_digit(#[trigger] d[j]));
        lemma_value_below_significant(d, lz as int);
    }
    let sig = nd - lz;
    let cut: usize = if sig > 17 {
        sig - 17
    } else {
        0
    };
    let ghost big_v = digits_value(d);
    proof {
        lemma_pow10_add(17, cut as nat);
        reveal_with_fuel(pow10, 18);
        lemma_pow10_positive(cut as nat);
        if cut == 0 {
            lemma_pow10_monotone(sig as nat, 17);
        } else {
            assert(sig as nat == 17 + cut as nat);
        }
        lemma_round_div_at_most(big_v, pow10(cut as nat), MAX_MANTISSA as int);
    }
    let m: u64 = if cut == 0 {
        let (v, _vbig) = mantissa_prefix_value(t, a, we, nd);
        proof {
            assert(d.take(nd as int) =~= d);
            lemma_fundamental_div_mod_converse(2 * big_v + 1, 2, big_v, 1);
        }
        v
    } else {
        match rounded_prefix(t, a, we, nd, cut) {
            Some(x) => x,
            None => 0,
        }
    };
    assert(m == round_div(big_v, pow10(cut as nat)));
    let zero = Measure::Finite { negative, mantissa: 0, exponent: 0 };
    let infinite = if negative {
        Measure::NegativeInfinity
    } else {
        Measure::PositiveInfinity
    };
    if m == 0 {
        return zero;
    }
    let (eacc, ebig) = if has_exp {
        run_value(t, es, ee, EXPONENT_CAP)
    } else {
        (0, false)
    };
    let ghost e = ev - fl + cut;
    if ebig {
        if eneg {
            return zero;
        }
        proof {
            reveal_with_fuel(pow10, 40);
            lemma_pow10_monotone(39, e as nat);
            let pp = pow10(e as nat);
            assert(m * pp >= pp) by (nonlinear_arith)
                requires
                    m >= 1,
                    pp >= 1,
            ;
        }
        return infinite;
    }
    let exponent: i128 = (if eneg {
        -(eacc as i128)
    } else {
        eacc as i128
    }) - fl as i128 + cut as i128;
    assert(exponent == e);
    if exponent < -62 {
        return zero;
    }
    if exponent >= 39 {
        proof {
            reveal_with_fuel(pow10, 40);
            lemma_pow10_monotone(39, e as nat);
            let pp = pow10(e as nat);
            assert(m * pp >= pp) by (nonlinear_arith)
                requires
                    m >= 1,
                    pp >= 1,
            ;
        }
        return infinite;
    }
    if exponent >= 0 {
        let p = power_of_ten(exponent as u32);
        match (m as u128).checked_mul(p) {
            Some(x) => {
                if x >= OVERFLOW_BOUND {
                    return infinite;
                }
            },
            None => {
                return infinite;
            },
        }
    }
    Measure::Finite { negative, mantissa: m, exponent: exponent as i32 }
}

} // verus!
