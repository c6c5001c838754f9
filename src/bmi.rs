use vstd::prelude::*;
use vstd::string::*;

use crate::category::{at_least_scaled, category_of, classify, scaled_at_least, verdict_text};
use crate::measure::{pow10, power_of_ten, round_div, Measure};
use vstd::arithmetic::div_mod::{lemma_fundamental_div_mod, lemma_fundamental_div_mod_converse, lemma_mod_pos_bound};

verus! {

/// A body mass index as it is shown: rounded to hundredths, or one of the
/// values that a zero height gives.
#[derive(Clone, Copy, Debug, PartialEq, Eq, Structural)]
pub enum Bmi {
    /// The index in hundredths, rounded half away from zero; `negative`
    /// keeps the sign of an index that rounds to zero.
    Finite { negative: bool, hundredths: u128 },
    PositiveInfinity,
    NegativeInfinity,
    NotANumber,
}

/// `w` times ten to the `s`, over `q`, rounded half up.
pub open spec fn rounded_quotient(w: int, s: int, q: int) -> int {
    if s >= 0 {
        round_div(w * pow10(s as nat), q)
    } else {
        round_div(w, q * pow10((-s) as nat))
    }
}

/// What weight over height squared gives, as floating point would; an index
/// of 10 to the 35 or more is shown as infinite.
pub open spec fn bmi_of(w: Measure, h: Measure) -> Bmi {
    match w {
        Measure::Finite { negative, mantissa: wm, exponent: we } => match h {
            Measure::Finite { mantissa: hm, exponent: he, .. } => if hm == 0 {
                if wm == 0 {
                    Bmi::NotANumber
                } else if negative {
                    Bmi::NegativeInfinity
                } else {
                    Bmi::PositiveInfinity
                }
            } else if scaled_at_least(wm as int, we + 2, hm * hm, 2 * he + 37) {
                if negative {
                    Bmi::NegativeInfinity
                } else {
                    Bmi::PositiveInfinity
                }
            } else {
                Bmi::Finite {
                    negative,
                    hundredths: rounded_quotient(wm as int, we + 2 - 2 * he, hm * hm) as u128,
                }
            },
            Measure::NotANumber => Bmi::NotANumber,
            _ => Bmi::Finite { negative, hundredths: 0 },
        },
        Measure::PositiveInfinity => if h is Finite {
            Bmi::PositiveInfinity
        } else {
            Bmi::NotANumber
        },
        Measure::NegativeInfinity => if h is Finite {
            Bmi::NegativeInfinity
        } else {
            Bmi::NotANumber
        },
        Measure::NotANumber => Bmi::NotANumber,
    }
}

/// `w` times ten to the `s` over `q`, rounded half up, where that lies below
/// the shown limit.
#[verifier::rlimit(50)]
fn quotient_hundredths(w: u128, s: i32, q: u128) -> (r: u128)
    requires
        1 <= q <= 10000000000000000000000000000000000,
        w <= 100000000000000000,
        -300 <= s <= 300,
        !scaled_at_least(w as int, s as int, q as int, 37),
    ensures
        r == rounded_quotient(w as int, s as int, q as int),
{
    if s >= 0 {
        let mut quo = w / q;
        let mut rem = w % q;
        let mut i: i32 = 0;
        proof {
            lemma_fundamental_div_mod(w as int, q as int);
            lemma_mod_pos_bound(w as int, q as int);
        }
        proof {
            reveal_with_fuel(pow10, 38);
            let ps = pow10(s as nat);
            crate::measure::lemma_pow10_positive(s as nat);
            if s as int >= 37 {
                crate::measure::lemma_pow10_add(37, (s - 37) as nat);
                assert((37 + (s - 37) as nat) as nat == s as nat);
                let pr = pow10((s - 37) as nat);
                assert(w * pr < q);
                assert(w * ps < q * pow10(37)) by (nonlinear_arith)
                    requires
                        w * pr < q,
                        ps == pow10(37) * pr,
                        pow10(37) > 0,
                ;
            } else {
                let pr = pow10((37 - s) as nat);
                assert(w < q * pr);
                crate::measure::lemma_pow10_add(s as nat, (37 - s) as nat);
                assert((s as nat + (37 - s) as nat) as nat == 37);
                assert(w * ps < q * pow10(37)) by (nonlinear_arith)
                    requires
                        w < q * pr,
                        pow10(37) == ps * pr,
                        ps > 0,
                ;
            }
        }
        while i < s
            invariant
                0 <= i <= s <= 300,
                1 <= q <= 10000000000000000000000000000000000,
                w <= 100000000000000000,
                !scaled_at_least(w as int, s as int, q as int, 37),
                quo * q + rem == w * pow10(i as nat),
                0 <= rem < q,
                w * pow10(s as nat) < q * 10000000000000000000000000000000000000,
            decreases s - i,
        {
            let r10 = rem * 10;
            let digit = r10 / q;
            let next_rem = r10 % q;
            proof {
                lemma_fundamental_div_mod(r10 as int, q as int);
                lemma_mod_pos_bound(r10 as int, q as int);
                crate::measure::lemma_pow10_monotone((i + 1) as nat, s as nat);
                if s >= 37 {
                    crate::measure::lemma_pow10_monotone((s - 37) as nat, s as nat);
                }
                let pi = pow10(i as nat);
                let pn = pow10((i + 1) as nat);
                let ps = pow10(s as nat);
                assert(pn == 10 * pi);
                assert(w * pn <= w * ps) by (nonlinear_arith)
                    requires
                        pn <= ps,
                        w >= 0,
                ;
                assert(digit < 10) by (nonlinear_arith)
                    requires
                        r10 == rem * 10,
                        rem < q,
                        r10 == q * digit + next_rem,
                        0 <= next_rem,
                ;
                assert((quo * 10 + digit) * q + next_rem == w * pn) by (nonlinear_arith)
                    requires
                        quo * q + rem == w * pi,
                        r10 == rem * 10,
                        r10 == q * digit + next_rem,
                        pn == 10 * pi,
                ;
                assert(quo * 10 + digit < 10000000000000000000000000000000000000)
                    by (nonlinear_arith)
                    requires
                        (quo * 10 + digit) * q + next_rem == w * pn,
                        0 <= next_rem,
                        q >= 1,
                        w * pn <= w * ps,
                        w * ps < q * 10000000000000000000000000000000000000,
                ;
            }
            quo = quo * 10 + digit;
            rem = next_rem;
            i = i + 1;
        }
        let up: u128 = if 2 * rem >= q {
            1
        } else {
            0
        };
        proof {
            assert(quo < 10000000000000000000000000000000000000) by (nonlinear_arith)
                requires
                    quo * q + rem == w * pow10(s as nat),
                    rem >= 0,
                    q >= 1,
                    w * pow10(s as nat) < q * 10000000000000000000000000000000000000,
            ;
            let x = 2 * (quo * q + rem) + q;
            assert(x == (quo + 1) * (2 * q) + (2 * rem - q)) by (nonlinear_arith)
                requires
                    x == 2 * (quo * q + rem) + q,
            ;
            assert(x == quo * (2 * q) + (2 * rem + q)) by (nonlinear_arith)
                requires
                    x == 2 * (quo * q + rem) + q,
            ;
            if up == 1 {
                lemma_fundamental_div_mod_converse(x, 2 * q, quo + 1, 2 * rem - q);
            } else {
                lemma_fundamental_div_mod_converse(x, 2 * q, quo as int, 2 * rem + q);
            }
        }
        quo + up
    } else {
        let d = (-s) as u32;
        if q > 2 * w || d >= 19 {
            proof {
                let den = q * pow10(d as nat);
                crate::measure::lemma_pow10_positive(d as nat);
                if d >= 19 {
                    reveal_with_fuel(pow10, 20);
                    crate::measure::lemma_pow10_monotone(19, d as nat);
                }
                assert(den > 2 * w) by (nonlinear_arith)
                    requires
                        den == q * pow10(d as nat),
                        q >= 1,
                        pow10(d as nat) >= 1,
                        q > 2 * w || pow10(d as nat) >= 10000000000000000000,
                        w <= 100000000000000000,
                ;
                lemma_fundamental_div_mod_converse(2 * w + den, 2 * den, 0, 2 * w + den);
            }
            return 0;
        }
        let p = power_of_ten(d);
        proof {
            reveal_with_fuel(pow10, 20);
            crate::measure::lemma_pow10_monotone(d as nat, 18);
            assert(q * p >= 1) by (nonlinear_arith)
                requires
                    q >= 1,
                    p >= 1,
            ;
            assert(d as nat == (-s) as nat);
            assert(q * p <= 200000000000000000 * 1000000000000000000) by (nonlinear_arith)
                requires
                    q <= 200000000000000000,
                    p <= 1000000000000000000,
            ;
        }
        let den = q * p;
        (2 * w + den) / (2 * den)
    }
}

/// Weight over height squared, as it is shown.
pub fn body_mass_index(weight: Measure, height: Measure) -> (r: Bmi)
    requires
        weight.wf(),
        height.wf(),
    ensures
        r == bmi_of(weight, height),
{
    match weight {
        Measure::Finite { negative, mantissa: wm, exponent: we } => match height {
            Measure::Finite { mantissa: hm, exponent: he, .. } => {
                if hm == 0 {
                    if wm == 0 {
                        Bmi::NotANumber
                    } else if negative {
                        Bmi::NegativeInfinity
                    } else {
                        Bmi::PositiveInfinity
                    }
                } else {
                    let h = hm as u128;
                    proof {
                        assert(1 <= h * h <= 10000000000000000000000000000000000) by (nonlinear_arith)
                            requires
                                1 <= h <= 100000000000000000,
                        ;
                    }
                    let square = h * h;
                    if at_least_scaled(wm as u128, we + 2, square, 2 * he + 37) {
                        if negative {
                            Bmi::NegativeInfinity
                        } else {
                            Bmi::PositiveInfinity
                        }
                    } else {
                        proof {
                            assert(scaled_at_least(wm as int, (we + 2 - 2 * he) as int, square as int, 37)
                                == scaled_at_least(wm as int, we + 2, square as int, 2 * he + 37));
                        }
                        let hundredths = quotient_hundredths(wm as u128, we + 2 - 2 * he, square);
                        Bmi::Finite { negative, hundredths }
                    }
                }
            },
            Measure::NotANumber => Bmi::NotANumber,
            _ => Bmi::Finite { negative, hundredths: 0 },
        },
        Measure::PositiveInfinity => match height {
            Measure::Finite { .. } => Bmi::PositiveInfinity,
            _ => Bmi::NotANumber,
        },
        Measure::NegativeInfinity => match height {
            Measure::Finite { .. } => Bmi::NegativeInfinity,
            _ => Bmi::NotANumber,
        },
        Measure::NotANumber => Bmi::NotANumber,
    }
}

pub open spec fn digit_char(d: int) -> char {
    if d == 0 {
        '0'
    } else if d == 1 {
        '1'
    } else if d == 2 {
        '2'
    } else if d == 3 {
        '3'
    } else if d == 4 {
        '4'
    } else if d == 5 {
        '5'
    } else if d == 6 {
        '6'
    } else if d == 7 {
        '7'
    } else if d == 8 {
        '8'
    } else {
        '9'
    }
}

/// A natural number written in decimal, without leading zeros.
pub open spec fn decimal_text(n: nat) -> Seq<char>
    decreases n,
{
    if n < 10 {
        seq![digit_char(n as int)]
    } else {
        decimal_text(n / 10) + seq![digit_char((n % 10) as int)]
    }
}

/// How an index is shown: hundredths with two digits after the point, or
/// `inf`, `-inf` and `NaN`.
pub open spec fn bmi_text(b: Bmi) -> Seq<char> {
    match b {
        Bmi::Finite { negative, hundredths } => (if negative {
            "-"@
        } else {
            Seq::empty()
        }) + decimal_text((hundredths / 100) as nat) + "."@ + seq![
            digit_char((hundredths % 100 / 10) as int),
            digit_char((hundredths % 10) as int),
        ],
        Bmi::PositiveInfinity => "inf"@,
        Bmi::NegativeInfinity => "-inf"@,
        Bmi::NotANumber => "NaN"@,
    }
}

fn digit_str(d: u128) -> (r: &'static str)
    requires
        d < 10,
    ensures
        r@ == seq![digit_char(d as int)],
{
    proof {
        reveal_strlit("0");
        reveal_strlit("1");
        reveal_strlit("2");
        reveal_strlit("3");
        reveal_strlit("4");
        reveal_strlit("5");
        reveal_strlit("6");
        reveal_strlit("7");
        reveal_strlit("8");
        reveal_strlit("9");
    }
    if d == 0 {
        "0"
    } else if d == 1 {
        "1"
    } else if d == 2 {
        "2"
    } else if d == 3 {
        "3"
    } else if d == 4 {
        "4"
    } else if d == 5 {
        "5"
    } else if d == 6 {
        "6"
    } else if d == 7 {
        "7"
    } else if d == 8 {
        "8"
    } else {
        "9"
    }
}

fn append_decimal(out: &mut String, n: u128)
    ensures
        final(out)@ == old(out)@ + decimal_text(n as nat),
    decreases n,
{
    if n >= 10 {
        append_decimal(out, n / 10);
    }
    out.append(digit_str(n % 10));
    assert(final(out)@ =~= old(out)@ + decimal_text(n as nat));
}

impl Bmi {
    /// The index as it is shown.
    pub fn text(&self) -> (r: String)
        ensures
            r@ == bmi_text(*self),
    {
        match self {
            Bmi::Finite { negative, hundredths } => {
                let mut out = String::new();
                if *negative {
                    out.append("-");
                }
                append_decimal(&mut out, *hundredths / 100);
                out.append(".");
                out.append(digit_str(*hundredths % 100 / 10));
                out.append(digit_str(*hundredths % 10));
                assert(out@ =~= bmi_text(*self));
                out
            },
            Bmi::PositiveInfinity => String::from_str("inf"),
            Bmi::NegativeInfinity => String::from_str("-inf"),
            Bmi::NotANumber => String::from_str("NaN"),
        }
    }
}

/// The line that reports the index of a weight and a height and the band it
/// falls in.
pub fn report(weight: Measure, height: Measure) -> (r: String)
    requires
        weight.wf(),
        height.wf(),
    ensures
        r@ == "BMI: "@ + bmi_text(bmi_of(weight, height)) + ", "@
            + verdict_text(category_of(weight, height)),
{
    let mut out = String::from_str("BMI: ");
    let shown = body_mass_index(weight, height).text();
    out.append(shown.as_str());
    out.append(", ");
    out.append(classify(weight, height).verdict());
    out
}

} // verus!
