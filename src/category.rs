use vstd::prelude::*;

use crate::measure::{finite_wf, pow10, power_of_ten, Measure};

verus! {

/// The four health bands of a body mass index, from lowest to highest.
#[derive(Clone, Copy, Debug, PartialEq, Eq, Structural)]
pub enum Category {
    Underweight,
    Normal,
    Overweight,
    Obese,
}

/// Position of a band in the order underweight < normal < overweight < obese.
pub open spec fn rank(c: Category) -> int {
    match c {
        Category::Underweight => 0,
        Category::Normal => 1,
        Category::Overweight => 2,
        Category::Obese => 3,
    }
}

impl Category {
    /// Position of this band, counting from underweight as zero.
    pub fn rank(&self) -> (r: u8)
        ensures
            r as int == rank(*self),
    {
        match self {
            Category::Underweight => 0,
            Category::Normal => 1,
            Category::Overweight => 2,
            Category::Obese => 3,
        }
    }
}

impl Category {
    /// The closing words of the report for this band.
    pub fn verdict(&self) -> (r: &'static str)
        ensures
            r@ == verdict_text(*self),
    {
        match self {
            Category::Underweight => "you are underweight",
            Category::Normal => "you are normal",
            Category::Overweight => "you are overweight...",
            Category::Obese => "according to these numbers, you are obese...",
        }
    }
}

pub open spec fn verdict_text(c: Category) -> Seq<char> {
    match c {
        Category::Underweight => "you are underweight"@,
        Category::Normal => "you are normal"@,
        Category::Overweight => "you are overweight..."@,
        Category::Obese => "according to these numbers, you are obese..."@,
    }
}

/// `a` times ten to the `x` is at least `b` times ten to the `y`.
pub open spec fn scaled_at_least(a: int, x: int, b: int, y: int) -> bool {
    if x >= y {
        a * pow10((x - y) as nat) >= b
    } else {
        a >= b * pow10((y - x) as nat)
    }
}

/// Compares `a` times ten to the `x` with `b` times ten to the `y`.
pub fn at_least_scaled(a: u128, x: i32, b: u128, y: i32) -> (r: bool)
    requires
        a < 1000000000000000000000000000000000000,
        b < 1000000000000000000000000000000000000,
        -300 <= x <= 300,
        -300 <= y <= 300,
    ensures
        r == scaled_at_least(a as int, x as int, b as int, y as int),
{
    if x >= y {
        let d = (x - y) as u32;
        assert(d as int == x - y);
        if a == 0 {
            return b == 0;
        }
        if d >= 38 {
            proof {
                crate::measure::lemma_pow10_at_least_38(d as nat);
                let pp = pow10(d as nat);
                assert(a * pp >= pp) by (nonlinear_arith)
                    requires
                        a >= 1,
                        pp >= 1,
                ;
            }
            return true;
        }
        let p = power_of_ten(d);
        match a.checked_mul(p) {
            Some(v) => v >= b,
            None => true,
        }
    } else {
        let d = (y - x) as u32;
        assert(d as int == y - x);
        if b == 0 {
            return true;
        }
        if d >= 38 {
            proof {
                crate::measure::lemma_pow10_at_least_38(d as nat);
                let pp = pow10(d as nat);
                assert(b * pp >= pp) by (nonlinear_arith)
                    requires
                        b >= 1,
                        pp >= 1,
                ;
            }
            return false;
        }
        let p = power_of_ten(d);
        match b.checked_mul(p) {
            Some(v) => a >= v,
            None => false,
        }
    }
}

/// Whether weight over height squared is at least `num / den`, for a positive
/// bound, as floating point has it: over a zero height a positive weight
/// gives infinity, which reaches every bound, and a negative or zero weight
/// minus infinity or no number, which reach none; an infinite height gives
/// zero or no number; infinity over a finite height reaches every bound.
pub open spec fn bmi_at_least(w: Measure, h: Measure, num: int, den: int) -> bool {
    match w {
        Measure::Finite { negative, mantissa: wm, exponent: we } => match h {
            Measure::Finite { mantissa: hm, exponent: he, .. } => if hm == 0 {
                wm > 0 && !negative
            } else {
                !negative && scaled_at_least(wm * den, we as int, num * (hm * hm), 2 * he)
            },
            _ => false,
        },
        Measure::PositiveInfinity => h is Finite,
        _ => false,
    }
}

/// The band of a weight and a height: the first of obese (from 30),
/// overweight (from 25), normal (from 18.5) that the index reaches, and
/// underweight otherwise.
pub open spec fn category_of(w: Measure, h: Measure) -> Category {
    if bmi_at_least(w, h, 30, 1) {
        Category::Obese
    } else if bmi_at_least(w, h, 25, 1) {
        Category::Overweight
    } else if bmi_at_least(w, h, 37, 2) {
        Category::Normal
    } else {
        Category::Underweight
    }
}

/// The band of a weight and a height.
pub fn classify(weight: Measure, height: Measure) -> (r: Category)
    requires
        weight.wf(),
        height.wf(),
    ensures
        r == category_of(weight, height),
{
    match weight {
        Measure::Finite { negative, mantissa: wm, exponent: we } => match height {
            Measure::Finite { mantissa: hm, exponent: he, .. } => {
                if hm == 0 {
                    if wm > 0 && !negative {
                        Category::Obese
                    } else {
                        Category::Underweight
                    }
                } else if negative {
                    Category::Underweight
                } else {
                    let h = hm as u128;
                    proof {
                        assert(h * h <= 10000000000000000000000000000000000) by (nonlinear_arith)
                            requires
                                0 <= h <= 100000000000000000,
                        ;
                    }
                    let square = h * h;
                    let a = wm as u128;
                    let y = 2 * he;
                    if at_least_scaled(a, we, 30 * square, y) {
                        Category::Obese
                    } else if at_least_scaled(a, we, 25 * square, y) {
                        Category::Overweight
                    } else if at_least_scaled(2 * a, we, 37 * square, y) {
                        Category::Normal
                    } else {
                        Category::Underweight
                    }
                }
            },
            _ => Category::Underweight,
        },
        Measure::PositiveInfinity => match height {
            Measure::Finite { .. } => Category::Obese,
            _ => Category::Underweight,
        },
        _ => Category::Underweight,
    }
}

/// Classification keeps no state: equal weights and heights always fall in
/// the same band.
pub proof fn lemma_category_is_a_function(w1: Measure, h1: Measure, w2: Measure, h2: Measure)
    requires
        w1 == w2,
        h1 == h2,
    ensures
        category_of(w1, h1) == category_of(w2, h2),
{
}

/// Over a zero height of either sign the index is infinite for a positive
/// weight, which is obese; any other weight falls to underweight.
pub proof fn lemma_zero_height(w: Measure, negative: bool, exponent: i32)
    ensures
        category_of(w, Measure::Finite { negative, mantissa: 0, exponent }) == (if w
            == Measure::PositiveInfinity || (w is Finite && w->mantissa > 0 && !w->negative) {
            Category::Obese
        } else {
            Category::Underweight
        }),
{
}

proof fn lemma_scaled_monotone(a1: int, a2: int, x: int, b1: int, b2: int, y: int)
    requires
        0 <= a2 <= a1,
        0 <= b1 <= b2,
        scaled_at_least(a2, x, b2, y),
    ensures
        scaled_at_least(a1, x, b1, y),
{
    if x >= y {
        let p = pow10((x - y) as nat);
        crate::measure::lemma_pow10_positive((x - y) as nat);
        assert(a1 * p >= a2 * p) by (nonlinear_arith)
            requires
                a1 >= a2,
                p >= 1,
        ;
    } else {
        let p = pow10((y - x) as nat);
        crate::measure::lemma_pow10_positive((y - x) as nat);
        assert(b1 * p <= b2 * p) by (nonlinear_arith)
            requires
                b1 <= b2,
                p >= 1,
        ;
    }
}

proof fn lemma_scaled_double(a: int, x: int, b: int, y: int)
    ensures
        scaled_at_least(a, x, b, y) == scaled_at_least(2 * a, x, 2 * b, y),
{
    if x >= y {
        let p = pow10((x - y) as nat);
        assert((2 * a) * p == 2 * (a * p)) by (nonlinear_arith);
    } else {
        let p = pow10((y - x) as nat);
        assert((2 * b) * p == 2 * (b * p)) by (nonlinear_arith);
    }
}

/// Where `a` times ten to the `x` equals `b` times ten to the `y`, it stays
/// below any larger `c` times ten to the `y`.
proof fn lemma_exact_below(a: int, x: int, b: int, c: int, y: int)
    requires
        0 <= b < c,
        scaled_at_least(a, x, b, y),
        scaled_at_least(b, y, a, x),
    ensures
        !scaled_at_least(a, x, c, y),
{
    if x < y {
        let p = pow10((y - x) as nat);
        crate::measure::lemma_pow10_positive((y - x) as nat);
        assert(b * p < c * p) by (nonlinear_arith)
            requires
                b < c,
                p >= 1,
        ;
    } else if x == y {
        assert(pow10(0) == 1);
    }
}

/// For a positive weight and height, the bands cover every index without gap
/// or overlap, and an index exactly at a bound belongs to the band above it.
pub proof fn lemma_bands_partition(wm: u64, we: i32, hm: u64, he: i32)
    requires
        wm > 0,
        hm > 0,
    ensures
        ({
            let w = Measure::Finite { negative: false, mantissa: wm, exponent: we };
            let h = Measure::Finite { negative: false, mantissa: hm, exponent: he };
            let h2 = hm * hm;
            &&& (category_of(w, h) == Category::Obese) == bmi_at_least(w, h, 30, 1)
            &&& (category_of(w, h) == Category::Overweight) == (bmi_at_least(w, h, 25, 1)
                && !bmi_at_least(w, h, 30, 1))
            &&& (category_of(w, h) == Category::Normal) == (bmi_at_least(w, h, 37, 2)
                && !bmi_at_least(w, h, 25, 1))
            &&& (category_of(w, h) == Category::Underweight) == !bmi_at_least(w, h, 37, 2)
            &&& scaled_at_least(wm as int, we as int, 30 * h2, 2 * he) && scaled_at_least(
                30 * h2,
                2 * he,
                wm as int,
                we as int,
            ) ==> category_of(w, h) == Category::Obese
            &&& scaled_at_least(wm as int, we as int, 25 * h2, 2 * he) && scaled_at_least(
                25 * h2,
                2 * he,
                wm as int,
                we as int,
            ) ==> category_of(w, h) == Category::Overweight
            &&& scaled_at_least(2 * wm, we as int, 37 * h2, 2 * he) && scaled_at_least(
                37 * h2,
                2 * he,
                2 * wm,
                we as int,
            ) ==> category_of(w, h) == Category::Normal
        }),
{
    let a = wm as int;
    let x = we as int;
    let y = 2 * he;
    let h2 = hm * hm;
    assert(h2 >= 1) by (nonlinear_arith)
        requires
            hm >= 1,
            h2 == hm * hm,
    ;
    assert(a * 1 == a);
    if scaled_at_least(a, x, 30 * h2, y) {
        lemma_scaled_monotone(a, a, x, 25 * h2, 30 * h2, y);
    }
    lemma_scaled_double(a, x, 25 * h2, y);
    if scaled_at_least(2 * a, x, 50 * h2, y) {
        lemma_scaled_monotone(2 * a, 2 * a, x, 37 * h2, 50 * h2, y);
    }
    if scaled_at_least(a, x, 25 * h2, y) && scaled_at_least(25 * h2, y, a, x) {
        lemma_exact_below(a, x, 25 * h2, 30 * h2, y);
    }
    if scaled_at_least(2 * a, x, 37 * h2, y) && scaled_at_least(37 * h2, y, 2 * a, x) {
        lemma_exact_below(2 * a, x, 37 * h2, 50 * h2, y);
    }
}

} // verus!
