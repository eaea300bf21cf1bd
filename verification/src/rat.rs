//! Exact rational time in quarter notes.
//!
//! Onsets, durations and measure lengths are kept as reduced fractions so
//! grid inference and quantization never lose precision.

use vstd::prelude::*;
use vstd::arithmetic::div_mod::*;
use vstd::arithmetic::mul::*;

verus! {

/// Greatest common divisor of two naturals, by Euclid's algorithm.
pub open spec fn gcd(a: nat, b: nat) -> nat
    decreases b,
{
    if b == 0 {
        a
    } else {
        gcd(b, a % b)
    }
}

/// The gcd divides both of its arguments.
pub proof fn lemma_gcd_divides(a: nat, b: nat)
    ensures
        a % gcd(a, b) == 0 || gcd(a, b) == 0,
        b % gcd(a, b) == 0 || gcd(a, b) == 0,
        gcd(a, b) == 0 <==> (a == 0 && b == 0),
    decreases b,
{
    if b != 0 {
        lemma_gcd_divides(b, a % b);
        let g = gcd(b, a % b);
        if g != 0 {
            lemma_fundamental_div_mod(a as int, b as int);
            let q = a as int / b as int;
            // a = b*q + a%b, both b and a%b are multiples of g
            lemma_fundamental_div_mod(b as int, g as int);
            lemma_fundamental_div_mod((a % b) as int, g as int);
            let kb = b as int / g as int;
            let kr = (a % b) as int / g as int;
            assert(a as int == g * (kb * q + kr)) by (nonlinear_arith)
                requires
                    a as int == b as int * q + (a % b) as int,
                    b as int == g * kb,
                    (a % b) as int == g * kr;
            lemma_mod_multiples_basic(kb * q + kr, g as int);
            lemma_mul_is_commutative(g as int, kb * q + kr);
        }
    } else if a != 0 {
        lemma_mod_multiples_basic(1, a as int);
    }
}

/// `gcd(k*a, k*b) == k * gcd(a, b)` for positive `k`.
pub proof fn lemma_gcd_scale(k: nat, a: nat, b: nat)
    requires
        k > 0,
    ensures
        gcd(k * a, k * b) == k * gcd(a, b),
    decreases b,
{
    if b == 0 {
        assert(k * b == 0) by (nonlinear_arith) requires b == 0;
    } else {
        assert(k * b > 0) by (nonlinear_arith) requires k > 0, b > 0;
        lemma_fundamental_div_mod(a as int, b as int);
        let q = a as int / b as int;
        let r = a as int % b as int;
        assert(0 <= r < b);
        assert((k * a) as int == q * (k * b) as int + (k * r)) by (nonlinear_arith)
            requires a as int == b as int * q + r;
        assert(0 <= k * r < k * b) by (nonlinear_arith) requires 0 <= r < b, k > 0;
        lemma_fundamental_div_mod_converse(
            (k * a) as int, (k * b) as int, q, (k * r) as int);
        lemma_gcd_scale(k, b, (a % b));
        assert((k * (a % b)) as nat == ((k * a) % (k * b)) as nat);
    }
}

/// Dividing both arguments by their gcd leaves coprime numbers.
pub proof fn lemma_gcd_reduced(a: nat, b: nat)
    requires
        b > 0,
    ensures
        gcd(a, b) > 0,
        gcd(a / gcd(a, b), b / gcd(a, b)) == 1,
{
    lemma_gcd_divides(a, b);
    let g = gcd(a, b);
    lemma_fundamental_div_mod(a as int, g as int);
    lemma_fundamental_div_mod(b as int, g as int);
    let x = a / g;
    let y = b / g;
    assert(a == g * x);
    assert(b == g * y);
    lemma_gcd_scale(g, x, y);
    assert(g * gcd(x, y) == g * 1);
    lemma_mul_equality_converse(g as int, gcd(x, y) as int, 1);
}

/// Executable gcd over `u128`, matching [`gcd`].
pub fn gcd_u128(a: u128, b: u128) -> (g: u128)
    ensures
        g == gcd(a as nat, b as nat),
{
    let mut x = a;
    let mut y = b;
    while y != 0
        invariant
            gcd(x as nat, y as nat) == gcd(a as nat, b as nat),
        decreases y,
    {
        let r = x % y;
        x = y;
        y = r;
    }
    x
}

} // verus!

verus! {

/// Absolute value as a natural.
pub open spec fn abs(x: int) -> nat {
    if x < 0 {
        (-x) as nat
    } else {
        x as nat
    }
}

/// The reduced form of `num / den` (with `den > 0`): both parts divided by
/// their gcd, the sign carried by the numerator.
pub open spec fn reduce(num: int, den: int) -> (int, int) {
    let g = gcd(abs(num), den as nat) as int;
    let n = (abs(num) as int) / g;
    (if num < 0 { -n } else { n }, den / g)
}

pub open spec fn fits_i64(x: int) -> bool {
    i64::MIN <= x <= i64::MAX
}

/// An exact time value in quarter notes. Always reduced with a positive
/// denominator (see [`Rat::wf`]).
#[derive(Clone, Copy, Debug, PartialEq, Eq, Structural)]
pub struct Rat {
    pub num: i64,
    pub den: i64,
}

impl Rat {
    /// Well-formed: positive denominator, numerator and denominator coprime.
    pub open spec fn wf(self) -> bool {
        &&& self.den > 0
        &&& gcd(abs(self.num as int), self.den as nat) == 1
    }

    /// `self` and `other` denote the same rational number.
    pub open spec fn same_value(self, other: Rat) -> bool {
        self.num * other.den == other.num * self.den
    }

    /// `self <= other` as rational numbers (denominators positive).
    pub open spec fn le_value(self, other: Rat) -> bool {
        self.num * other.den <= other.num * self.den
    }

    pub open spec fn lt_value(self, other: Rat) -> bool {
        self.num * other.den < other.num * self.den
    }

    /// The rational for the pair `(num, den)` after reduction.
    pub open spec fn from_pair(p: (int, int)) -> Rat {
        Rat { num: p.0 as i64, den: p.1 as i64 }
    }

    /// Whether the reduced pair fits the representation.
    pub open spec fn pair_fits(p: (int, int)) -> bool {
        fits_i64(p.0) && fits_i64(p.1)
    }

    /// The reduced pair as a rational, when it fits.
    pub open spec fn fitted(p: (int, int)) -> Option<Rat> {
        if Rat::pair_fits(p) { Some(Rat::from_pair(p)) } else { None }
    }

    /// Exact sum, when it fits.
    pub open spec fn plus(self, other: Rat) -> Option<Rat> {
        Rat::fitted(self.spec_add(other))
    }

    /// Exact difference, when it fits.
    pub open spec fn minus(self, other: Rat) -> Option<Rat> {
        Rat::fitted(self.spec_sub(other))
    }

    /// Greatest common divisor, when it fits.
    pub open spec fn gcd_with(self, other: Rat) -> Option<Rat> {
        Rat::fitted(self.spec_gcd(other))
    }

    pub open spec fn spec_add(self, other: Rat) -> (int, int) {
        reduce(self.num * other.den + other.num * self.den, self.den * other.den)
    }

    pub open spec fn spec_sub(self, other: Rat) -> (int, int) {
        reduce(self.num * other.den - other.num * self.den, self.den * other.den)
    }

    /// gcd(a/b, c/d) = gcd(ad, cb) / bd.
    pub open spec fn spec_gcd(self, other: Rat) -> (int, int) {
        reduce(
            gcd(abs(self.num * other.den), abs(other.num * self.den)) as int,
            self.den * other.den,
        )
    }

    /// Builds the reduced fraction `num / den`.
    pub fn new(num: i64, den: i64) -> (r: Rat)
        requires
            den > 0,
        ensures
            r.wf(),
            r == Rat::from_pair(reduce(num as int, den as int)),
            r.num * den == num * r.den,
    {
        let r = reduce_wide(num as i128, den as i128);
        proof {
            lemma_reduce_props(num as int, den as int);
        }
        r.unwrap()
    }

    pub fn is_negative(self) -> (b: bool)
        ensures
            b == (self.num < 0),
    {
        self.num < 0
    }

    /// Exact sum; `None` when the reduced sum does not fit in `i64`.
    pub fn add(self, other: Rat) -> (r: Option<Rat>)
        requires
            self.wf(),
            other.wf(),
        ensures
            r is Some <==> Rat::pair_fits(self.spec_add(other)),
            r matches Some(s) ==> s == Rat::from_pair(self.spec_add(other)) && s.wf(),
            r == self.plus(other),
    {
        let n = cross(self.num, other.den) + cross(other.num, self.den);
        let d = cross(self.den, other.den);
        proof {
            lemma_reduce_props(n as int, d as int);
        }
        reduce_wide(n, d)
    }

    /// Exact difference; `None` when the reduced difference does not fit.
    pub fn sub(self, other: Rat) -> (r: Option<Rat>)
        requires
            self.wf(),
            other.wf(),
        ensures
            r is Some <==> Rat::pair_fits(self.spec_sub(other)),
            r matches Some(s) ==> s == Rat::from_pair(self.spec_sub(other)) && s.wf(),
            r == self.minus(other),
    {
        let n = cross(self.num, other.den) - cross(other.num, self.den);
        let d = cross(self.den, other.den);
        proof {
            lemma_reduce_props(n as int, d as int);
        }
        reduce_wide(n, d)
    }

    /// GCD of two rationals: gcd(a/b, c/d) = gcd(ad, cb) / bd.
    pub fn gcd(self, other: Rat) -> (r: Option<Rat>)
        requires
            self.wf(),
            other.wf(),
        ensures
            r is Some <==> Rat::pair_fits(self.spec_gcd(other)),
            r matches Some(s) ==> s == Rat::from_pair(self.spec_gcd(other)) && s.wf(),
            r == self.gcd_with(other),
    {
        let a = cross(self.num, other.den);
        let b = cross(other.num, self.den);
        let ua = abs_wide(a);
        let ub = abs_wide(b);
        let g = gcd_u128(ua, ub);
        let d = cross(self.den, other.den);
        proof {
            lemma_gcd_le(ua as nat, ub as nat);
        }
        let gi = g as i128;
        proof {
            lemma_reduce_props(gi as int, d as int);
        }
        reduce_wide(gi, d)
    }

    /// The quotient `self / grid` when it is an exact non-negative integer.
    pub open spec fn spec_div_exact(self, grid: Rat) -> Option<int> {
        let n = self.num * grid.den;
        let d = self.den * grid.num;
        if d != 0 && abs(n) % abs(d) == 0 && (n == 0 || (n >= 0) == (d > 0)) {
            Some((abs(n) as int) / (abs(d) as int))
        } else {
            None
        }
    }

    /// `self / grid` when it is an exact non-negative integer that fits `i64`.
    pub fn div_exact(self, grid: Rat) -> (q: Option<i64>)
        requires
            self.den > 0,
            grid.den > 0,
        ensures
            q == (match self.spec_div_exact(grid) {
                Some(k) => if k <= i64::MAX { Some(k as i64) } else { None },
                None => None,
            }),
    {
        let n = cross(self.num, grid.den);
        let d = cross(grid.num, self.den);
        proof {
            assert(grid.num * self.den == self.den * grid.num) by (nonlinear_arith);
        }
        if d == 0 {
            return None;
        }
        let un = abs_wide(n);
        let ud = abs_wide(d);
        let same_sign = (n >= 0) == (d > 0);
        if un % ud != 0 {
            return None;
        }
        if un != 0 && !same_sign {
            return None;
        }
        let k = un / ud;
        if k > i64::MAX as u128 {
            return None;
        }
        Some(k as i64)
    }

    /// `self <= other` as rationals.
    pub fn le(self, other: Rat) -> (b: bool)
        requires
            self.den > 0,
            other.den > 0,
        ensures
            b == self.le_value(other),
    {
        cross(self.num, other.den) <= cross(other.num, self.den)
    }

    /// `self == other` as rationals.
    pub fn same(self, other: Rat) -> (b: bool)
        requires
            self.den > 0,
            other.den > 0,
        ensures
            b == self.same_value(other),
    {
        cross(self.num, other.den) == cross(other.num, self.den)
    }

    /// `self < other` as rationals.
    pub fn lt(self, other: Rat) -> (b: bool)
        requires
            self.den > 0,
            other.den > 0,
        ensures
            b == self.lt_value(other),
    {
        cross(self.num, other.den) < cross(other.num, self.den)
    }

    /// The larger of the two values (the first on a tie).
    pub fn max(self, other: Rat) -> (r: Rat)
        requires
            self.den > 0,
            other.den > 0,
        ensures
            r == (if self.lt_value(other) { other } else { self }),
    {
        if self.lt(other) { other } else { self }
    }
}

/// Product of an `i64` and a positive `i64`, widened so it cannot overflow.
fn cross(a: i64, b: i64) -> (r: i128)
    requires
        b > 0,
    ensures
        r == a * b,
        -0x4000_0000_0000_0000_0000_0000_0000_0000 < r < 0x4000_0000_0000_0000_0000_0000_0000_0000,
        a > 0 ==> r > 0,
{
    proof {
        assert(-0x4000_0000_0000_0000_0000_0000_0000_0000 < a * b
            < 0x4000_0000_0000_0000_0000_0000_0000_0000) by (nonlinear_arith)
            requires
                i64::MIN <= a <= i64::MAX,
                0 < b <= i64::MAX;
        assert(a > 0 ==> a * b > 0) by (nonlinear_arith) requires b > 0;
    }
    (a as i128) * (b as i128)
}

fn abs_wide(x: i128) -> (r: u128)
    requires
        x > i128::MIN,
    ensures
        r == abs(x as int),
{
    if x < 0 { (-x) as u128 } else { x as u128 }
}

/// Reduces `num / den` and narrows it to `i64`, or `None` when it does not fit.
pub fn reduce_wide(num: i128, den: i128) -> (r: Option<Rat>)
    requires
        den > 0,
        num > i128::MIN,
    ensures
        r is Some <==> Rat::pair_fits(reduce(num as int, den as int)),
        r matches Some(s) ==> s == Rat::from_pair(reduce(num as int, den as int)) && s.wf(),
        r == Rat::fitted(reduce(num as int, den as int)),
{
    let un = abs_wide(num);
    let ud = den as u128;
    let g = gcd_u128(un, ud);
    proof {
        lemma_reduce_props(num as int, den as int);
    }
    let n = un / g;
    let d = ud / g;
    if n > i64::MAX as u128 || d > i64::MAX as u128 {
        if num < 0 && n == 0x8000_0000_0000_0000u128 && d <= i64::MAX as u128 {
            proof {
                assert(gcd(abs(num as int), den as nat) == g);
            }
            return Some(Rat { num: i64::MIN, den: d as i64 });
        }
        return None;
    }
    let ni = n as i64;
    let di = d as i64;
    if num < 0 {
        Some(Rat { num: -ni, den: di })
    } else {
        Some(Rat { num: ni, den: di })
    }
}

proof fn lemma_gcd_le(a: nat, b: nat)
    ensures
        gcd(a, b) <= if a > b { a } else { b },
    decreases b,
{
    if b != 0 {
        lemma_gcd_le(b, a % b);
        lemma_mod_pos_bound(a as int, b as int);
    }
}

/// Facts about [`reduce`] used by the executable reductions.
pub proof fn lemma_reduce_props(num: int, den: int)
    requires
        den > 0,
    ensures
        ({
            let p = reduce(num, den);
            let g = gcd(abs(num), den as nat) as int;
            &&& g > 0
            &&& p.1 > 0
            &&& abs(p.0) as int == (abs(num) as int) / g
            &&& p.1 == den / g
            &&& gcd(abs(p.0), p.1 as nat) == 1
            &&& p.0 * den == num * p.1
            &&& abs(p.0) <= abs(num)
            &&& p.1 <= den
        }),
{
    let g = gcd(abs(num), den as nat) as int;
    lemma_gcd_reduced(abs(num), den as nat);
    lemma_gcd_divides(abs(num), den as nat);
    lemma_fundamental_div_mod(abs(num) as int, g);
    lemma_fundamental_div_mod(den, g);
    let n = abs(num) as int / g;
    let d = den / g;
    assert(abs(num) as int == g * n);
    assert(den == g * d);
    assert(d > 0) by (nonlinear_arith) requires den == g * d, den > 0, g > 0;
    assert(n <= abs(num)) by (nonlinear_arith) requires abs(num) as int == g * n, g > 0, n >= 0;
    assert(d <= den) by (nonlinear_arith) requires den == g * d, g > 0, d > 0;
    if num < 0 {
        assert((-n) * den == num * d) by (nonlinear_arith)
            requires -num == g * n, den == g * d;
    } else {
        assert(n * den == num * d) by (nonlinear_arith)
            requires num == g * n, den == g * d;
    }
}

/// Reducing a pair that fits keeps it fitting.
pub proof fn lemma_reduce_fits(num: int, den: int)
    requires
        den > 0,
        fits_i64(num),
        fits_i64(den),
    ensures
        Rat::pair_fits(reduce(num, den)),
        Rat::fitted(reduce(num, den)) == Some(Rat::from_pair(reduce(num, den))),
{
    lemma_reduce_props(num, den);
    let p = reduce(num, den);
    if num >= 0 {
        assert(p.0 >= 0) by (nonlinear_arith) requires p.0 * den == num * p.1, num >= 0, den > 0, p.1 > 0;
    } else {
        assert(p.0 < 0) by (nonlinear_arith) requires p.0 * den == num * p.1, num < 0, den > 0, p.1 > 0;
    }
}

/// Zero, as `0/1`, is well formed.
pub proof fn lemma_gcd_zero_one()
    ensures
        gcd(0, 1) == 1,
        (Rat { num: 0, den: 1 }).wf(),
        reduce(0, 1) == (0int, 1int),
{
    reveal_with_fuel(gcd, 3);
}

/// A fitted reduced fraction is well formed.
pub proof fn lemma_fitted_wf(num: int, den: int)
    requires
        den > 0,
    ensures
        Rat::fitted(reduce(num, den)) matches Some(r) ==> r.wf(),
{
    lemma_reduce_props(num, den);
}

/// Sums, differences and gcds of well-formed rationals are well formed.
pub proof fn lemma_ops_wf(a: Rat, b: Rat)
    requires
        a.wf(),
        b.wf(),
    ensures
        a.plus(b) matches Some(r) ==> r.wf(),
        a.minus(b) matches Some(r) ==> r.wf(),
        a.gcd_with(b) matches Some(r) ==> r.wf(),
{
    assert(a.den * b.den > 0) by (nonlinear_arith) requires a.den > 0, b.den > 0;
    lemma_fitted_wf(a.num * b.den + b.num * a.den, a.den * b.den);
    lemma_fitted_wf(a.num * b.den - b.num * a.den, a.den * b.den);
    lemma_fitted_wf(gcd(abs(a.num * b.den), abs(b.num * a.den)) as int, a.den * b.den);
}

/// The exact quotient is what it says: `k * grid == self` with `k >= 0`.
pub proof fn lemma_div_exact_meaning(a: Rat, g: Rat)
    requires
        a.spec_div_exact(g) is Some,
    ensures
        ({
            let k = a.spec_div_exact(g)->Some_0;
            &&& k >= 0
            &&& k * (a.den * g.num) == a.num * g.den
        }),
{
    let n = a.num * g.den;
    let d = a.den * g.num;
    let k = (abs(n) as int) / (abs(d) as int);
    lemma_fundamental_div_mod(abs(n) as int, abs(d) as int);
    assert(abs(n) == abs(d) * k);
    assert(k >= 0) by (nonlinear_arith) requires abs(n) == abs(d) * k, abs(d) > 0;
    assert(k * d == n) by (nonlinear_arith)
        requires abs(n) == abs(d) * k, n == 0 || (n >= 0) == (d > 0), d != 0, k >= 0;
}

} // verus!
