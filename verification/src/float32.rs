//! IEEE 754 binary32 numbers, held by their bits, and the few operations on
//! them that the router needs: comparison, range tests, and whether the
//! rounded quotient of two counters reaches a threshold.
//!
//! A finite magnitude is modelled by an integer: its value counted in units of
//! the smallest positive number, two to the minus 149.

use vstd::arithmetic::mul::*;
use vstd::arithmetic::power2::*;
use vstd::prelude::*;

verus! {

/// The lowest bit of the exponent field.
pub const HIDDEN: u32 = 0x80_0000;

/// The sign bit.
pub const SIGN: u32 = 0x8000_0000;

/// The bits of positive infinity.
pub const INFINITY: u32 = 0x7f80_0000;

/// The bits of the number one.
pub const ONE: u32 = 0x3f80_0000;

/// A binary32 number.
#[derive(Clone, Copy, Debug)]
pub struct F32 {
    pub bits: u32,
}

impl F32 {
    /// The bits without the sign.
    pub open spec fn magnitude(self) -> int {
        if self.bits >= SIGN {
            self.bits - SIGN
        } else {
            self.bits as int
        }
    }

    pub open spec fn is_negative(self) -> bool {
        self.bits >= SIGN
    }

    pub open spec fn is_nan(self) -> bool {
        self.magnitude() > INFINITY
    }

    pub open spec fn is_finite(self) -> bool {
        self.magnitude() < INFINITY
    }
}

/// The value of a finite magnitude, in units of two to the minus 149.
pub open spec fn units(m: int) -> int {
    let exponent = m / (HIDDEN as int);
    let fraction = m % (HIDDEN as int);
    if exponent <= 0 {
        fraction
    } else {
        (HIDDEN + fraction) * pow2((exponent - 1) as nat)
    }
}

/// How far apart the magnitudes `m` and `m + 1` are, in units.
pub open spec fn gap(m: int) -> int {
    let exponent = m / (HIDDEN as int);
    if exponent <= 0 {
        1
    } else {
        pow2((exponent - 1) as nat) as int
    }
}

/// Units in the number one.
pub open spec fn unit_count() -> int {
    pow2(149) as int
}

/// The distance between the magnitude `m` and `n / d`, times `d`, in units.
pub open spec fn distance(n: int, d: int, m: int) -> int {
    let diff = units(m) * d - n * unit_count();
    if diff < 0 {
        -diff
    } else {
        diff
    }
}

/// Whether `m` is the finite magnitude that `n / d` rounds to: none is nearer,
/// and of two that are equally near the even one is taken.
pub open spec fn rounds_to(n: int, d: int, m: int) -> bool {
    &&& 0 <= m < INFINITY
    &&& forall|k: int|
        0 <= k < INFINITY && k != m ==> {
            ||| distance(n, d, m) < #[trigger] distance(n, d, k)
            ||| distance(n, d, m) == distance(n, d, k) && m % 2 == 0
        }
}

/// Whether the non-negative finite magnitude `m` is at least `t`.
pub open spec fn at_least(m: int, t: F32) -> bool {
    &&& !t.is_nan()
    &&& (t.is_negative() || t.magnitude() == 0 || (t.is_finite() && units(t.magnitude()) <= units(m)))
}

/// Whether the quotient of `num` and `den`, each rounded to binary32 first and
/// the quotient rounded again, is at least `t`.
pub open spec fn quotient_at_least(num: int, den: int, t: F32) -> bool {
    exists|a: int, b: int, q: int|
        #![trigger rounds_to(num, 1, a), rounds_to(den, 1, b), rounds_to(units(a), units(b), q)]
        {
            &&& rounds_to(num, 1, a)
            &&& rounds_to(den, 1, b)
            &&& rounds_to(units(a), units(b), q)
            &&& at_least(q, t)
        }
}

/// Equality of numbers: a NaN equals nothing, the two zeros are equal.
pub open spec fn same_number(a: F32, b: F32) -> bool {
    &&& !a.is_nan()
    &&& !b.is_nan()
    &&& (a.bits == b.bits || a.magnitude() == 0 && b.magnitude() == 0)
}

/// Whether zero <= `x` <= one.
pub open spec fn in_unit_interval(x: F32) -> bool {
    &&& x.is_finite()
    &&& (x.magnitude() == 0 || !x.is_negative())
    &&& units(x.magnitude()) <= unit_count()
}

// ---------------------------------------------------------------------------
// Order of the magnitudes
// ---------------------------------------------------------------------------

proof fn lemma_step(m: int)
    requires
        0 <= m,
    ensures
        units(m + 1) == units(m) + gap(m),
        gap(m) >= 1,
{
    let h = HIDDEN as int;
    let e = m / h;
    let f = m % h;
    assert(m == e * h + f) by (nonlinear_arith)
        requires
            e == m / h,
            f == m % h,
            h > 0,
    ;
    lemma_pow2_pos((e - 1) as nat);
    if f + 1 < h {
        assert((m + 1) / h == e && (m + 1) % h == f + 1) by (nonlinear_arith)
            requires
                m + 1 == e * h + (f + 1),
                0 <= f + 1 < h,
        ;
        if e > 0 {
            let p = pow2((e - 1) as nat) as int;
            assert((h + f + 1) * p == (h + f) * p + p) by (nonlinear_arith);
        }
    } else {
        assert((m + 1) / h == e + 1 && (m + 1) % h == 0) by (nonlinear_arith)
            requires
                m + 1 == (e + 1) * h,
                h > 0,
        ;
        if e > 0 {
            lemma_pow2_unfold(e as nat);
            let p = pow2((e - 1) as nat) as int;
            assert(pow2(e as nat) == 2 * p);
            assert(h * (2 * p) == (h + f) * p + p) by (nonlinear_arith)
                requires
                    f + 1 == h,
            ;
        } else {
            lemma2_to64();
        }
    }
}

/// The larger of two magnitudes stands for the larger number.
pub proof fn lemma_units_increase(m: int, k: int)
    requires
        0 <= m <= k,
    ensures
        units(m) <= units(k),
        m < k ==> units(m) < units(k),
        m < k ==> units(m) + gap(m) <= units(k),
    decreases k - m,
{
    if m < k {
        lemma_units_increase(m, k - 1);
        lemma_step(k - 1);
        lemma_step(m);
    }
}

proof fn lemma_unit_bits()
    ensures
        units(0) == 0,
        units(ONE as int) == unit_count(),
        unit_count() > 0,
{
    let h = HIDDEN as int;
    assert(0x3f80_0000int == 127 * 0x80_0000int + 0);
    assert(ONE as int / h == 127 && ONE as int % h == 0);
    lemma2_to64();
    lemma_pow2_adds(23, 126);
    lemma_pow2_pos(149);
}

// ---------------------------------------------------------------------------
// Rounding
// ---------------------------------------------------------------------------

/// A magnitude within half a gap of `n / d` on both sides is what it rounds to.
proof fn lemma_within_half_gap(n: int, d: int, m: int)
    requires
        0 <= m < INFINITY,
        d > 0,
        2 * n * unit_count() <= (2 * units(m) + gap(m)) * d,
        2 * n * unit_count() == (2 * units(m) + gap(m)) * d ==> m % 2 == 0,
        m > 0 ==> (2 * units(m - 1) + gap(m - 1)) * d <= 2 * n * unit_count(),
        m > 0 && (2 * units(m - 1) + gap(m - 1)) * d == 2 * n * unit_count() ==> m % 2 == 0,
        m == 0 ==> n >= 0,
    ensures
        rounds_to(n, d, m),
{
    let x = n * unit_count();
    let u = units(m);
    assert forall|k: int| 0 <= k < INFINITY && k != m implies {
        ||| distance(n, d, m) < #[trigger] distance(n, d, k)
        ||| distance(n, d, m) == distance(n, d, k) && m % 2 == 0
    } by {
        let v = units(k);
        assert(2 * n * unit_count() == 2 * x) by (nonlinear_arith)
            requires
                x == n * unit_count(),
        ;
        if k > m {
            lemma_units_increase(m, k);
            let g = gap(m);
            // u <= u + g <= v and 2x <= (2u + g) d, so x is no nearer to v.
            assert((2 * u + g) * d <= (u + v) * d) by (nonlinear_arith)
                requires
                    u + g <= v,
                    d > 0,
            ;
            assert((u + v) * d == u * d + v * d) by (nonlinear_arith);
            assert(u * d < v * d) by (nonlinear_arith)
                requires
                    u < v,
                    d > 0,
            ;
        } else {
            lemma_units_increase(k, m - 1);
            lemma_step(m - 1);
            let w = units(m - 1);
            let g = gap(m - 1);
            assert((u + v) * d <= (2 * w + g) * d) by (nonlinear_arith)
                requires
                    v <= w,
                    u == w + g,
                    d > 0,
            ;
            assert((u + v) * d == u * d + v * d) by (nonlinear_arith);
            assert(v * d < u * d) by (nonlinear_arith)
                requires
                    v < u,
                    d > 0,
            ;
        }
    }
}

/// Between two magnitudes that are equally far from `n / d` every other one is
/// nearer.
proof fn lemma_between_is_nearer(n: int, d: int, lo: int, mid: int, hi: int)
    requires
        d > 0,
        0 <= lo < mid < hi,
        distance(n, d, lo) == distance(n, d, hi),
    ensures
        distance(n, d, mid) < distance(n, d, lo),
{
    lemma_units_increase(lo, mid);
    lemma_units_increase(mid, hi);
    let (a, b, c) = (units(lo) * d, units(mid) * d, units(hi) * d);
    assert(a < b < c) by (nonlinear_arith)
        requires
            a == units(lo) * d,
            b == units(mid) * d,
            c == units(hi) * d,
            units(lo) < units(mid) < units(hi),
            d > 0,
    ;
}

/// At most one magnitude is the rounded value of `n / d`.
pub proof fn lemma_rounding_unique(n: int, d: int, m: int, k: int)
    requires
        d > 0,
        rounds_to(n, d, m),
        rounds_to(n, d, k),
    ensures
        m == k,
{
    if m != k {
        let lo = if m < k { m } else { k };
        let hi = if m < k { k } else { m };
        assert(distance(n, d, lo) == distance(n, d, hi));
        assert(lo % 2 == 0 && hi % 2 == 0);
        // Two even magnitudes enclose an odd one, which would be nearer still.
        lemma_between_is_nearer(n, d, lo, lo + 1, hi);
        assert(distance(n, d, lo) <= distance(n, d, lo + 1));
    }
}

/// What `q` times two to the `exponent - 1` looks like as a magnitude.
proof fn lemma_assemble(exponent: int, q: int)
    requires
        1 <= exponent,
        HIDDEN <= q <= 2 * HIDDEN,
    ensures
        units((exponent - 1) * HIDDEN + q) == q * pow2((exponent - 1) as nat),
        q < 2 * HIDDEN ==> gap((exponent - 1) * HIDDEN + q) == pow2((exponent - 1) as nat),
        q == 2 * HIDDEN ==> gap((exponent - 1) * HIDDEN + q) == 2 * pow2((exponent - 1) as nat),
{
    let h = HIDDEN as int;
    let m = (exponent - 1) * h + q;
    if q < 2 * h {
        assert(m / h == exponent && m % h == q - h) by (nonlinear_arith)
            requires
                m == (exponent - 1) * h + q,
                h <= q < 2 * h,
        ;
    } else {
        assert(m / h == exponent + 1 && m % h == 0) by (nonlinear_arith)
            requires
                m == (exponent - 1) * h + q,
                q == 2 * h,
                h > 0,
        ;
        lemma_pow2_unfold(exponent as nat);
        let p = pow2((exponent - 1) as nat) as int;
        assert(h * (2 * p) == (2 * h) * p) by (nonlinear_arith);
    }
}

/// A significand that is `n / d` over two to the `exponent - 150`, rounded to
/// an integer with ties to even, gives the magnitude that `n / d` rounds to.
proof fn lemma_rounded_significand(n: int, d: int, exponent: int, q: int)
    requires
        n > 0,
        d > 0,
        1 <= exponent <= 253,
        HIDDEN <= q <= 2 * HIDDEN,
        ({
            let g = pow2((exponent - 1) as nat) * d;
            &&& 2 * n * unit_count() <= (2 * q + 1) * g
            &&& 2 * n * unit_count() == (2 * q + 1) * g ==> q % 2 == 0
            &&& (2 * q - 1) * g <= 2 * n * unit_count()
            &&& (2 * q - 1) * g == 2 * n * unit_count() ==> q % 2 == 0
            &&& q == HIDDEN ==> (2 * q) * g <= 2 * n * unit_count()
        }),
    ensures
        rounds_to(n, d, (exponent - 1) * HIDDEN + q),
{
    let h = HIDDEN as int;
    let m = (exponent - 1) * h + q;
    let p = pow2((exponent - 1) as nat) as int;
    let x2 = 2 * n * unit_count();
    lemma_pow2_pos((exponent - 1) as nat);
    lemma_assemble(exponent, q);
    assert(0 < m < INFINITY && m % 2 == q % 2) by {
        assert(m == (exponent - 1) * 0x80_0000 + q);
    }
    assert((2 * q + 1) * (p * d) == (2 * (q * p) + p) * d) by (nonlinear_arith);
    assert((2 * (q * p) + p) * d <= (2 * units(m) + gap(m)) * d) by (nonlinear_arith)
        requires
            units(m) == q * p,
            gap(m) >= p,
            d > 0,
    ;
    if q == 2 * h {
        assert((2 * (q * p) + p) * d < (2 * units(m) + gap(m)) * d) by (nonlinear_arith)
            requires
                units(m) == q * p,
                gap(m) == 2 * p,
                p > 0,
                d > 0,
        ;
    }
    // Below m.
    lemma_step(m - 1);
    let w = units(m - 1);
    let g = gap(m - 1);
    if q > h {
        lemma_assemble(exponent, q - 1);
        assert(m - 1 == (exponent - 1) * h + (q - 1));
        assert((2 * w + g) * d == (2 * q - 1) * (p * d)) by (nonlinear_arith)
            requires
                w == (q - 1) * p,
                g == p,
        ;
    } else {
        assert((2 * w + g) * d < (2 * (q * p)) * d) by (nonlinear_arith)
            requires
                w + g == q * p,
                g >= 1,
                d > 0,
        ;
        assert((2 * (q * p)) * d == (2 * q) * (p * d)) by (nonlinear_arith);
    }
    lemma_within_half_gap(n, d, m);
}

/// The significand after rounding `whole` plus `rest / unit` to an integer,
/// ties to even.
fn round_half_even(whole: u64, rest: u64, unit: u64) -> (r: u64)
    requires
        rest < unit <= 0x100_0000_0000,
        whole < u64::MAX,
    ensures
        r == whole || r == whole + 1,
        r == whole + 1 <==> (2 * rest > unit || (2 * rest == unit && whole % 2 == 1)),
{
    if 2 * rest > unit || (2 * rest == unit && whole % 2 == 1) {
        whole + 1
    } else {
        whole
    }
}

/// What rounding to even says of twice the exact value.
proof fn lemma_half_even_bounds(whole: int, rest: int, unit: int, r: int)
    requires
        0 <= rest < unit,
        r == whole || r == whole + 1,
        r == whole + 1 <==> (2 * rest > unit || (2 * rest == unit && whole % 2 == 1)),
    ensures
        ({
            let exact2 = 2 * (whole * unit + rest);
            &&& exact2 <= (2 * r + 1) * unit
            &&& exact2 == (2 * r + 1) * unit ==> r % 2 == 0
            &&& (2 * r - 1) * unit <= exact2
            &&& (2 * r - 1) * unit == exact2 ==> r % 2 == 0
            &&& r == whole ==> (2 * r) * unit <= exact2
        }),
{
    let exact2 = 2 * (whole * unit + rest);
    assert(exact2 == 2 * (whole * unit) + 2 * rest);
    assert((2 * r + 1) * unit == 2 * (r * unit) + unit) by (nonlinear_arith);
    assert((2 * r - 1) * unit == 2 * (r * unit) - unit) by (nonlinear_arith);
    assert((2 * r) * unit == 2 * (r * unit)) by (nonlinear_arith);
    if r == whole + 1 {
        assert(r * unit == whole * unit + unit) by (nonlinear_arith)
            requires
                r == whole + 1,
        ;
    }
}

/// `n` rounded to binary32, as a magnitude.
fn round_u64(n: u64) -> (m: u32)
    ensures
        rounds_to(n as int, 1, m as int),
        n == 0 <==> m == 0,
        n > 0 ==> 127 <= m / HIDDEN <= 191,
{
    if n == 0 {
        proof {
            lemma_unit_bits();
            lemma_step(0);
            assert(gap(0) == 1);
            assert(2 * 0int * unit_count() == 0) by (nonlinear_arith);
            lemma_within_half_gap(0, 1, 0);
        }
        return 0;
    }
    let mut length: u32 = 1;
    let mut top: u64 = 1;
    proof {
        lemma2_to64();
    }
    while length < 64 && n / 2 >= top
        invariant
            1 <= length <= 64,
            top == pow2((length - 1) as nat),
            top <= n,
            length == 64 ==> top == 0x8000_0000_0000_0000,
        ensures
            1 <= length <= 64,
            top == pow2((length - 1) as nat),
            top <= n,
            n < 2 * top,
        decreases 64 - length,
    {
        proof {
            lemma_pow2_unfold(length as nat);
        }
        top = 2 * top;
        length = length + 1;
        proof {
            if length == 64 {
                lemma2_to64_rest();
            }
        }
    }
    let ghost p = pow2((length + 125) as nat) as int;
    let ghost exponent = length + 126;
    let h = HIDDEN as u64;
    let q: u64;
    proof {
        lemma2_to64();
    }
    if length <= 24 {
        let scale = h / top;
        proof {
            lemma_pow2_adds((length - 1) as nat, (24 - length) as nat);
            let s = pow2((24 - length) as nat) as int;
            lemma_pow2_pos((24 - length) as nat);
            assert(h as int / top as int == s) by (nonlinear_arith)
                requires
                    h as int == top as int * s,
                    top > 0,
            ;
            assert(h <= n * s < 2 * h) by (nonlinear_arith)
                requires
                    h as int == top as int * s,
                    top <= n < 2 * top,
                    s > 0,
            ;
            lemma_pow2_adds((24 - length) as nat, (length + 125) as nat);
            assert((n * s) * p == n * unit_count()) by (nonlinear_arith)
                requires
                    s * p == unit_count(),
            ;
        }
        q = n * scale;
        proof {
            assert((2 * q) * (p * 1) == 2 * n * unit_count()) by (nonlinear_arith)
                requires
                    q * p == n * unit_count(),
            ;
            assert((2 * q + 1) * (p * 1) == (2 * q) * (p * 1) + p) by (nonlinear_arith);
            assert((2 * q - 1) * (p * 1) == (2 * q) * (p * 1) - p) by (nonlinear_arith);
        }
    } else {
        let unit = top / h;
        proof {
            lemma_pow2_adds(23, (length - 24) as nat);
            let s = pow2((length - 24) as nat) as int;
            lemma_pow2_pos((length - 24) as nat);
            assert(top as int / h as int == s) by (nonlinear_arith)
                requires
                    top as int == h as int * s,
                    h > 0,
            ;
            lemma2_to64_rest();
            if length < 64 {
                lemma_pow2_strictly_increases((length - 24) as nat, 40);
            }
        }
        let whole = n / unit;
        let rest = n % unit;
        proof {
            assert(n == whole * unit + rest && h <= whole < 2 * h) by (nonlinear_arith)
                requires
                    unit > 0,
                    whole == n / unit,
                    rest == n % unit,
                    top as int == h as int * unit as int,
                    top <= n < 2 * top,
            ;
        }
        q = round_half_even(whole, rest, unit);
        proof {
            let u = unit_count();
            lemma_half_even_bounds(whole as int, rest as int, unit as int, q as int);
            lemma_pow2_adds((length - 24) as nat, 149);
            lemma_unit_bits();
            assert(p * 1 == unit * u);
            let e2 = 2 * n as int;
            assert(forall|k: int| #![trigger k * (p * 1)] k * (p * 1) == (k * unit) * u) by (nonlinear_arith)
                requires
                    p * 1 == unit * u,
            ;
            assert(e2 * u == 2 * n * unit_count());
            lemma_scale_bounds(e2, (2 * q + 1) * unit, u);
            lemma_scale_bounds((2 * q - 1) * unit, e2, u);
            lemma_scale_bounds((2 * q) * unit, e2, u);
            assert((2 * q + 1) * (p * 1) == ((2 * q + 1) * unit) * u);
            assert((2 * q - 1) * (p * 1) == ((2 * q - 1) * unit) * u);
            assert((2 * q) * (p * 1) == ((2 * q) * unit) * u);
        }
    }
    proof {
        lemma_pow2_pos((length + 125) as nat);
        lemma_rounded_significand(n as int, 1, exponent as int, q as int);
        lemma_exponent_field(exponent as int, q as int);
    }
    (length + 125) * HIDDEN + (q as u32)
}

proof fn lemma_scale_bounds(x: int, y: int, k: int)
    requires
        k > 0,
    ensures
        x <= y ==> x * k <= y * k,
        x * k == y * k ==> x == y,
{
    assert(x <= y ==> x * k <= y * k) by (nonlinear_arith)
        requires
            k > 0,
    ;
    assert(x * k == y * k ==> x == y) by (nonlinear_arith)
        requires
            k > 0,
    ;
}

proof fn lemma_exponent_field(exponent: int, q: int)
    requires
        1 <= exponent <= 253,
        HIDDEN <= q <= 2 * HIDDEN,
    ensures
        0 < (exponent - 1) * HIDDEN + q < INFINITY,
        q < 2 * HIDDEN ==> ((exponent - 1) * HIDDEN + q) / (HIDDEN as int) == exponent,
        q == 2 * HIDDEN ==> ((exponent - 1) * HIDDEN + q) / (HIDDEN as int) == exponent + 1,
{
    let m = (exponent - 1) * 0x80_0000 + q;
    assert(m == (exponent - 1) * HIDDEN + q);
}

/// The quotient of two positive magnitudes of counters, rounded.
fn divide(a: u32, b: u32) -> (m: u32)
    requires
        127 <= a / HIDDEN <= 191,
        127 <= b / HIDDEN <= 191,
    ensures
        rounds_to(units(a as int), units(b as int), m as int),
{
    let ea: u32 = a / HIDDEN;
    let eb: u32 = b / HIDDEN;
    let qa: u64 = (HIDDEN + a % HIDDEN) as u64;
    let qb: u64 = (HIDDEN + b % HIDDEN) as u64;
    let shift: u32 = if qa >= qb { 23 } else { 24 };
    let scaled: u64 = if qa >= qb { qa * 0x80_0000 } else { qa * 0x100_0000 };
    let whole = scaled / qb;
    let rest = scaled % qb;
    let h = HIDDEN as u64;
    proof {
        assert(scaled == whole * qb + rest && h <= whole < 2 * h) by (nonlinear_arith)
            requires
                h == 0x80_0000,
                h <= qa < 2 * h,
                h <= qb < 2 * h,
                qa >= qb ==> scaled == qa * 0x80_0000,
                qa < qb ==> scaled == qa * 0x100_0000,
                whole == scaled / qb,
                rest == scaled % qb,
        ;
    }
    let q = round_half_even(whole, rest, qb);
    let exponent: u32 = ea + 150 - eb - shift;
    proof {
        let n = units(a as int);
        let d = units(b as int);
        let u = unit_count();
        let pa = pow2((ea - 1) as nat) as int;
        let pb = pow2((eb - 1) as nat) as int;
        let pe = pow2((exponent - 1) as nat) as int;
        let ps = pow2(shift as nat) as int;
        // k is the common factor: n * u == scaled * k and pe * d == qb * k.
        let k = pow2((ea + 148 - shift) as nat) as int;
        lemma2_to64();
        lemma_pow2_pos((ea - 1) as nat);
        lemma_pow2_pos((eb - 1) as nat);
        lemma_pow2_pos((ea + 148 - shift) as nat);
        assert(n == qa * pa && d == qb * pb);
        lemma_pow2_adds((ea - 1) as nat, 149);
        lemma_pow2_adds(shift as nat, (ea + 148 - shift) as nat);
        assert(pa * u == ps * k);
        assert(scaled == qa * ps);
        assert(n * u == scaled * k) by (nonlinear_arith)
            requires
                n == qa * pa,
                pa * u == ps * k,
                scaled == qa * ps,
        ;
        lemma_pow2_adds((exponent - 1) as nat, (eb - 1) as nat);
        assert(pe * pb == k);
        assert(pe * d == qb * k) by (nonlinear_arith)
            requires
                d == qb * pb,
                pe * pb == k,
        ;
        lemma_half_even_bounds(whole as int, rest as int, qb as int, q as int);
        let e2 = 2 * scaled as int;
        assert(2 * n * u == e2 * k) by (nonlinear_arith)
            requires
                n * u == scaled * k,
                e2 == 2 * scaled,
        ;
        assert((2 * q + 1) * (pe * d) == ((2 * q + 1) * qb) * k) by (nonlinear_arith)
            requires
                pe * d == qb * k,
        ;
        assert((2 * q - 1) * (pe * d) == ((2 * q - 1) * qb) * k) by (nonlinear_arith)
            requires
                pe * d == qb * k,
        ;
        assert((2 * q) * (pe * d) == ((2 * q) * qb) * k) by (nonlinear_arith)
            requires
                pe * d == qb * k,
        ;
        lemma_scale_bounds(e2, (2 * q + 1) * qb, k);
        lemma_scale_bounds((2 * q - 1) * qb, e2, k);
        lemma_scale_bounds((2 * q) * qb, e2, k);
        assert(n > 0) by (nonlinear_arith)
            requires
                n == qa * pa,
                qa > 0,
                pa > 0,
        ;
        assert(d > 0) by (nonlinear_arith)
            requires
                d == qb * pb,
                qb > 0,
                pb > 0,
        ;
        lemma_rounded_significand(n, d, exponent as int, q as int);
        lemma_exponent_field(exponent as int, q as int);
    }
    (exponent - 1) * HIDDEN + (q as u32)
}

// ---------------------------------------------------------------------------
// Operations
// ---------------------------------------------------------------------------

/// Whether zero is at least `t`.
pub fn zero_reaches(t: F32) -> (r: bool)
    ensures
        r == at_least(0, t),
{
    proof {
        lemma_unit_bits();
        if !t.is_negative() && t.is_finite() && t.magnitude() > 0 {
            lemma_units_increase(0, t.magnitude());
        }
    }
    if t.bits >= SIGN {
        t.bits - SIGN <= INFINITY
    } else {
        t.bits == 0
    }
}

/// Whether infinity is at least `t`: it is, unless `t` is a NaN.
pub fn infinity_reaches(t: F32) -> (r: bool)
    ensures
        r == !t.is_nan(),
{
    if t.bits >= SIGN {
        t.bits - SIGN <= INFINITY
    } else {
        t.bits <= INFINITY
    }
}

/// Whether `num / den`, computed in binary32, is at least `t`.
pub fn quotient_reaches(num: u64, den: u64, t: F32) -> (r: bool)
    requires
        den > 0,
    ensures
        r == quotient_at_least(num as int, den as int, t),
{
    let a = round_u64(num);
    let b = round_u64(den);
    let q: u32 = if a == 0 { 0 } else { divide(a, b) };
    proof {
        lemma_unit_bits();
        lemma_units_increase(0, b as int);
        if a == 0 {
            let d = units(b as int);
            assert(2 * 0int * unit_count() == 0) by (nonlinear_arith);
            assert((2 * units(0) + gap(0)) * d > 0) by (nonlinear_arith)
                requires
                    units(0) == 0,
                    gap(0) == 1,
                    d > 0,
            ;
            lemma_within_half_gap(0, d, 0);
        }
        assert(rounds_to(units(a as int), units(b as int), q as int));
        assert(quotient_at_least(num as int, den as int, t) == at_least(q as int, t)) by {
            if quotient_at_least(num as int, den as int, t) {
                let (a1, b1, q1) = choose|a1: int, b1: int, q1: int|
                    #![trigger rounds_to(num as int, 1, a1), rounds_to(den as int, 1, b1), rounds_to(units(a1), units(b1), q1)]
                    {
                        &&& rounds_to(num as int, 1, a1)
                        &&& rounds_to(den as int, 1, b1)
                        &&& rounds_to(units(a1), units(b1), q1)
                        &&& at_least(q1, t)
                    };
                lemma_rounding_unique(num as int, 1, a as int, a1);
                lemma_rounding_unique(den as int, 1, b as int, b1);
                lemma_rounding_unique(units(a1), units(b1), q as int, q1);
            }
        }
        if t.is_finite() && !t.is_negative() {
            let m = t.magnitude();
            if m <= q {
                lemma_units_increase(m, q as int);
            } else {
                lemma_units_increase(q as int, m);
            }
        }
    }
    if t.bits >= SIGN {
        t.bits - SIGN <= INFINITY
    } else {
        t.bits <= q
    }
}

/// Whether `a` and `b` are equal as numbers.
pub fn number_eq(a: F32, b: F32) -> (r: bool)
    ensures
        r == same_number(a, b),
{
    let ma: u32 = if a.bits >= SIGN { a.bits - SIGN } else { a.bits };
    let mb: u32 = if b.bits >= SIGN { b.bits - SIGN } else { b.bits };
    ma <= INFINITY && mb <= INFINITY && (a.bits == b.bits || (ma == 0 && mb == 0))
}

/// Whether `x` lies between zero and one, both included.
pub fn within_unit_interval(x: F32) -> (r: bool)
    ensures
        r == in_unit_interval(x),
{
    proof {
        lemma_unit_bits();
        let m = x.magnitude();
        if m <= ONE {
            lemma_units_increase(m, ONE as int);
        } else {
            lemma_units_increase(ONE as int, m);
        }
    }
    x.bits <= ONE || x.bits == SIGN
}

// ---------------------------------------------------------------------------
// Laws
// ---------------------------------------------------------------------------

/// Of the magnitudes up to `bound`, one is nearest to `n / d`.
proof fn lemma_nearest_exists(n: int, d: int, bound: int) -> (m: int)
    requires
        d > 0,
        0 <= bound,
    ensures
        0 <= m <= bound,
        forall|k: int|
            0 <= k <= bound && k != m ==> {
                ||| distance(n, d, m) < #[trigger] distance(n, d, k)
                ||| distance(n, d, m) == distance(n, d, k) && m % 2 == 0
            },
    decreases bound,
{
    if bound == 0 {
        0
    } else {
        let m = lemma_nearest_exists(n, d, bound - 1);
        let (dm, db) = (distance(n, d, m), distance(n, d, bound));
        if db < dm {
            bound
        } else if dm == db && m % 2 != 0 {
            if bound % 2 != 0 {
                lemma_between_is_nearer(n, d, m, m + 1, bound);
                assert(distance(n, d, m + 1) < dm);
                assert(false);
            }
            bound
        } else {
            m
        }
    }
}

/// Every non-negative fraction rounds to some magnitude.
pub proof fn lemma_rounding_exists(n: int, d: int) -> (m: int)
    requires
        d > 0,
    ensures
        rounds_to(n, d, m),
{
    lemma_nearest_exists(n, d, INFINITY - 1)
}

/// A count divided by itself reaches every threshold of the unit interval.
pub proof fn lemma_whole_reaches(n: int, t: F32)
    requires
        n > 0,
        in_unit_interval(t),
    ensures
        quotient_at_least(n, n, t),
{
    let a = lemma_rounding_exists(n, 1);
    assert(a != 0) by {
        lemma_unit_bits();
        let u = unit_count();
        assert(n * u >= u) by (nonlinear_arith)
            requires
                n >= 1,
                u > 0,
        ;
        assert(distance(n, 1, ONE as int) < distance(n, 1, 0));
    }
    lemma_unit_bits();
    lemma_units_increase(0, a);
    let d = units(a);
    let one = ONE as int;
    lemma_step(one);
    lemma_step(one - 1);
    let u = unit_count();
    assert(2 * d * u < (2 * units(one) + gap(one)) * d) by (nonlinear_arith)
        requires
            units(one) == u,
            gap(one) >= 1,
            d > 0,
    ;
    assert((2 * units(one - 1) + gap(one - 1)) * d < 2 * d * u) by (nonlinear_arith)
        requires
            units(one) == u,
            units(one) == units(one - 1) + gap(one - 1),
            gap(one - 1) >= 1,
            d > 0,
    ;
    lemma_within_half_gap(d, d, one);
    assert(rounds_to(units(a), units(a), one));
}

/// Bit patterns up to that of one stand for numbers of the unit interval.
pub proof fn lemma_up_to_one(x: F32)
    requires
        x.bits <= ONE,
    ensures
        in_unit_interval(x),
{
    lemma_unit_bits();
    lemma_units_increase(x.magnitude(), ONE as int);
}

/// What makes a bit pattern a NaN.
pub(crate) proof fn lemma_nan_bits(x: F32)
    ensures
        x.is_nan() <==> x.bits % 0x8000_0000 > 0x7f80_0000,
{
}

/// The numbers from zero to one are the patterns up to that of one, and the
/// negative zero.
pub proof fn lemma_unit_interval_bits(x: F32)
    ensures
        in_unit_interval(x) <==> x.bits <= 0x3f80_0000 || x.bits == 0x8000_0000,
{
    lemma_unit_bits();
    let m = x.magnitude();
    if m <= ONE {
        lemma_units_increase(m, ONE as int);
    } else {
        lemma_units_increase(ONE as int, m);
    }
}

/// Two patterns are the same number if they are the same pattern, and no NaN, or
/// if both are zeros.
pub proof fn lemma_same_number_bits(a: F32, b: F32)
    ensures
        same_number(a, b) <==> (a.bits == b.bits && a.bits % 0x8000_0000 <= 0x7f80_0000) || (a.bits % 0x8000_0000 == 0
            && b.bits % 0x8000_0000 == 0),
{
}

/// The value of a finite magnitude, in units of two to the minus 149, by its
/// exponent and its fraction.
pub open spec fn value_of_bits(m: int) -> int {
    if m < 0x80_0000 {
        m
    } else {
        (0x80_0000 + m % 0x80_0000) * pow2((m / 0x80_0000 - 1) as nat)
    }
}

/// Whether `n / d` lies beyond the middle between the magnitude `m` and the one
/// before it, or in the middle, if `m` is even.
pub open spec fn past_middle(n: int, d: int, m: int) -> bool {
    let middle = (value_of_bits(m - 1) + value_of_bits(m)) * d;
    ||| 2 * n * pow2(149) > middle
    ||| 2 * n * pow2(149) == middle && m % 2 == 0
}

/// Whether a finite magnitude is the nearest one to `n / d`: past the middle
/// before it, and not past the one after it.
pub open spec fn nearest_bits(n: int, d: int, m: int) -> bool {
    &&& 0 <= m < 0x7f80_0000
    &&& m > 0 ==> past_middle(n, d, m)
    &&& m + 1 < 0x7f80_0000 ==> !past_middle(n, d, m + 1)
}

proof fn lemma_value_of_bits(m: int)
    requires
        0 <= m,
    ensures
        value_of_bits(m) == units(m),
{
}

/// Rounding goes as far as a magnitude exactly if the middle before that one is
/// passed.
proof fn lemma_rounds_as_far(n: int, d: int, q: int, m: int)
    requires
        d > 0,
        rounds_to(n, d, q),
        0 < m < INFINITY,
    ensures
        q >= m <==> past_middle(n, d, m),
{
    lemma_value_of_bits(m);
    lemma_value_of_bits(m - 1);
    let x = n * unit_count();
    let (a, b, c) = (units(m - 1) * d, units(m) * d, units(q) * d);
    assert(2 * n * pow2(149) == 2 * x) by (nonlinear_arith)
        requires
            x == n * pow2(149),
    ;
    assert((units(m - 1) + units(m)) * d == a + b) by (nonlinear_arith)
        requires
            a == units(m - 1) * d,
            b == units(m) * d,
    ;
    lemma_units_increase(m - 1, m);
    assert(a < b) by (nonlinear_arith)
        requires
            a == units(m - 1) * d,
            b == units(m) * d,
            units(m - 1) < units(m),
            d > 0,
    ;
    assert(q != m ==> distance(n, d, q) <= distance(n, d, m));
    assert(q != m - 1 ==> distance(n, d, q) <= distance(n, d, m - 1));
    if q < m - 1 {
        lemma_units_increase(q, m - 1);
        assert(c < a) by (nonlinear_arith)
            requires
                c == units(q) * d,
                a == units(m - 1) * d,
                units(q) < units(m - 1),
                d > 0,
        ;
    } else if q > m {
        lemma_units_increase(m, q);
        assert(b < c) by (nonlinear_arith)
            requires
                c == units(q) * d,
                b == units(m) * d,
                units(m) < units(q),
                d > 0,
        ;
    }
}

proof fn lemma_nearest_bits(n: int, d: int, q: int)
    requires
        d > 0,
    ensures
        rounds_to(n, d, q) <==> nearest_bits(n, d, q),
{
    let k = lemma_rounding_exists(n, d);
    if 0 < k {
        lemma_rounds_as_far(n, d, k, k);
    }
    if k + 1 < INFINITY {
        lemma_rounds_as_far(n, d, k, k + 1);
    }
    if rounds_to(n, d, q) {
        lemma_rounding_unique(n, d, q, k);
    }
    if nearest_bits(n, d, q) {
        if q > 0 {
            lemma_rounds_as_far(n, d, k, q);
        }
        if q + 1 < INFINITY {
            lemma_rounds_as_far(n, d, k, q + 1);
        }
        assert(q == k);
    }
}

/// A quotient of two counts reaches a threshold that is negative or zero, never
/// a NaN or infinity, and a positive one exactly if the quotient of the nearest
/// numbers to the counts is past the middle before it.
pub proof fn lemma_quotient_reaches(num: u64, den: u64, t: F32, r: bool)
    requires
        call_ensures(quotient_reaches, (num, den, t), r),
        den > 0,
    ensures
        t.bits == 0 || 0x8000_0000 <= t.bits <= 0xff80_0000 ==> r,
        0x7f80_0000 <= t.bits < 0x8000_0000 || t.bits > 0xff80_0000 ==> !r,
        0 < t.bits < 0x7f80_0000 ==> (r <==> exists|a: int, b: int|
            #![trigger value_of_bits(a), value_of_bits(b)]
            {
                &&& nearest_bits(num as int, 1, a)
                &&& nearest_bits(den as int, 1, b)
                &&& past_middle(value_of_bits(a), value_of_bits(b), t.bits as int)
            }),
{
    let (n, d) = (num as int, den as int);
    let a = lemma_rounding_exists(n, 1);
    let b = lemma_rounding_exists(d, 1);
    lemma_nearest_bits(n, 1, a);
    lemma_nearest_bits(d, 1, b);
    lemma_value_of_bits(a);
    lemma_value_of_bits(b);
    lemma_unit_bits();
    assert(b > 0) by {
        assert(value_of_bits(0) == 0 && value_of_bits(1) == 1);
        let u = pow2(149) as int;
        assert(2 * d * u > 1) by (nonlinear_arith)
            requires
                d >= 1,
                u >= 1,
        ;
        assert(past_middle(d, 1, 1));
    }
    lemma_units_increase(0, b);
    let q = lemma_rounding_exists(units(a), units(b));
    assert(quotient_at_least(n, d, t) == at_least(q, t)) by {
        if quotient_at_least(n, d, t) {
            let (a1, b1, q1) = choose|a1: int, b1: int, q1: int|
                #![trigger rounds_to(n, 1, a1), rounds_to(d, 1, b1), rounds_to(units(a1), units(b1), q1)]
                {
                    &&& rounds_to(n, 1, a1)
                    &&& rounds_to(d, 1, b1)
                    &&& rounds_to(units(a1), units(b1), q1)
                    &&& at_least(q1, t)
                };
            lemma_rounding_unique(n, 1, a, a1);
            lemma_rounding_unique(d, 1, b, b1);
            lemma_rounding_unique(units(a1), units(b1), q, q1);
        }
    }
    if 0 < t.bits < 0x7f80_0000 {
        let m = t.bits as int;
        lemma_rounds_as_far(units(a), units(b), q, m);
        if m <= q {
            lemma_units_increase(m, q);
        } else {
            lemma_units_increase(q, m);
        }
        if exists|a1: int, b1: int|
            #![trigger value_of_bits(a1), value_of_bits(b1)]
            {
                &&& nearest_bits(n, 1, a1)
                &&& nearest_bits(d, 1, b1)
                &&& past_middle(value_of_bits(a1), value_of_bits(b1), m)
            } {
            let (a1, b1) = choose|a1: int, b1: int|
                #![trigger value_of_bits(a1), value_of_bits(b1)]
                {
                    &&& nearest_bits(n, 1, a1)
                    &&& nearest_bits(d, 1, b1)
                    &&& past_middle(value_of_bits(a1), value_of_bits(b1), m)
                };
            lemma_nearest_bits(n, 1, a1);
            lemma_nearest_bits(d, 1, b1);
            lemma_rounding_unique(n, 1, a, a1);
            lemma_rounding_unique(d, 1, b, b1);
        }
    }
}

/// What zero and infinity reach, by the bits of the threshold.
pub proof fn lemma_ends_reach(t: F32, zero: bool, infinity: bool)
    requires
        call_ensures(zero_reaches, (t,), zero),
        call_ensures(infinity_reaches, (t,), infinity),
    ensures
        zero <==> t.bits == 0 || 0x8000_0000 <= t.bits <= 0xff80_0000,
        infinity <==> t.bits <= 0x7f80_0000 || 0x8000_0000 <= t.bits <= 0xff80_0000,
{
    lemma_unit_bits();
    if !t.is_negative() && t.is_finite() && t.magnitude() > 0 {
        lemma_units_increase(0, t.magnitude());
    }
}

/// What is equal, and what lies between zero and one, by the bits.
pub proof fn lemma_tests_by_bits(a: F32, b: F32, equal: bool, inside: bool)
    requires
        call_ensures(number_eq, (a, b), equal),
        call_ensures(within_unit_interval, (a,), inside),
    ensures
        equal <==> (a.bits == b.bits && a.bits % 0x8000_0000 <= 0x7f80_0000) || (a.bits % 0x8000_0000 == 0 && b.bits
            % 0x8000_0000 == 0),
        inside <==> a.bits <= 0x3f80_0000 || a.bits == 0x8000_0000,
{
    lemma_same_number_bits(a, b);
    lemma_unit_interval_bits(a);
}

} // verus!
