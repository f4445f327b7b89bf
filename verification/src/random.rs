//! The Park–Miller generator that drives every random draw of the workload.
use vstd::prelude::*;

verus! {

/// The modulus of the generator, `2^31 - 1`.
pub const MODULUS: i64 = 2147483647;

/// The multiplier of the generator.
pub const MULTIPLIER: i64 = 16807;

/// Draws in `[0, 1)` are taken with this many bits: a draw is `k / 2^20`.
pub const FRACTION_UNITS: i64 = 1048576;

/// Probabilities in the configuration are given in parts per million.
pub const PARTS_PER_MILLION: i64 = 1000000;

/// `2^n`.
pub open spec fn pow2n(n: nat) -> nat
    decreases n,
{
    if n == 0 {
        1
    } else {
        2 * pow2n((n - 1) as nat)
    }
}

/// Rust's `%` on integers: the remainder takes the sign of the dividend.
pub open spec fn trunc_rem(a: int, m: int) -> int {
    if a >= 0 {
        a % m
    } else {
        -((-a) % m)
    }
}

/// The state that `Random::new(seed)` starts from.
pub open spec fn seed_state(seed: int) -> int {
    let s = trunc_rem(seed, MODULUS as int);
    if s <= 0 {
        s + (MODULUS - 1)
    } else {
        s
    }
}

/// One step of the generator.
pub open spec fn lcg_step(state: int) -> int {
    (state * MULTIPLIER) % (MODULUS as int)
}

/// The numerator, over `2^20`, of the draw in `[0, 1)` made from a fresh state.
pub open spec fn fraction_of(state: int) -> int {
    state % (FRACTION_UNITS as int)
}

/// Whether a draw `k / 2^20` falls under the probability `num / den`.
pub open spec fn draw_below(k: int, num: int, den: int) -> bool {
    k * den < num * (FRACTION_UNITS as int)
}

/// How many low bits an IEEE double drops when it holds the integer `x`.
pub open spec fn excess_bits(x: nat) -> nat
    decreases x,
{
    if x < 9007199254740992 {
        0
    } else {
        1 + excess_bits(x / 2)
    }
}

/// The integer `x` rounded to the nearest double, ties to even.
pub open spec fn round_to_double(x: nat) -> nat {
    let s = excess_bits(x);
    if s == 0 {
        x
    } else {
        let p = pow2n(s);
        let q = x / p;
        let r = x % p;
        let h = p / 2;
        if r > h || (r == h && q % 2 == 1) {
            (q + 1) * p
        } else {
            q * p
        }
    }
}

/// The least `e` from `from` on with `a * 2^e >= 2^52 * b` (searching no further than 200).
pub open spec fn ratio_scale_from(a: nat, b: nat, from: nat) -> nat
    decreases 200 - from,
{
    if from >= 200 || a * pow2n(from) >= pow2n(52) * b {
        from
    } else {
        ratio_scale_from(a, b, from + 1)
    }
}

/// For `0 < a / b < 2^52`: the exponent `e` that makes the double nearest `a / b` a
/// 53-bit mantissa over `2^e`.
pub open spec fn ratio_scale(a: nat, b: nat) -> nat {
    ratio_scale_from(a, b, 0)
}

/// The mantissa of the double nearest `a / b`, over `2^ratio_scale(a, b)`: `a * 2^e / b`
/// rounded half to even, as an IEEE division rounds.
pub open spec fn ratio_mantissa(a: nat, b: nat) -> nat {
    let n = a * pow2n(ratio_scale(a, b));
    let q = n / b;
    let r = n % b;
    if 2 * r > b || (2 * r == b && q % 2 == 1) {
        q + 1
    } else {
        q
    }
}

pub proof fn lemma_pow2n_step(n: nat)
    ensures
        pow2n(n + 1) == 2 * pow2n(n),
{
}

proof fn lemma_pow2n_mono(m: nat, n: nat)
    requires
        m <= n,
    ensures
        pow2n(m) <= pow2n(n),
    decreases n,
{
    if m < n {
        lemma_pow2n_mono(m, (n - 1) as nat);
    }
}

proof fn lemma_pow2n_big()
    ensures
        pow2n(52) == 4503599627370496,
        pow2n(53) == 9007199254740992,
        pow2n(83) == 9671406556917033397649408,
        pow2n(84) == 19342813113834066795298816,
{
    reveal_with_fuel(pow2n, 85);
}

/// The double nearest `a / b`: its mantissa and the power of two it stands over.
pub fn nearest_ratio(a: u64, b: u64) -> (r: (u128, u128))
    requires
        0 < a <= 0x80000000,
        0 < b <= 0x80000000,
    ensures
        r.0 == ratio_mantissa(a as nat, b as nat),
        r.1 == pow2n(ratio_scale(a as nat, b as nat)),
        r.0 <= 9007199254740992,
        1 <= r.1 <= 19342813113834066795298816,
{
    proof {
        lemma_pow2n_big();
    }
    let mut p: u128 = 1;
    let ghost mut e: nat = 0;
    let big: u128 = 4503599627370496u128 * (b as u128);
    assert((a as int) * 1 <= 9007199254740992 * b);
    while (a as u128) * p < big
        invariant
            0 < a <= 0x80000000,
            0 < b <= 0x80000000,
            big == pow2n(52) * b,
            pow2n(52) == 4503599627370496,
            pow2n(83) == 9671406556917033397649408,
            p == pow2n(e),
            1 <= p <= 19342813113834066795298816,
            (a as int) * p <= 9007199254740992 * b,
            e <= 84,
            ratio_scale_from(a as nat, b as nat, 0) == ratio_scale_from(a as nat, b as nat, e),
        decreases 200 - e,
    {
        proof {
            assert((a as int) * (p * 2) <= 9007199254740992 * b) by (nonlinear_arith)
                requires
                    (a as int) * p < 4503599627370496 * b,
            ;
            assert(p < pow2n(83)) by (nonlinear_arith)
                requires
                    (a as int) * p < pow2n(52) * b,
                    a >= 1,
                    b <= 0x80000000,
                    pow2n(52) == 4503599627370496,
                    pow2n(83) == 9671406556917033397649408,
            ;
            if e >= 83 {
                lemma_pow2n_mono(83, e);
            }
            assert(ratio_scale_from(a as nat, b as nat, e) == ratio_scale_from(a as nat, b as nat, e + 1));
            lemma_pow2n_step(e);
            e = e + 1;
        }
        p = p * 2;
    }
    proof {
        assert(ratio_scale_from(a as nat, b as nat, e) == e);
        assert(p <= pow2n(84) && (a as int) * p <= 2 * pow2n(52) * b) by (nonlinear_arith)
            requires
                (a as int) * p <= 9007199254740992 * b,
                a >= 1,
                b <= 0x80000000,
                pow2n(52) == 4503599627370496,
                pow2n(84) == 19342813113834066795298816,
        ;
    }
    let n: u128 = (a as u128) * p;
    let q: u128 = n / (b as u128);
    let rem: u128 = n % (b as u128);
    proof {
        assert(q <= 9007199254740992) by (nonlinear_arith)
            requires
                q == (n as int) / (b as int),
                n <= 2 * 4503599627370496 * b,
                b >= 1,
        ;
    }
    let m: u128 = if 2 * rem > (b as u128) || (2 * rem == (b as u128) && q % 2 == 1) {
        proof {
            if q == 9007199254740992 {
                assert(rem == 0) by (nonlinear_arith)
                    requires
                        q == (n as int) / (b as int),
                        rem == (n as int) % (b as int),
                        n <= 2 * 4503599627370496 * b,
                        q == 9007199254740992,
                        b >= 1,
                {
                    vstd::arithmetic::div_mod::lemma_fundamental_div_mod(n as int, b as int);
                }
            }
        }
        q + 1
    } else {
        q
    };
    (m, p)
}

/// `x` rounded to the nearest double, ties to even.
pub fn round_double(x: u128) -> (r: u128)
    requires
        x < 0x4000000000000000000000,
    ensures
        r == round_to_double(x as nat),
        r <= 2 * x + 1,
{
    let ghost s: nat = 0;
    let mut p: u128 = 1;
    proof {
        lemma_pow2n_values();
    }
    while x / p >= 9007199254740992
        invariant
            p == pow2n(s),
            1 <= p,
            p <= x + 1,
            x < 0x4000000000000000000000,
            excess_bits(x as nat) == s + excess_bits((x / p) as nat),
            pow2n(53) == 9007199254740992,
        decreases x - p,
    {
        proof {
            let y = (x / p) as nat;
            assert(excess_bits(y) == 1 + excess_bits(y / 2));
            vstd::arithmetic::div_mod::lemma_div_denominator(x as int, p as int, 2);
            assert(p * 2 <= x) by (nonlinear_arith)
                requires
                    x / p >= 9007199254740992,
                    p >= 1,
            {
                vstd::arithmetic::div_mod::lemma_fundamental_div_mod(x as int, p as int);
            }
        }
        p = p * 2;
        proof {
            s = s + 1;
        }
    }
    let q: u128 = x / p;
    let rem: u128 = x % p;
    let rounded: u128 = if p == 1 {
        x
    } else {
        let h: u128 = p / 2;
        proof {
            vstd::arithmetic::div_mod::lemma_fundamental_div_mod(x as int, p as int);
            assert((q + 1) * p == q * p + p) by (nonlinear_arith);
            assert(q * p == p * q) by (nonlinear_arith);
            assert(q * p <= x);
        }
        if rem > h || (rem == h && q % 2 == 1) {
            (q + 1) * p
        } else {
            q * p
        }
    };
    proof {
        assert(excess_bits((x / p) as nat) == 0);
        if s == 0 {
            assert(p == 1);
        } else {
            assert(p != 1) by {
                lemma_pow2n_ge2(s);
            }
        }
    }
    rounded
}

/// `floor((k / 2^20)^2 * under)` as doubles compute it: the square is exact, the
/// product with `under` is rounded once to the nearest double.
pub open spec fn square_weighted(k: nat, under: nat) -> nat {
    round_to_double(k * k * under) / pow2n(40)
}

/// The state after, and the result of, `number(under)` from state `s`.
pub open spec fn number_draw(s: int, under: int) -> (int, int) {
    if under <= 0 {
        (s, 0)
    } else {
        (lcg_step(s), lcg_step(s) % under)
    }
}

/// The state after, and the result of, `number_square_weighted_to_low(under)` from state `s`.
pub open spec fn weighted_draw(s: int, under: int) -> (int, int) {
    if under <= 0 {
        (s, 0)
    } else {
        (lcg_step(s), square_weighted(fraction_of(lcg_step(s)) as nat, under as nat) as int)
    }
}

/// The state after, and the result of, `chance(ppm)` from state `s`.
pub open spec fn chance_draw(s: int, ppm: int) -> (int, bool) {
    if ppm == 0 {
        (s, false)
    } else {
        (lcg_step(s), draw_below(fraction_of(lcg_step(s)), ppm, PARTS_PER_MILLION as int))
    }
}

/// The state after, and the result of, `chance_fraction(num, den)` from state `s`.
pub open spec fn fraction_draw(s: int, num: int, den: int) -> (int, bool) {
    if num == 0 {
        (s, false)
    } else {
        (lcg_step(s), draw_below(fraction_of(lcg_step(s)), num, den))
    }
}

/// Park–Miller generator (`seed * 16807 % 2147483647`), the same as StyleBench's `Random`.
#[derive(Debug)]
pub struct Random {
    seed: i32,
}

impl Clone for Random {
    /// A generator in the same state, which draws the same numbers.
    fn clone(&self) -> (r: Self)
        ensures
            r@ == self@,
    {
        proof {
            use_type_invariant(self);
        }
        Random { seed: self.seed }
    }
}

impl View for Random {
    type V = int;

    closed spec fn view(&self) -> int {
        self.seed as int
    }
}

impl Random {
    #[verifier::type_invariant]
    spec fn inv(&self) -> bool {
        0 <= self.seed < MODULUS
    }

    /// The current state, which always lies in `[0, 2^31 - 2]`.
    pub fn state(&self) -> (r: i32)
        ensures
            r as int == self@,
            0 <= r < MODULUS,
    {
        proof {
            use_type_invariant(self);
        }
        self.seed
    }

    /// A generator that starts from `seed`, folded into `[0, 2^31 - 2]`.
    pub fn new(seed: i32) -> (r: Self)
        ensures
            r@ == seed_state(seed as int),
    {
        let mut s: i32 = seed % 2147483647;
        if s <= 0 {
            s = s + 2147483646;
        }
        Random { seed: s }
    }

    /// Advances the generator and returns its new state.
    pub fn next(&mut self) -> (r: i32)
        ensures
            final(self)@ == lcg_step(old(self)@),
            r as int == final(self)@,
            0 <= r < MODULUS,
    {
        proof {
            use_type_invariant(&*self);
        }
        let s: i64 = self.seed as i64;
        let n: i64 = (s * 16807) % 2147483647;
        self.seed = n as i32;
        self.seed
    }

    /// A draw in `[0, 1)`, as its numerator `k` over `2^20`: the draw is `k / 2^20`.
    pub fn under_one(&mut self) -> (k: i32)
        ensures
            final(self)@ == lcg_step(old(self)@),
            k as int == fraction_of(final(self)@),
            0 <= k < FRACTION_UNITS,
    {
        let n = self.next();
        n % 1048576
    }

    /// `true` with probability `num / den`. A zero probability makes no draw.
    pub fn chance_fraction(&mut self, num: i64, den: i64) -> (b: bool)
        requires
            0 < den <= 0x80000000,
            -0x100000000 <= num <= 0x100000000,
        ensures
            (final(self)@, b) == fraction_draw(old(self)@, num as int, den as int),
            num == 0 ==> final(self)@ == old(self)@ && !b,
            num != 0 ==> final(self)@ == lcg_step(old(self)@) && b == draw_below(
                fraction_of(final(self)@),
                num as int,
                den as int,
            ),
    {
        if num == 0 {
            return false;
        }
        let k = self.under_one();
        proof {
            assert((k as i64) * den <= 1048576 * 2147483648) by (nonlinear_arith)
                requires
                    0 <= k < 1048576,
                    0 < den <= 2147483648,
            ;
        }
        (k as i64) * den < num * 1048576
    }

    /// `true` with probability `ppm / 1_000_000`. A zero probability makes no draw.
    pub fn chance(&mut self, ppm: i32) -> (b: bool)
        ensures
            ppm == 0 ==> final(self)@ == old(self)@ && !b,
            ppm != 0 ==> final(self)@ == lcg_step(old(self)@) && b == draw_below(
                fraction_of(final(self)@),
                ppm as int,
                PARTS_PER_MILLION as int,
            ),
    {
        self.chance_fraction(ppm as i64, 1000000)
    }

    /// A number in `[0, under)`; `0`, with no draw, when `under <= 0`.
    pub fn number(&mut self, under: i32) -> (r: i32)
        ensures
            under <= 0 ==> final(self)@ == old(self)@ && r == 0,
            under > 0 ==> final(self)@ == lcg_step(old(self)@) && r as int == final(self)@ % (
            under as int),
            under > 0 ==> 0 <= r < under,
    {
        if under <= 0 {
            return 0;
        }
        let n = self.next();
        n % under
    }

    /// A number in `[0, under)` weighted to the low end: `floor(u^2 * under)` for a
    /// draw `u` in `[0, 1)`; `0`, with no draw, when `under <= 0`.
    pub fn number_square_weighted_to_low(&mut self, under: i32) -> (r: i32)
        ensures
            under <= 0 ==> final(self)@ == old(self)@ && r == 0,
            under > 0 ==> final(self)@ == lcg_step(old(self)@) && r as nat == square_weighted(
                fraction_of(final(self)@) as nat,
                under as nat,
            ),
            under > 0 ==> 0 <= r < under,
    {
        if under <= 0 {
            return 0;
        }
        let k = self.under_one();
        let v = square_weighted_exec(k as u32, under as u32);
        v as i32
    }
}

/// `floor(round_to_double(k^2 * under) / 2^40)`, computed in 128-bit integers.
fn square_weighted_exec(k: u32, under: u32) -> (r: u32)
    requires
        k < FRACTION_UNITS,
        0 < under < 2147483648,
    ensures
        r as nat == square_weighted(k as nat, under as nat),
        r < under,
{
    proof {
        assert((k as int) * (k as int) < 0x10000000000) by (nonlinear_arith)
            requires
                k < 1048576,
        ;
        assert((k as int) * (k as int) * (under as int) < 0x800000000000000000) by (nonlinear_arith)
            requires
                (k as int) * (k as int) < 0x10000000000,
                under < 2147483648,
        ;
    }
    let x: u128 = (k as u128) * (k as u128) * (under as u128);
    proof {
        lemma_pow2n_values();
        assert(x < pow2n(71)) by (nonlinear_arith)
            requires
                x == (k as int) * (k as int) * (under as int),
                k < 1048576,
                under < 2147483648,
                pow2n(71) == 0x800000000000000000,
        ;
    }
    let ghost s: nat = 0;
    let mut p: u128 = 1;
    while x / p >= 9007199254740992
        invariant
            p == pow2n(s),
            1 <= p,
            p <= x + 1,
            x < pow2n(71),
            excess_bits(x as nat) == s + excess_bits((x / p) as nat),
            pow2n(53) == 9007199254740992,
            pow2n(71) == 0x800000000000000000,
        decreases x - p,
    {
        proof {
            let y = (x / p) as nat;
            assert(excess_bits(y) == 1 + excess_bits(y / 2));
            vstd::arithmetic::div_mod::lemma_div_denominator(x as int, p as int, 2);
            assert(p * 2 <= x) by (nonlinear_arith)
                requires
                    x / p >= 9007199254740992,
                    p >= 1,
            {
                vstd::arithmetic::div_mod::lemma_fundamental_div_mod(x as int, p as int);
            }
        }
        p = p * 2;
        proof {
            s = s + 1;
        }
    }
    let q: u128 = x / p;
    let rem: u128 = x % p;
    let rounded: u128 = if p == 1 {
        x
    } else {
        let h: u128 = p / 2;
        proof {
            vstd::arithmetic::div_mod::lemma_fundamental_div_mod(x as int, p as int);
            assert((q + 1) * p == q * p + p) by (nonlinear_arith);
            assert(q * p == p * q) by (nonlinear_arith);
            assert(q * p <= x);
            assert((q + 1) * p <= 2 * 0x800000000000000000);
        }
        if rem > h || (rem == h && q % 2 == 1) {
            (q + 1) * p
        } else {
            q * p
        }
    };
    proof {
        assert(excess_bits((x / p) as nat) == 0);
        if s == 0 {
            assert(p == 1);
        } else {
            assert(p != 1) by {
                lemma_pow2n_ge2(s);
            }
        }
        assert(rounded == round_to_double(x as nat));
        lemma_rounded_bound(k as nat, under as nat, x as nat, s, p as nat);
    }
    let r: u128 = rounded / 1099511627776;
    proof {
        assert(r < under);
    }
    r as u32
}

proof fn lemma_pow2n_ge2(s: nat)
    requires
        s >= 1,
    ensures
        pow2n(s) >= 2,
    decreases s,
{
    reveal_with_fuel(pow2n, 2);
    if s > 1 {
        lemma_pow2n_ge2((s - 1) as nat);
    }
}

proof fn lemma_pow2n_values()
    ensures
        pow2n(40) == 1099511627776,
        pow2n(53) == 9007199254740992,
        pow2n(71) == 0x800000000000000000,
{
    reveal_with_fuel(pow2n, 72);
}

proof fn lemma_rounded_bound(k: nat, under: nat, x: nat, s: nat, p: nat)
    requires
        k < FRACTION_UNITS,
        0 < under < 2147483648,
        x == k * k * under,
        p == pow2n(s),
        p >= 1,
        s == excess_bits(x),
        x / p < pow2n(53),
        pow2n(53) == 9007199254740992,
        pow2n(40) == 1099511627776,
    ensures
        round_to_double(x) / pow2n(40) < under,
{
    let r = round_to_double(x);
    // rounding adds at most half a unit of the last place
    vstd::arithmetic::div_mod::lemma_fundamental_div_mod(x as int, p as int);
    if s > 0 {
        lemma_excess_lower(x, s);
        let q = x / p;
        let rem = x % p;
        assert(x == p * q + rem);
        assert((q + 1) * p == q * p + p) by (nonlinear_arith);
        assert(p * q == q * p) by (nonlinear_arith);
        assert(r <= x + p / 2);
        // x >= 2^52 * p, so p / 2 <= x / 2^53
        assert(p * 4503599627370496 <= x);
        assert(x <= 1099509530625 * under) by (nonlinear_arith)
            requires
                x == k * k * under,
                k <= 1048575,
        ;
        assert(p <= under) by (nonlinear_arith)
            requires
                p * 4503599627370496 <= x,
                x <= 1099509530625 * under,
        ;
        assert(r < under * 1099511627776);
    } else {
        assert(x <= 1099509530625 * under) by (nonlinear_arith)
            requires
                x == k * k * under,
                k <= 1048575,
        ;
    }
    assert(r < under * 1099511627776);
    assert(r / 1099511627776 < under) by (nonlinear_arith)
        requires
            r < under * 1099511627776,
    ;
}

/// When a double drops `s > 0` bits of `x`, `x` is at least `2^52 * 2^s`.
proof fn lemma_excess_lower(x: nat, s: nat)
    requires
        s == excess_bits(x),
        s > 0,
        pow2n(53) == 9007199254740992,
    ensures
        pow2n(s) * 4503599627370496 <= x,
    decreases x,
{
    assert(x >= pow2n(53));
    let y = x / 2;
    if s == 1 {
        reveal_with_fuel(pow2n, 2);
        assert(pow2n(1) == 2);
    } else {
        lemma_excess_lower(y, (s - 1) as nat);
        assert(pow2n(s) == 2 * pow2n((s - 1) as nat));
    }
}

/// A double keeps at most 53 bits: `x` over the dropped bits is below `2^53`.
proof fn lemma_excess_upper(x: nat)
    ensures
        pow2n(excess_bits(x)) >= 1,
        x / pow2n(excess_bits(x)) < 9007199254740992,
    decreases x,
{
    if x >= 9007199254740992 {
        lemma_excess_upper(x / 2);
        let s = excess_bits(x / 2);
        assert(excess_bits(x) == s + 1);
        assert(pow2n(s + 1) == 2 * pow2n(s));
        vstd::arithmetic::div_mod::lemma_div_denominator(x as int, 2, pow2n(s) as int);
        assert(x / pow2n(s + 1) == (x / 2) / pow2n(s)) by {
            assert(2 * pow2n(s) == pow2n(s + 1));
        }
    }
}

/// A draw weighted to the low end stays below its bound.
pub proof fn lemma_weighted_below(s: int, under: int)
    requires
        0 < under < 2147483648,
    ensures
        0 <= weighted_draw(s, under).1 < under,
{
    let k = fraction_of(lcg_step(s)) as nat;
    let x = k * k * (under as nat);
    lemma_excess_upper(x);
    lemma_pow2n_values();
    lemma_rounded_bound(k, under as nat, x, excess_bits(x), pow2n(excess_bits(x)));
}

/// Rounding to a double moves an integer by at most `x / 2^53`.
pub proof fn lemma_round_close(x: nat)
    ensures
        round_to_double(x) as int * 9007199254740992 <= x as int * 9007199254740993,
        x as int * 9007199254740991 <= round_to_double(x) as int * 9007199254740992,
{
    let s = excess_bits(x);
    lemma_pow2n_values();
    if s > 0 {
        let p = pow2n(s);
        lemma_excess_lower(x, s);
        lemma_pow2n_ge2(s);
        assert(p % 2 == 0) by {
            assert(pow2n(s) == 2 * pow2n((s - 1) as nat));
        }
        let q = x / p;
        let r = x % p;
        let h = p / 2;
        vstd::arithmetic::div_mod::lemma_fundamental_div_mod(x as int, p as int);
        assert(x == p * q + r);
        assert(0 <= r < p);
        let rd = round_to_double(x);
        if r > h || (r == h && q % 2 == 1) {
            assert(rd == (q + 1) * p);
            assert((q + 1) * p == p * q + p) by (nonlinear_arith);
            assert(rd - x == p - r);
            assert(p - r <= h);
        } else {
            assert(rd == q * p);
            assert(q * p == p * q) by (nonlinear_arith);
            assert(x - rd == r);
        }
        assert(2 * h == p);
        assert(p * 4503599627370496 <= x);
    }
}

/// The search for the scale of `a / b` stops where `a * 2^e` first reaches `2^52 * b`,
/// and then `a * 2^e` is at most `2^53 * b`.
proof fn lemma_ratio_scale_from(a: nat, b: nat, e: nat)
    requires
        0 < a <= 0x80000000,
        0 < b <= 0x80000000,
        a * pow2n(e) <= 2 * pow2n(52) * b,
        e <= 84,
    ensures
        ratio_scale_from(a, b, e) <= 84,
        pow2n(52) * b <= a * pow2n(ratio_scale_from(a, b, e)),
        a * pow2n(ratio_scale_from(a, b, e)) <= 2 * pow2n(52) * b,
    decreases 200 - e,
{
    lemma_pow2n_big();
    if !(a * pow2n(e) >= pow2n(52) * b) {
        if e >= 83 {
            lemma_pow2n_mono(83, e);
            assert(a * pow2n(e) >= pow2n(83)) by (nonlinear_arith)
                requires
                    a >= 1,
                    pow2n(e) >= pow2n(83),
            ;
            assert(false) by (nonlinear_arith)
                requires
                    a * pow2n(e) >= pow2n(83),
                    a * pow2n(e) < pow2n(52) * b,
                    b <= 0x80000000,
                    pow2n(52) == 4503599627370496,
                    pow2n(83) == 9671406556917033397649408,
            ;
        }
        lemma_pow2n_step(e);
        assert(a * pow2n(e + 1) == 2 * (a * pow2n(e))) by (nonlinear_arith)
            requires
                pow2n(e + 1) == 2 * pow2n(e),
        ;
        assert(a * pow2n(e + 1) <= 2 * pow2n(52) * b) by (nonlinear_arith)
            requires
                a * pow2n(e + 1) == 2 * (a * pow2n(e)),
                a * pow2n(e) < pow2n(52) * b,
        ;
        lemma_ratio_scale_from(a, b, e + 1);
    }
}

/// The double nearest `a / b` (for `0 < a, b <= 2^31`): its scale `2^e` makes `a * 2^e`
/// lie between `2^52 * b` and `2^53 * b`, and its mantissa is within `b` of `a * 2^e`
/// once multiplied by `b`.
pub proof fn lemma_nearest_ratio_close(a: nat, b: nat)
    requires
        0 < a <= 0x80000000,
        0 < b <= 0x80000000,
    ensures
        pow2n(52) * b <= a * pow2n(ratio_scale(a, b)),
        a * pow2n(ratio_scale(a, b)) <= 2 * pow2n(52) * b,
        pow2n(52) == 4503599627370496,
        a * pow2n(ratio_scale(a, b)) - b < ratio_mantissa(a, b) * b,
        ratio_mantissa(a, b) * b <= a * pow2n(ratio_scale(a, b)) + b,
{
    lemma_pow2n_big();
    assert(a * pow2n(0) <= 2 * pow2n(52) * b) by (nonlinear_arith)
        requires
            a <= 0x80000000,
            b >= 1,
            pow2n(0) == 1,
            pow2n(52) == 4503599627370496,
    ;
    lemma_ratio_scale_from(a, b, 0);
    let n = a * pow2n(ratio_scale(a, b));
    let q = n / b;
    let r = n % b;
    vstd::arithmetic::div_mod::lemma_fundamental_div_mod(n as int, b as int);
    assert(n == b * q + r);
    assert(b * q == q * b) by (nonlinear_arith);
    assert((q + 1) * b == q * b + b) by (nonlinear_arith);
}

} // verus!
