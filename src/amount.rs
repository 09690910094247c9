use vstd::prelude::*;

verus! {

/// The largest number of fractional digits an [`Amount`] may carry.
pub const MAX_SCALE: u32 = 28;

/// The largest magnitude of an [`Amount`]'s mantissa (2^96 - 1).
pub const MAX_MANTISSA: i128 = 79228162514264337593543950335;

/// Ten to the power `k`.
pub open spec fn pow10(k: nat) -> int
    decreases k,
{
    if k == 0 {
        1
    } else {
        10 * pow10((k - 1) as nat)
    }
}

/// `n / d` rounded to the nearest integer, halves rounded away from zero.
pub open spec fn round_div(n: int, d: int) -> int
    recommends
        d > 0,
{
    if n >= 0 {
        if 2 * (n % d) >= d {
            n / d + 1
        } else {
            n / d
        }
    } else {
        if 2 * ((-n) % d) >= d {
            -((-n) / d + 1)
        } else {
            -((-n) / d)
        }
    }
}

/// The mantissa of `mantissa / 10^scale` expressed with exactly two fractional digits,
/// rounded half away from zero when digits are dropped.
pub open spec fn cents_of(mantissa: int, scale: nat) -> int {
    if scale >= 2 {
        round_div(mantissa, pow10((scale - 2) as nat))
    } else {
        mantissa * pow10((2 - scale) as nat)
    }
}

/// A decimal number `mantissa / 10^scale`.
#[derive(Clone, Copy, Debug, PartialEq, Eq, Structural)]
pub struct Amount {
    pub mantissa: i128,
    pub scale: u32,
}

impl Amount {
    /// The mantissa fits in 96 bits and the scale is at most [`MAX_SCALE`].
    pub open spec fn wf(self) -> bool {
        -MAX_MANTISSA <= self.mantissa <= MAX_MANTISSA && self.scale <= MAX_SCALE
    }

    /// The amount `mantissa / 10^scale`.
    pub fn new(mantissa: i128, scale: u32) -> (r: Amount)
        ensures
            r.mantissa == mantissa,
            r.scale == scale,
    {
        Amount { mantissa, scale }
    }
}

pub proof fn lemma_pow10_pos(k: nat)
    ensures
        pow10(k) >= 1,
    decreases k,
{
    if k > 0 {
        lemma_pow10_pos((k - 1) as nat);
    }
}

pub proof fn lemma_pow10_mono(a: nat, b: nat)
    requires
        a <= b,
    ensures
        pow10(a) <= pow10(b),
    decreases b,
{
    if a < b {
        lemma_pow10_mono(a, (b - 1) as nat);
        lemma_pow10_pos((b - 1) as nat);
    }
}

pub proof fn lemma_pow10_add(a: nat, b: nat)
    ensures
        pow10(a + b) == pow10(a) * pow10(b),
    decreases b,
{
    if b > 0 {
        lemma_pow10_add(a, (b - 1) as nat);
        assert(pow10(a + b) == 10 * pow10((a + b - 1) as nat));
        let x = pow10(a);
        let y = pow10((b - 1) as nat);
        assert(10 * (x * y) == x * (10 * y)) by (nonlinear_arith);
    }
}

/// An exact quotient needs no rounding.
pub proof fn lemma_round_div_exact(q: int, d: int)
    requires
        d > 0,
    ensures
        round_div(q * d, d) == q,
{
    if q >= 0 {
        assert(q * d >= 0) by (nonlinear_arith)
            requires
                q >= 0,
                d > 0,
        ;
        vstd::arithmetic::div_mod::lemma_mod_multiples_basic(q, d);
        vstd::arithmetic::div_mod::lemma_div_multiples_vanish(q, d);
        assert(d * q == q * d) by (nonlinear_arith);
    } else {
        assert(-(q * d) == (-q) * d) by (nonlinear_arith);
        assert((-q) * d > 0) by (nonlinear_arith)
            requires
                q < 0,
                d > 0,
        ;
        vstd::arithmetic::div_mod::lemma_mod_multiples_basic(-q, d);
        vstd::arithmetic::div_mod::lemma_div_multiples_vanish(-q, d);
        assert(d * (-q) == (-q) * d) by (nonlinear_arith);
        assert(-(q * d) == (-q) * d);
    }
}

pub proof fn lemma_pow10_max_scale()
    ensures
        pow10(MAX_SCALE as nat) == 10000000000000000000000000000,
{
    reveal_with_fuel(pow10, 30);
}

/// The largest power of ten that an `i128` holds is `10^MAX_POW10`.
pub const MAX_POW10: u32 = 38;

/// Ten to the power `k`, for `k` up to [`MAX_POW10`].
pub fn pow10_exec(k: u32) -> (r: i128)
    requires
        k <= MAX_POW10,
    ensures
        r == pow10(k as nat),
        1 <= r <= pow10(MAX_POW10 as nat),
{
    let mut r: i128 = 1;
    let mut i: u32 = 0;
    proof {
        lemma_pow10_mono(0, MAX_POW10 as nat);
        reveal_with_fuel(pow10, 40);
        assert(pow10(MAX_POW10 as nat) == 100000000000000000000000000000000000000);
    }
    while i < k
        invariant
            i <= k <= MAX_POW10,
            r == pow10(i as nat),
            r >= 1,
            pow10(MAX_POW10 as nat) == 100000000000000000000000000000000000000,
        decreases k - i,
    {
        proof {
            lemma_pow10_mono((i + 1) as nat, MAX_POW10 as nat);
            assert(pow10((i + 1) as nat) == 10 * pow10(i as nat));
        }
        r = r * 10;
        i = i + 1;
    }
    proof {
        lemma_pow10_pos(k as nat);
        lemma_pow10_mono(k as nat, MAX_POW10 as nat);
    }
    r
}

/// `n / d` rounded half away from zero.
pub fn round_div_exec(n: i128, d: i128) -> (r: i128)
    requires
        d > 0,
        n > i128::MIN,
    ensures
        r == round_div(n as int, d as int),
{
    if n >= 0 {
        let q = n / d;
        let m = n % d;
        if m >= d - m {
            assert(d >= 2);
            assert(q <= n / 2) by (nonlinear_arith)
                requires
                    q == n / d,
                    d >= 2,
                    n >= 0,
            ;
            q + 1
        } else {
            q
        }
    } else {
        let p = -n;
        let q = p / d;
        let m = p % d;
        if m >= d - m {
            assert(d >= 2);
            assert(q <= p / 2) by (nonlinear_arith)
                requires
                    q == p / d,
                    d >= 2,
                    p >= 0,
            ;
            -(q + 1)
        } else {
            -q
        }
    }
}

proof fn lemma_round_div_small(n: int, d: int)
    requires
        d > 0,
        2 * n < d,
        2 * (-n) < d,
    ensures
        round_div(n, d) == 0,
{
    if n >= 0 {
        vstd::arithmetic::div_mod::lemma_small_mod(n as nat, d as nat);
        vstd::arithmetic::div_mod::lemma_basic_div(n, d);
    } else {
        vstd::arithmetic::div_mod::lemma_small_mod((-n) as nat, d as nat);
        vstd::arithmetic::div_mod::lemma_basic_div(-n, d);
    }
}

/// The two-digit mantissa of `mantissa / 10^scale` ([`cents_of`]), or `None` when its magnitude
/// exceeds [`MAX_MANTISSA`].
pub fn cents_exec(mantissa: i128, scale: u32) -> (r: Option<i128>)
    requires
        mantissa > i128::MIN,
    ensures
        match r {
            Some(c) => c == cents_of(mantissa as int, scale as nat),
            None => true,
        },
        r is Some <==> -MAX_MANTISSA <= cents_of(mantissa as int, scale as nat) <= MAX_MANTISSA,
{
    let c: i128;
    if scale >= 2 {
        let k: u32 = scale - 2;
        if k > MAX_POW10 {
            proof {
                reveal_with_fuel(pow10, 40);
                assert(pow10(39) == 1000000000000000000000000000000000000000);
                lemma_pow10_mono(39, k as nat);
                lemma_round_div_small(mantissa as int, pow10(k as nat));
            }
            c = 0;
        } else {
            let d = pow10_exec(k);
            c = round_div_exec(mantissa, d);
        }
    } else {
        let d = pow10_exec(2 - scale);
        match mantissa.checked_mul(d) {
            Some(p) => {
                c = p;
            },
            None => {
                return None;
            },
        }
    }
    if -MAX_MANTISSA <= c && c <= MAX_MANTISSA {
        Some(c)
    } else {
        None
    }
}

} // verus!
