//! Single-precision numbers as bit patterns, with arithmetic done in integers.
//!
//! A run must be reproducible to the last bit from its seed, whatever machine
//! it is resumed on. Every quantity of the simulation is therefore a `Num`: the
//! 32 bits of an IEEE 754 binary32 value, and every operation is defined as the
//! exact mathematical result rounded to the nearest representable value, ties
//! to even. Finite values are counted in units of 2^-149, the smallest positive
//! one, so the model of a value is an integer.

use vstd::arithmetic::power2::*;
use vstd::prelude::*;

verus! {

/// The bits of a single-precision number.
#[derive(Debug, Clone, Copy, PartialEq, Eq, Structural)]
pub struct Num {
    pub bits: u32,
}

#[verifier::inline]
pub open spec fn num_spec(bits: u32) -> Num {
    Num { bits }
}

/// The number with the given bits.
#[verifier::when_used_as_spec(num_spec)]
pub fn num(bits: u32) -> (r: Num)
    ensures
        r == num_spec(bits),
{
    Num { bits }
}

/// 0.0
pub const NOTHING: u32 = 0;

/// 1.0
pub const ONE: u32 = 0x3F80_0000;

/// 100.0
pub const FULL: u32 = 0x42C8_0000;

/// The bit pattern of infinity, without its sign.
pub const INF_BITS: u32 = 0x7F80_0000;

/// The quiet not-a-number pattern that invalid operations produce.
pub const NAN_BITS: u32 = 0x7FC0_0000;

pub const SIGN_BIT: u32 = 0x8000_0000;

/// How many bits a natural number takes.
pub open spec fn bit_length(n: nat) -> nat
    decreases n,
{
    if n == 0 {
        0
    } else {
        1 + bit_length(n / 2)
    }
}

/// The larger of an integer and zero.
pub open spec fn floor_at_zero(i: int) -> nat {
    if i < 0 {
        0
    } else {
        i as nat
    }
}

/// `p / q` rounded to the nearest integer, ties to even.
pub open spec fn half_even(p: nat, q: nat) -> nat {
    let whole = p / q;
    let rest = p % q;
    if 2 * rest > q || (2 * rest == q && whole % 2 == 1) {
        whole + 1
    } else {
        whole
    }
}

/// The magnitude bits nearest to `p / q` units: 24 significant bits, ties to
/// even, infinity where the exponent range ends.
pub open spec fn nearest(p: nat, q: nat) -> nat {
    let drop = floor_at_zero(bit_length(p / q) - 24);
    let coded = drop * 0x80_0000 + half_even(p, q * pow2(drop));
    if coded < INF_BITS {
        coded
    } else {
        INF_BITS as nat
    }
}

proof fn lemma_bit_length_bounds(n: nat)
    ensures
        n > 0 ==> pow2((bit_length(n) - 1) as nat) <= n,
        n > 0 ==> bit_length(n) > 0,
        n < pow2(bit_length(n)),
    decreases n,
{
    if n == 0 {
        lemma_pow2_pos(0);
    } else {
        lemma_bit_length_bounds(n / 2);
        lemma_pow2_unfold(bit_length(n));
        if n / 2 > 0 {
            lemma_pow2_unfold((bit_length(n) - 1) as nat);
        } else {
            lemma2_to64();
        }
    }
}

/// Whatever lies between two neighbouring powers of two has the length they give.
proof fn lemma_bit_length_unique(n: nat, l: nat)
    requires
        l > 0,
        pow2((l - 1) as nat) <= n < pow2(l),
    ensures
        bit_length(n) == l,
{
    lemma_bit_length_bounds(n);
    lemma_pow2_pos((l - 1) as nat);
    let m = bit_length(n);
    if m < l {
        if m < l - 1 {
            lemma_pow2_strictly_increases(m, (l - 1) as nat);
        }
    } else if m > l {
        if l < m - 1 {
            lemma_pow2_strictly_increases(l, (m - 1) as nat);
        }
    }
}

proof fn lemma_pow2_monotonic(a: nat, b: nat)
    requires
        a <= b,
    ensures
        pow2(a) <= pow2(b),
{
    if a < b {
        lemma_pow2_strictly_increases(a, b);
    }
}

/// The length of `p / q` when `p / q` lies in `[n, n + 1) * 2^(b - a)`.
proof fn lemma_ratio_length(p: nat, q: nat, n: nat, a: nat, b: nat)
    requires
        q > 0,
        n > 0,
        q * n * pow2(b) <= p * pow2(a),
        p * pow2(a) < q * (n + 1) * pow2(b),
    ensures
        bit_length(p / q) == floor_at_zero(bit_length(n) + b - a),
{
    let len = bit_length(n);
    lemma_bit_length_bounds(n);
    lemma_pow2_pos(a);
    lemma_pow2_pos(b);
    let w = p / q;
    assert(q * w <= p < q * (w + 1)) by (nonlinear_arith)
        requires
            q > 0,
            w == p / q,
    ;
    if len + b > a {
        let l = (len + b - a) as nat;
        // 2^(l-1) <= p/q < 2^l
        lemma_pow2_adds((len - 1) as nat, b);
        lemma_pow2_adds((l - 1) as nat, a);
        lemma_pow2_adds(len, b);
        lemma_pow2_adds(l, a);
        let lo = pow2((l - 1) as nat) as int;
        let hi = pow2(l) as int;
        let pa = pow2(a) as int;
        let pb = pow2(b) as int;
        let nl = pow2((len - 1) as nat) as int;
        let nh = pow2(len) as int;
        assert(nl * pb == lo * pa && nh * pb == hi * pa);
        assert(q * lo <= p) by (nonlinear_arith)
            requires
                q * n * pb <= p * pa,
                nl * pb == lo * pa,
                nl <= n,
                pa > 0,
                pb > 0,
                q > 0,
        {
            assert(q * nl * pb <= q * n * pb) by (nonlinear_arith)
                requires
                    nl <= n,
                    pb > 0,
                    q > 0,
            ;
            assert(q * nl * pb == q * lo * pa) by (nonlinear_arith)
                requires
                    nl * pb == lo * pa,
            ;
            assert(q * lo <= p) by (nonlinear_arith)
                requires
                    q * lo * pa <= p * pa,
                    pa > 0,
            ;
        }
        assert(p < q * hi) by (nonlinear_arith)
            requires
                p * pa < q * (n + 1) * pb,
                nh * pb == hi * pa,
                n + 1 <= nh,
                pa > 0,
                pb > 0,
                q > 0,
        {
            assert(q * (n + 1) * pb <= q * nh * pb) by (nonlinear_arith)
                requires
                    n + 1 <= nh,
                    pb > 0,
                    q > 0,
            ;
            assert(q * nh * pb == q * hi * pa) by (nonlinear_arith)
                requires
                    nh * pb == hi * pa,
            ;
            assert(p < q * hi) by (nonlinear_arith)
                requires
                    p * pa < q * hi * pa,
                    pa > 0,
            ;
        }
        assert(lo <= w < hi) by (nonlinear_arith)
            requires
                q * lo <= p,
                p < q * hi,
                q * w <= p < q * (w + 1),
                q > 0,
        ;
        lemma_bit_length_unique(w, l);
    } else {
        // p/q < 2^len * 2^(b-a) <= 1
        lemma_pow2_adds(len, b);
        lemma_pow2_monotonic(len + b, a);
        let pa = pow2(a) as int;
        let pb = pow2(b) as int;
        let nh = pow2(len) as int;
        assert(p < q) by (nonlinear_arith)
            requires
                p * pa < q * (n + 1) * pb,
                nh * pb <= pa,
                n + 1 <= nh,
                pa > 0,
                pb > 0,
                q > 0,
        {
            assert(q * (n + 1) * pb <= q * nh * pb) by (nonlinear_arith)
                requires
                    n + 1 <= nh,
                    pb > 0,
                    q > 0,
            ;
            assert(q * nh * pb <= q * pa) by (nonlinear_arith)
                requires
                    nh * pb <= pa,
                    q > 0,
            ;
            assert(p < q) by (nonlinear_arith)
                requires
                    p * pa < q * pa,
                    pa > 0,
            ;
        }
        assert(w == 0) by (nonlinear_arith)
            requires
                p < q,
                w == p / q,
                p >= 0,
        ;
    }
}

/// Rounding `p / q` by rounding an approximation with a sticky bit: `n` holds
/// the leading bits and `inexact` says that something lies below them.
proof fn lemma_round_dropping(p: nat, q: nat, n: nat, a: nat, b: nat, inexact: bool, k: nat, d: nat)
    requires
        q > 0,
        d > 0,
        k + a == b + d,
        q * n * pow2(b) <= p * pow2(a),
        p * pow2(a) < q * (n + 1) * pow2(b),
        inexact <==> q * n * pow2(b) != p * pow2(a),
    ensures
        half_even(p, q * pow2(k)) == ({
            let whole = n / pow2(d);
            let rest = n % pow2(d);
            if 2 * rest > pow2(d) || (2 * rest == pow2(d) && (inexact || whole % 2 == 1)) {
                whole + 1
            } else {
                whole
            }
        }),
{
    lemma_pow2_pos(a);
    lemma_pow2_pos(b);
    lemma_pow2_pos(d);
    lemma_pow2_pos(k);
    lemma_pow2_adds(k, a);
    lemma_pow2_adds(b, d);
    lemma_pow2_unfold(d);
    let pa = pow2(a) as int;
    let pb = pow2(b) as int;
    let pd = pow2(d) as int;
    let pk = pow2(k) as int;
    assert(pk * pa == pb * pd);
    let whole = n as int / pd;
    let rest = n as int % pd;
    assert(n == pd * whole + rest && 0 <= rest < pd) by (nonlinear_arith)
        requires
            pd > 0,
            whole == n as int / pd,
            rest == n as int % pd,
    ;
    assert(whole >= 0) by (nonlinear_arith)
        requires
            n == pd * whole + rest,
            n >= 0,
            rest < pd,
            pd > 0,
    ;
    let u = q * pk;
    assert(u > 0) by (nonlinear_arith)
        requires
            u == q * pk,
            q > 0,
            pk > 0,
    ;
    // everything times pa: p*pa = qb * (n + theta), u*pa = qb * pd
    let qb = q * pb;
    assert(qb > 0) by (nonlinear_arith)
        requires
            qb == q * pb,
            q > 0,
            pb > 0,
    ;
    assert(u * pa == qb * pd) by (nonlinear_arith)
        requires
            u == q * pk,
            qb == q * pb,
            pk * pa == pb * pd,
    ;
    assert(q * n * pb == qb * n) by (nonlinear_arith)
        requires
            qb == q * pb,
    ;
    assert(q * (n + 1) * pb == qb * (n + 1)) by (nonlinear_arith)
        requires
            qb == q * pb,
    ;
    let x = p * pa;
    assert(qb * n <= x < qb * (n + 1));
    let wr = qb * rest;
    assert(qb * n == qb * pd * whole + wr) by (nonlinear_arith)
        requires
            n == pd * whole + rest,
            wr == qb * rest,
    ;
    assert(qb * (n + 1) == qb * n + qb) by (nonlinear_arith);
    assert(qb * pd * whole == u * whole * pa) by (nonlinear_arith)
        requires
            u * pa == qb * pd,
    ;
    // r = p - u * whole satisfies r * pa = x - u*whole*pa in [wr, wr + qb)
    let r = p - u * whole;
    assert(r * pa == x - u * whole * pa) by (nonlinear_arith)
        requires
            r == p - u * whole,
            x == p * pa,
    ;
    assert(wr <= r * pa < wr + qb);
    assert(r >= 0) by (nonlinear_arith)
        requires
            r * pa >= wr,
            wr == qb * rest,
            qb > 0,
            rest >= 0,
            pa > 0,
    ;
    assert(r < u) by (nonlinear_arith)
        requires
            r * pa < wr + qb,
            wr == qb * rest,
            u * pa == qb * pd,
            rest + 1 <= pd,
            qb > 0,
            pa > 0,
    {
        assert(qb * rest + qb <= qb * pd) by (nonlinear_arith)
            requires
                rest + 1 <= pd,
                qb > 0,
        ;
        assert(r < u) by (nonlinear_arith)
            requires
                r * pa < u * pa,
                pa > 0,
        ;
    }
    vstd::arithmetic::div_mod::lemma_fundamental_div_mod_converse(p as int, u, whole, r);
    assert(p as int / u == whole && p as int % u == r);
    // compare 2r with u
    if 2 * rest > pd || (2 * rest == pd && inexact) {
        assert(2 * r > u) by (nonlinear_arith)
            requires
                2 * rest > pd || (2 * rest == pd && r * pa > wr),
                r * pa >= wr,
                wr == qb * rest,
                u * pa == qb * pd,
                qb > 0,
                pa > 0,
        {
            if 2 * rest > pd {
                assert(2 * (qb * rest) > qb * pd) by (nonlinear_arith)
                    requires
                        2 * rest > pd,
                        qb > 0,
                ;
            } else {
                assert(2 * (qb * rest) == qb * pd) by (nonlinear_arith)
                    requires
                        2 * rest == pd,
                ;
            }
            assert((2 * r) * pa == 2 * (r * pa)) by (nonlinear_arith);
            assert(2 * r > u) by (nonlinear_arith)
                requires
                    (2 * r) * pa > u * pa,
                    pa > 0,
            ;
        }
    } else if 2 * rest == pd {
        assert(2 * r == u) by (nonlinear_arith)
            requires
                2 * rest == pd,
                r * pa == wr,
                wr == qb * rest,
                u * pa == qb * pd,
                pa > 0,
        {
            assert(2 * (qb * rest) == qb * pd) by (nonlinear_arith)
                requires
                    2 * rest == pd,
            ;
            assert((2 * r) * pa == 2 * (r * pa)) by (nonlinear_arith);
            assert(2 * r == u) by (nonlinear_arith)
                requires
                    (2 * r) * pa == u * pa,
                    pa > 0,
            ;
        }
    } else {
        assert(pd % 2 == 0);
        assert(2 * (rest + 1) <= pd);
        assert(2 * r < u) by (nonlinear_arith)
            requires
                2 * (rest + 1) <= pd,
                r * pa < wr + qb,
                wr == qb * rest,
                u * pa == qb * pd,
                qb > 0,
                pa > 0,
        {
            assert(2 * (qb * rest + qb) <= qb * pd) by (nonlinear_arith)
                requires
                    2 * (rest + 1) <= pd,
                    qb > 0,
            ;
            assert((2 * r) * pa == 2 * (r * pa)) by (nonlinear_arith);
            assert(2 * r < u) by (nonlinear_arith)
                requires
                    (2 * r) * pa < u * pa,
                    pa > 0,
            ;
        }
    }
}

proof fn lemma_regroup(q: int, n: int, k: int, a: int, j: int)
    by (nonlinear_arith)
    ensures
        q * n * (k * a * j) == ((q * k) * (n * j)) * a,
{
}

/// Rounding `p / q` when it is exactly `n * 2^(k + j)`, `k` the dropped bits.
proof fn lemma_round_exact(p: nat, q: nat, n: nat, a: nat, b: nat, k: nat, j: nat)
    requires
        q > 0,
        k + a + j == b,
        q * n * pow2(b) == p * pow2(a),
    ensures
        half_even(p, q * pow2(k)) == n * pow2(j),
{
    lemma_pow2_pos(a);
    lemma_pow2_pos(j);
    lemma_pow2_pos(k);
    lemma_pow2_adds(k, a);
    lemma_pow2_adds(k + a, j);
    let pa = pow2(a) as int;
    let pj = pow2(j) as int;
    let pk = pow2(k) as int;
    let u = q * pk;
    let m = n * pj;
    assert(u > 0) by (nonlinear_arith)
        requires
            u == q * pk,
            q > 0,
            pk > 0,
    ;
    lemma_regroup(q as int, n as int, pk, pa, pj);
    assert(p == u * m) by (nonlinear_arith)
        requires
            (u * m) * pa == p * pa,
            pa > 0,
    ;
    vstd::arithmetic::div_mod::lemma_fundamental_div_mod_converse(p as int, u, m, 0);
}

fn bit_length_of(n: u64) -> (l: u32)
    ensures
        l == bit_length(n as nat),
        l <= 64,
{
    let mut left = n;
    let mut l: u32 = 0;
    proof {
        lemma2_to64();
        lemma_bit_length_bounds(n as nat);
        if bit_length(n as nat) > 64 {
            lemma_pow2_monotonic(64, (bit_length(n as nat) - 1) as nat);
        }
    }
    while left >= 256
        invariant
            l + bit_length(left as nat) == bit_length(n as nat),
            bit_length(n as nat) <= 64,
        decreases left,
    {
        proof {
            reveal_with_fuel(bit_length, 9);
        }
        left = left / 256;
        l = l + 8;
    }
    while left > 0
        invariant
            l + bit_length(left as nat) == bit_length(n as nat),
            bit_length(n as nat) <= 64,
        decreases left,
    {
        left = left / 2;
        l = l + 1;
    }
    l
}

/// The magnitude bits of a ratio known through its leading bits: `n * 2^e`,
/// where `e` is `b - a`, with `inexact` telling of something below.
fn encode(
    n: u64,
    e: i32,
    inexact: bool,
    Ghost(p): Ghost<nat>,
    Ghost(q): Ghost<nat>,
    Ghost(a): Ghost<nat>,
    Ghost(b): Ghost<nat>,
) -> (mag: u32)
    requires
        0 < n < 0x8000_0000_0000_0000,
        -1000 < e < 1000,
        e == b - a,
        q > 0,
        q * (n as nat) * pow2(b) <= p * pow2(a),
        p * pow2(a) < q * (n as nat + 1) * pow2(b),
        inexact <==> q * (n as nat) * pow2(b) != p * pow2(a),
        inexact ==> n >= 0x100_0000,
    ensures
        mag == nearest(p, q),
{
    let len = bit_length_of(n);
    let total: i32 = len as i32 + e;
    let drop: u32 = if total > 24 {
        (total - 24) as u32
    } else {
        0
    };
    let d: i32 = drop as i32 - e;
    proof {
        lemma2_to64();
        lemma_pow2_24();
        lemma_ratio_length(p, q, n as nat, a, b);
        lemma_bit_length_bounds(n as nat);
        if inexact && len < 25 {
            lemma_pow2_monotonic(len as nat, 24);
        }
    }
    let m: u64;
    if d <= 0 {
        let j: u32 = (-d) as u32;
        proof {
            lemma_round_exact(p, q, n as nat, a, b, drop as nat, j as nat);
            // n * 2^j < 2^(len + j) <= 2^24
            lemma_pow2_adds(len as nat, j as nat);
            lemma_pow2_monotonic((len + j) as nat, 24);
            lemma_pow2_pos(j as nat);
            assert(n * pow2(j as nat) < pow2(len as nat) * pow2(j as nat)) by (nonlinear_arith)
                requires
                    n < pow2(len as nat),
                    pow2(j as nat) > 0,
            ;
            assert(j < 24) by {
                if j >= 24 {
                    lemma_pow2_monotonic(25, (len + j) as nat);
                    lemma_pow2_strictly_increases(24, 25);
                }
            }
            vstd::bits::lemma_u64_shl_is_mul(n, j as u64);
        }
        m = n << (j as u64);
    } else {
        proof {
            lemma_round_dropping(p, q, n as nat, a, b, inexact, drop as nat, d as nat);
        }
        if d >= 64 {
            proof {
                lemma_pow2_monotonic(64, d as nat);
                let pd = pow2(d as nat);
                assert(n as nat / pd == 0 && n as nat % pd == n) by (nonlinear_arith)
                    requires
                        0 <= n < pd,
                ;
            }
            m = 0;
        } else {
            let whole = n >> (d as u64);
            let half = 1u64 << ((d - 1) as u64);
            proof {
                vstd::bits::lemma_u64_shr_is_div(n, d as u64);
                lemma_pow2_pos(d as nat);
                lemma_pow2_strictly_increases((d - 1) as nat, 64);
                vstd::bits::lemma_u64_shl_is_mul(1, (d - 1) as u64);
                lemma_pow2_unfold(d as nat);
                let pd = pow2(d as nat);
                assert(n as nat == pd * (n as nat / pd) + n as nat % pd && 0 <= n as nat % pd < pd)
                    by (nonlinear_arith)
                    requires
                        pd > 0,
                ;
                assert(whole * pd == pd * whole) by (nonlinear_arith);
                vstd::bits::lemma_u64_shl_is_mul(whole, d as u64);
                // whole < 2^24
                lemma_pow2_adds(24, d as nat);
                lemma_pow2_monotonic(len as nat, (24 + d) as nat);
                assert(whole < 0x100_0000) by (nonlinear_arith)
                    requires
                        pd * whole <= n,
                        n < 0x100_0000 * pd,
                        pd > 0,
                ;
            }
            let rest = n - (whole << (d as u64));
            if rest > half || (rest == half && (inexact || whole % 2 == 1)) {
                m = whole + 1;
            } else {
                m = whole;
            }
        }
    }
    let coded: u64 = (drop as u64) * 0x80_0000 + m;
    if coded < INF_BITS as u64 {
        coded as u32
    } else {
        INF_BITS
    }
}

proof fn lemma_pow2_24()
    ensures
        pow2(23) == 0x80_0000,
        pow2(24) == 0x100_0000,
        pow2(25) == 0x200_0000,
{
    lemma2_to64();
}

/// The number with the given sign and magnitude bits.
pub open spec fn signed(negative: bool, mag: nat) -> Num {
    Num {
        bits: if negative {
            (SIGN_BIT + mag) as u32
        } else {
            mag as u32
        },
    }
}

impl Num {
    /// The bits without the sign.
    pub open spec fn mag(self) -> nat {
        (self.bits % SIGN_BIT) as nat
    }

    pub open spec fn negative(self) -> bool {
        self.bits >= SIGN_BIT
    }

    pub open spec fn is_nan(self) -> bool {
        self.mag() > INF_BITS
    }

    pub open spec fn is_infinite(self) -> bool {
        self.mag() == INF_BITS
    }

    pub open spec fn finite(self) -> bool {
        self.mag() < INF_BITS
    }

    /// The absolute value of a finite number, in units of 2^-149.
    pub open spec fn units(self) -> nat {
        let m = self.mag();
        if m < 0x80_0000 {
            m
        } else {
            (0x80_0000 + m % 0x80_0000) * pow2((m / 0x80_0000 - 1) as nat)
        }
    }

    /// A finite number in units of 2^-149.
    pub open spec fn value(self) -> int {
        signed_int(self.negative(), self.units())
    }

    /// The place of a number that is not NaN in the numeric order; both zeros
    /// share one place.
    pub open spec fn rank(self) -> int {
        if self.negative() {
            -(self.mag() as int)
        } else {
            self.mag() as int
        }
    }
}

/// The significand and the shift of a finite magnitude.
fn split(mag: u32) -> (r: (u64, i32))
    requires
        mag < INF_BITS,
    ensures
        r.0 < 0x100_0000,
        0 <= r.1 <= 253,
        r.1 > 0 ==> r.0 >= 0x80_0000,
        r.0 == 0 <==> mag == 0,
        r.0 * pow2(r.1 as nat) == (Num { bits: mag }).units(),
{
    proof {
        lemma2_to64();
        assert((Num { bits: mag }).mag() == mag);
        assert(mag * pow2(0) == mag);
    }
    if mag < 0x80_0000 {
        (mag as u64, 0)
    } else {
        ((0x80_0000 + mag % 0x80_0000) as u64, (mag / 0x80_0000 - 1) as i32)
    }
}

fn with_sign(negative: bool, mag: u32) -> (r: Num)
    requires
        mag <= INF_BITS,
    ensures
        r == signed(negative, mag as nat),
{
    if negative {
        Num { bits: SIGN_BIT + mag }
    } else {
        Num { bits: mag }
    }
}

pub open spec fn nan() -> Num {
    Num { bits: NAN_BITS }
}

pub open spec fn signed_int(negative: bool, n: nat) -> int {
    if negative {
        -(n as int)
    } else {
        n as int
    }
}

pub open spec fn absolute(i: int) -> nat {
    if i < 0 {
        (-i) as nat
    } else {
        i as nat
    }
}

/// The exact sum, rounded.
#[verifier::opaque]
pub open spec fn sum_of(a: Num, b: Num) -> Num {
    if a.is_nan() || b.is_nan() {
        nan()
    } else if a.is_infinite() {
        if b.is_infinite() && a.negative() != b.negative() {
            nan()
        } else {
            a
        }
    } else if b.is_infinite() {
        b
    } else {
        let v = a.value() + b.value();
        if v == 0 {
            signed(a.negative() && b.negative(), 0)
        } else {
            signed(v < 0, nearest(absolute(v), 1))
        }
    }
}

/// The exact product, rounded.
#[verifier::opaque]
pub open spec fn product_of(a: Num, b: Num) -> Num {
    let negative = a.negative() != b.negative();
    if a.is_nan() || b.is_nan() {
        nan()
    } else if a.is_infinite() || b.is_infinite() {
        if a.mag() == 0 || b.mag() == 0 {
            nan()
        } else {
            signed(negative, INF_BITS as nat)
        }
    } else {
        signed(negative, nearest(a.units() * b.units(), pow2(149)))
    }
}

/// The exact quotient, rounded.
#[verifier::opaque]
pub open spec fn quotient_of(a: Num, b: Num) -> Num {
    let negative = a.negative() != b.negative();
    if a.is_nan() || b.is_nan() {
        nan()
    } else if a.is_infinite() {
        if b.is_infinite() {
            nan()
        } else {
            signed(negative, INF_BITS as nat)
        }
    } else if b.is_infinite() {
        signed(negative, 0)
    } else if b.mag() == 0 {
        if a.mag() == 0 {
            nan()
        } else {
            signed(negative, INF_BITS as nat)
        }
    } else {
        signed(negative, nearest(a.units() * pow2(149), b.units()))
    }
}

proof fn lemma_nearest_zero(q: nat)
    requires
        q > 0,
    ensures
        nearest(0, q) == 0,
{
    lemma2_to64();
    assert(0nat / q == 0 && 0nat % q == 0) by (nonlinear_arith)
        requires
            q > 0,
    ;
    assert(q * 1 == q);
    assert(half_even(0, q) == 0);
}

proof fn lemma_units_positive(a: Num)
    requires
        a.finite(),
    ensures
        a.units() == 0 <==> a.mag() == 0,
{
    let m = a.mag();
    if m >= 0x80_0000 {
        lemma_pow2_pos((m / 0x80_0000 - 1) as nat);
        assert((0x80_0000 + m % 0x80_0000) * pow2((m / 0x80_0000 - 1) as nat) > 0) by (nonlinear_arith)
            requires
                pow2((m / 0x80_0000 - 1) as nat) > 0,
                0x80_0000 + m % 0x80_0000 > 0,
        ;
    }
}

proof fn lemma_triple(x: int, y: int, z: int)
    by (nonlinear_arith)
    ensures
        x * y * z == x * (y * z),
        x * y * z == x * z * y,
        x * y * z == y * x * z,
{
}

/// `n * 2^s` as a ratio over one.
fn encode_exact(n: u64, s: i32) -> (mag: u32)
    requires
        0 < n < 0x8000_0000_0000_0000,
        0 <= s < 1000,
    ensures
        mag == nearest(n as nat * pow2(s as nat), 1),
{
    proof {
        lemma2_to64();
        let x = n as nat * pow2(s as nat);
        lemma_pow2_pos(s as nat);
        assert(1 * (n as nat) * pow2(s as nat) == x * 1) by (nonlinear_arith)
            requires
                x == n as nat * pow2(s as nat),
        ;
        assert(x < 1 * (n as nat + 1) * pow2(s as nat)) by (nonlinear_arith)
            requires
                x == n as nat * pow2(s as nat),
                pow2(s as nat) > 0,
        ;
    }
    encode(n, s, false, Ghost(n as nat * pow2(s as nat)), Ghost(1), Ghost(0), Ghost(s as nat))
}

/// The sum of two finite numbers, the first with the larger shift.
fn sum_finite(na: bool, sa: u64, ea: i32, nb: bool, sb: u64, eb: i32) -> (r: Num)
    requires
        sa < 0x100_0000,
        sb < 0x100_0000,
        0 <= eb <= ea <= 253,
        ea > 0 ==> sa >= 0x80_0000,
    ensures
        ({
            let va = signed_int(na, sa as nat * pow2(ea as nat));
            let vb = signed_int(nb, sb as nat * pow2(eb as nat));
            r == if va + vb == 0 {
                signed(na && nb, 0)
            } else {
                signed(va + vb < 0, nearest(absolute(va + vb), 1))
            }
        }),
{
    let diff = ea - eb;
    let ghost pe = pow2(eb as nat);
    proof {
        lemma_pow2_pos(eb as nat);
        lemma_pow2_adds(diff as nat, eb as nat);
        lemma2_to64();
    }
    if diff <= 38 {
        let ghost pd = pow2(diff as nat);
        proof {
            lemma_pow2_pos(diff as nat);
            lemma_pow2_monotonic(diff as nat, 38);
            lemma_pow2_adds(32, 6);
            lemma_pow2_adds(24, 38);
            assert(sa * pd <= 0xff_ffff * 0x40_0000_0000) by (nonlinear_arith)
                requires
                    sa <= 0xff_ffff,
                    pd <= 0x40_0000_0000,
                    sa >= 0,
                    pd >= 0,
            ;
            vstd::bits::lemma_u64_shl_is_mul(sa, diff as u64);
        }
        let x = sa << (diff as u64);
        proof {
            assert(x * pe == sa * pow2(ea as nat)) by (nonlinear_arith)
                requires
                    x == sa * pd,
                    pd * pe == pow2(ea as nat),
            ;
            assert((x + sb) * pe == x * pe + sb * pe) by (nonlinear_arith);
            assert((x - sb) * pe == x * pe - sb * pe) by (nonlinear_arith);
            assert((sb - x) * pe == sb * pe - x * pe) by (nonlinear_arith);
        }
        if na == nb {
            let n = x + sb;
            if n == 0 {
                proof {
                    assert(0 * pe == 0);
                }
                return with_sign(na && nb, 0);
            }
            proof {
                assert(n * pe > 0) by (nonlinear_arith)
                    requires
                        n > 0,
                        pe > 0,
                ;
            }
            with_sign(na, encode_exact(n, eb))
        } else if x == sb {
            with_sign(false, 0)
        } else if x > sb {
            let n = x - sb;
            proof {
                assert(n * pe > 0) by (nonlinear_arith)
                    requires
                        n > 0,
                        pe > 0,
                ;
            }
            with_sign(na, encode_exact(n, eb))
        } else {
            let n = sb - x;
            proof {
                assert(n * pe > 0) by (nonlinear_arith)
                    requires
                        n > 0,
                        pe > 0,
                ;
            }
            with_sign(nb, encode_exact(n, eb))
        }
    } else {
        // The smaller number lies below the last kept bit: it only breaks ties.
        let ghost low = pow2((ea - 15) as nat);
        let ghost y = sb * pe;
        let ghost x = sa * pow2(ea as nat);
        proof {
            lemma_pow2_pos((ea - 15) as nat);
            lemma_pow2_adds((ea - 15) as nat, 15);
            lemma_pow2_adds(24, eb as nat);
            lemma_pow2_monotonic((24 + eb) as nat, (ea - 15) as nat);
            assert(sb * pe < 0x100_0000 * pe) by (nonlinear_arith)
                requires
                    sb < 0x100_0000,
                    pe > 0,
            ;
            assert(0 <= sb * pe) by (nonlinear_arith)
                requires
                    sb >= 0,
                    pe > 0,
            ;
            assert(y < low);
            assert(sb > 0 ==> sb * pe > 0) by (nonlinear_arith)
                requires
                    pe > 0,
            ;
        }
        let wide: u64 = sa * 0x8000;
        proof {
            assert(wide * low == x) by (nonlinear_arith)
                requires
                    wide == sa * 0x8000,
                    low * 0x8000 == pow2(ea as nat),
                    x == sa * pow2(ea as nat),
            ;
            assert((wide + 1) * low == wide * low + low) by (nonlinear_arith);
            assert((wide - 1) * low == wide * low - low) by (nonlinear_arith);
            assert(x >= 0x40_0000_0000 * low) by (nonlinear_arith)
                requires
                    x == wide * low,
                    wide >= 0x40_0000_0000,
                    low > 0,
            ;
        }
        if na == nb || sb == 0 {
            let ghost p: nat = (x + y) as nat;
            proof {
                assert(p * 1 == p);
                assert(1 * (wide as nat) * low == wide * low) by (nonlinear_arith);
                assert(1 * (wide as nat + 1) * low == (wide + 1) * low) by (nonlinear_arith);
            }
            let mag = encode(wide, ea - 15, sb != 0, Ghost(p), Ghost(1), Ghost(0), Ghost((ea - 15) as nat));
            with_sign(na, mag)
        } else {
            let n: u64 = wide - 1;
            let ghost p: nat = (x - y) as nat;
            proof {
                assert(p * 1 == p);
                assert(1 * (n as nat) * low == n * low) by (nonlinear_arith);
                assert(1 * (n as nat + 1) * low == (n + 1) * low) by (nonlinear_arith);
            }
            let mag = encode(n, ea - 15, true, Ghost(p), Ghost(1), Ghost(0), Ghost((ea - 15) as nat));
            with_sign(na, mag)
        }
    }
}

impl Num {
    pub open spec fn spec_add(self, other: Num) -> Num {
        sum_of(self, other)
    }

    pub open spec fn spec_sub(self, other: Num) -> Num {
        sum_of(self, negated(other))
    }

    pub open spec fn spec_mul(self, other: Num) -> Num {
        product_of(self, other)
    }

    pub open spec fn spec_euclidean_or_real_div(self, other: Num) -> Num {
        quotient_of(self, other)
    }
}

/// The same number with the other sign.
pub open spec fn negated(a: Num) -> Num {
    signed(!a.negative(), a.mag())
}

impl core::ops::Add for Num {
    type Output = Num;

    fn add(self, other: Num) -> (r: Num) {
        proof {
            reveal(sum_of);
        }
        let ma = self.bits % SIGN_BIT;
        let mb = other.bits % SIGN_BIT;
        let na = self.bits >= SIGN_BIT;
        let nb = other.bits >= SIGN_BIT;
        if ma > INF_BITS || mb > INF_BITS {
            return Num { bits: NAN_BITS };
        }
        if ma == INF_BITS {
            if mb == INF_BITS && na != nb {
                return Num { bits: NAN_BITS };
            }
            return self;
        }
        if mb == INF_BITS {
            return other;
        }
        let (sa, ea) = split(ma);
        let (sb, eb) = split(mb);
        proof {
            assert(self.units() == (Num { bits: ma }).units());
            assert(other.units() == (Num { bits: mb }).units());
        }
        if ea >= eb {
            sum_finite(na, sa, ea, nb, sb, eb)
        } else {
            sum_finite(nb, sb, eb, na, sa, ea)
        }
    }
}

impl vstd::std_specs::ops::AddSpecImpl for Num {
    open spec fn obeys_add_spec() -> bool {
        true
    }

    open spec fn add_req(self, other: Num) -> bool {
        true
    }

    open spec fn add_spec(self, other: Num) -> Num {
        sum_of(self, other)
    }
}

/// A difference is the sum with the second number negated.
impl core::ops::Sub for Num {
    type Output = Num;

    fn sub(self, other: Num) -> (r: Num) {
        let flipped = if other.bits >= SIGN_BIT {
            Num { bits: other.bits - SIGN_BIT }
        } else {
            Num { bits: other.bits + SIGN_BIT }
        };
        self + flipped
    }
}

impl vstd::std_specs::ops::SubSpecImpl for Num {
    open spec fn obeys_sub_spec() -> bool {
        true
    }

    open spec fn sub_req(self, other: Num) -> bool {
        true
    }

    open spec fn sub_spec(self, other: Num) -> Num {
        sum_of(self, negated(other))
    }
}

impl core::ops::Mul for Num {
    type Output = Num;

    fn mul(self, other: Num) -> (r: Num) {
        proof {
            reveal(product_of);
        }
        let ma = self.bits % SIGN_BIT;
        let mb = other.bits % SIGN_BIT;
        let negative = (self.bits >= SIGN_BIT) != (other.bits >= SIGN_BIT);
        if ma > INF_BITS || mb > INF_BITS {
            return Num { bits: NAN_BITS };
        }
        if ma == INF_BITS || mb == INF_BITS {
            if ma == 0 || mb == 0 {
                return Num { bits: NAN_BITS };
            }
            return with_sign(negative, INF_BITS);
        }
        let (sa, ea) = split(ma);
        let (sb, eb) = split(mb);
        proof {
            assert(self.units() == (Num { bits: ma }).units());
            assert(other.units() == (Num { bits: mb }).units());
            lemma_pow2_pos(149);
            lemma_units_positive(self);
            lemma_units_positive(other);
            assert(sa * sb <= 0xff_ffff * 0xff_ffff) by (nonlinear_arith)
                requires
                    0 <= sa <= 0xff_ffff,
                    0 <= sb <= 0xff_ffff,
            ;
        }
        let n = sa * sb;
        if ma == 0 || mb == 0 {
            proof {
                assert(self.units() * other.units() == 0) by (nonlinear_arith)
                    requires
                        self.units() == 0 || other.units() == 0,
                ;
                lemma_nearest_zero(pow2(149));
            }
            return with_sign(negative, 0);
        }
        let ghost p = self.units() * other.units();
        let ghost q = pow2(149);
        let ghost b = (ea + eb) as nat;
        proof {
            let pa = pow2(ea as nat) as int;
            let pb = pow2(eb as nat) as int;
            lemma_pow2_adds(ea as nat, eb as nat);
            lemma_pow2_pos(b);
            assert(n > 0) by (nonlinear_arith)
                requires
                    n == sa * sb,
                    sa > 0,
                    sb > 0,
            ;
            lemma_swap_middle(sa as int, pa, sb as int, pb);
            assert(p == n * pow2(b));
            lemma_triple(q as int, n as int, pow2(b) as int);
            assert(q * (n as nat) * pow2(b) == p * q) by (nonlinear_arith)
                requires
                    q * (n as nat) * pow2(b) == q * (n * pow2(b)),
                    p == n * pow2(b),
            ;
            assert(q * (n as nat) * pow2(b) < q * (n as nat + 1) * pow2(b)) by (nonlinear_arith)
                requires
                    q > 0,
                    pow2(b) > 0,
            ;
        }
        let mag = encode(n, ea + eb - 149, false, Ghost(p), Ghost(q), Ghost(149), Ghost(b));
        with_sign(negative, mag)
    }
}

impl vstd::std_specs::ops::MulSpecImpl for Num {
    open spec fn obeys_mul_spec() -> bool {
        true
    }

    open spec fn mul_req(self, other: Num) -> bool {
        true
    }

    open spec fn mul_spec(self, other: Num) -> Num {
        product_of(self, other)
    }
}

proof fn lemma_swap_middle(a: int, b: int, c: int, d: int)
    by (nonlinear_arith)
    ensures
        (a * b) * (c * d) == (a * c) * (b * d),
{
}

impl core::ops::Div for Num {
    type Output = Num;

    fn div(self, other: Num) -> (r: Num) {
        proof {
            reveal(quotient_of);
        }
        let ma = self.bits % SIGN_BIT;
        let mb = other.bits % SIGN_BIT;
        let negative = (self.bits >= SIGN_BIT) != (other.bits >= SIGN_BIT);
        if ma > INF_BITS || mb > INF_BITS {
            return Num { bits: NAN_BITS };
        }
        if ma == INF_BITS {
            if mb == INF_BITS {
                return Num { bits: NAN_BITS };
            }
            return with_sign(negative, INF_BITS);
        }
        if mb == INF_BITS {
            return with_sign(negative, 0);
        }
        if mb == 0 {
            if ma == 0 {
                return Num { bits: NAN_BITS };
            }
            return with_sign(negative, INF_BITS);
        }
        let (sa, ea) = split(ma);
        let (sb, eb) = split(mb);
        proof {
            assert(self.units() == (Num { bits: ma }).units());
            assert(other.units() == (Num { bits: mb }).units());
            lemma_units_positive(self);
            lemma_units_positive(other);
        }
        if ma == 0 {
            proof {
                assert(0 * pow2(149) == 0);
                lemma_nearest_zero(other.units());
            }
            return with_sign(negative, 0);
        }
        let len = bit_length_of(sa);
        proof {
            lemma2_to64();
            lemma_bit_length_bounds(sa as nat);
            if len > 24 {
                lemma_pow2_monotonic(24, (len - 1) as nat);
            }
        }
        // Scaled so that the quotient has at least 38 bits.
        let lift: u32 = 24 - len + 39;
        let ghost pl = pow2(lift as nat);
        proof {
            lemma_pow2_adds((len - 1) as nat, lift as nat);
            lemma_pow2_adds(len as nat, lift as nat);
            lemma_pow2_adds(31, 31);
            lemma_pow2_unfold(63);
            lemma_pow2_unfold(64);
            lemma_pow2_pos(lift as nat);
            assert(pow2((len - 1) as nat) * pl <= sa * pl) by (nonlinear_arith)
                requires
                    pow2((len - 1) as nat) <= sa,
                    pl > 0,
            ;
            assert(sa * pl < pow2(len as nat) * pl) by (nonlinear_arith)
                requires
                    sa < pow2(len as nat),
                    pl > 0,
            ;
            vstd::bits::lemma_u64_shl_is_mul(sa, lift as u64);
        }
        let top = sa << (lift as u64);
        let n = top / sb;
        let inexact = top % sb != 0;
        let ghost p = self.units() * pow2(149);
        let ghost q = other.units();
        let ghost a = (lift + eb) as nat;
        let ghost b = (ea + 149) as nat;
        proof {
            let rest = top % sb;
            assert(top == sb * n + rest && 0 <= rest < sb) by (nonlinear_arith)
                requires
                    n == top / sb,
                    rest == top % sb,
                    sb > 0,
            ;
            assert(n >= 0x4_0000_0000) by (nonlinear_arith)
                requires
                    top >= 0x4000_0000_0000_0000,
                    top < sb * n + sb,
                    sb < 0x100_0000,
            ;
            lemma_pow2_adds(lift as nat, eb as nat);
            lemma_pow2_adds(ea as nat, 149);
            let w = pow2(eb as nat) as int * pow2(b) as int;
            lemma_pow2_pos(eb as nat);
            lemma_pow2_pos(b);
            assert(w > 0) by (nonlinear_arith)
                requires
                    w == pow2(eb as nat) * pow2(b),
                    pow2(eb as nat) > 0,
                    pow2(b) > 0,
            ;
            // p * 2^a == top * w and q * n * 2^b == sb * n * w
            lemma_scaled(sa as int, pow2(ea as nat) as int, pow2(149) as int, pl as int, pow2(eb as nat) as int);
            lemma_scaled_right(sb as int, pow2(eb as nat) as int, n as int, pow2(b) as int);
            lemma_scaled_right(sb as int, pow2(eb as nat) as int, n + 1, pow2(b) as int);
            assert(p * pow2(a) == top * w);
            assert(sb * n * w <= top * w && (top * w < sb * (n + 1) * w) && (rest != 0 ==> sb * n * w < top * w) && (rest == 0 ==> sb * n * w == top * w)) by (nonlinear_arith)
                requires
                    top == sb * n + rest,
                    0 <= rest < sb,
                    w > 0,
            ;
        }
        let mag = encode(n, ea + 149 - lift as i32 - eb, inexact, Ghost(p), Ghost(q), Ghost(a), Ghost(b));
        with_sign(negative, mag)
    }
}

impl vstd::std_specs::ops::DivSpecImpl for Num {
    open spec fn obeys_div_spec() -> bool {
        true
    }

    open spec fn div_req(self, other: Num) -> bool {
        true
    }

    open spec fn div_spec(self, other: Num) -> Num {
        quotient_of(self, other)
    }
}

proof fn lemma_scaled(s: int, pa: int, c: int, pl: int, pe: int)
    ensures
        (s * pa * c) * (pl * pe) == (s * pl) * (pe * (pa * c)),
{
    let x = pa * c;
    assert(s * pa * c == s * x) by (nonlinear_arith)
        requires
            x == pa * c,
    ;
    lemma_swap_middle(s, x, pl, pe);
    assert(x * pe == pe * x) by (nonlinear_arith);
}

proof fn lemma_scaled_right(s: int, pe: int, n: int, pb: int)
    ensures
        (s * pe) * n * pb == s * n * (pe * pb),
{
    lemma_triple(s * pe, n, pb);
    lemma_swap_middle(s, pe, n, pb);
}

impl Num {
    /// Numerically less; never true of NaN.
    pub open spec fn below(self, other: Num) -> bool {
        !self.is_nan() && !other.is_nan() && self.rank() < other.rank()
    }

    /// Numerically less or equal; never true of NaN.
    pub open spec fn within(self, other: Num) -> bool {
        !self.is_nan() && !other.is_nan() && self.rank() <= other.rank()
    }

    /// A key that orders all bit patterns, the negative zero before the positive.
    pub open spec fn order_key_spec(self) -> i64 {
        if self.negative() {
            (-1 - self.mag()) as i64
        } else {
            self.mag() as i64
        }
    }

    #[verifier::when_used_as_spec(order_key_spec)]
    pub fn order_key(self) -> (k: i64)
        ensures
            k == self.order_key_spec(),
    {
        let m = (self.bits % SIGN_BIT) as i64;
        if self.bits >= SIGN_BIT {
            -1 - m
        } else {
            m
        }
    }

    fn rank_exec(self) -> (r: i64)
        ensures
            r == self.rank(),
    {
        let m = (self.bits % SIGN_BIT) as i64;
        if self.bits >= SIGN_BIT {
            -m
        } else {
            m
        }
    }

    fn nan_exec(self) -> (r: bool)
        ensures
            r == self.is_nan(),
    {
        self.bits % SIGN_BIT > INF_BITS
    }

    #[verifier::when_used_as_spec(below)]
    pub fn lt(self, other: Num) -> (r: bool)
        ensures
            r == self.below(other),
    {
        !self.nan_exec() && !other.nan_exec() && self.rank_exec() < other.rank_exec()
    }

    #[verifier::when_used_as_spec(within)]
    pub fn le(self, other: Num) -> (r: bool)
        ensures
            r == self.within(other),
    {
        !self.nan_exec() && !other.nan_exec() && self.rank_exec() <= other.rank_exec()
    }

    pub open spec fn above(self, other: Num) -> bool {
        other.below(self)
    }

    #[verifier::when_used_as_spec(above)]
    pub fn gt(self, other: Num) -> (r: bool)
        ensures
            r == self.above(other),
    {
        other.lt(self)
    }

    pub open spec fn reaches(self, other: Num) -> bool {
        other.within(self)
    }

    #[verifier::when_used_as_spec(reaches)]
    pub fn ge(self, other: Num) -> (r: bool)
        ensures
            r == self.reaches(other),
    {
        other.le(self)
    }

    pub open spec fn min_spec(self, other: Num) -> Num {
        if self.is_nan() || other.below(self) {
            other
        } else {
            self
        }
    }

    /// The smaller of two numbers; where one is NaN, the other.
    #[verifier::when_used_as_spec(min_spec)]
    pub fn min(self, other: Num) -> (r: Num)
        ensures
            r == self.min_spec(other),
    {
        if self.nan_exec() || other.lt(self) {
            other
        } else {
            self
        }
    }

    pub open spec fn max_spec(self, other: Num) -> Num {
        if self.is_nan() || self.below(other) {
            other
        } else {
            self
        }
    }

    /// The larger of two numbers; where one is NaN, the other.
    #[verifier::when_used_as_spec(max_spec)]
    pub fn max(self, other: Num) -> (r: Num)
        ensures
            r == self.max_spec(other),
    {
        if self.nan_exec() || self.lt(other) {
            other
        } else {
            self
        }
    }

    pub open spec fn clamp_spec(self, low: Num, high: Num) -> Num {
        if self.below(low) {
            low
        } else if high.below(self) {
            high
        } else {
            self
        }
    }

    /// The number moved into `[low, high]`; NaN stays.
    #[verifier::when_used_as_spec(clamp_spec)]
    pub fn clamp(self, low: Num, high: Num) -> (r: Num)
        ensures
            r == self.clamp_spec(low, high),
    {
        if self.lt(low) {
            low
        } else if high.lt(self) {
            high
        } else {
            self
        }
    }

    pub open spec fn abs_spec(self) -> Num {
        Num { bits: self.bits % SIGN_BIT }
    }

    #[verifier::when_used_as_spec(abs_spec)]
    pub fn abs(self) -> (r: Num)
        ensures
            r == self.abs_spec(),
    {
        Num { bits: self.bits % SIGN_BIT }
    }
}

/// An integer, rounded to the nearest number.
#[verifier::opaque]
pub open spec fn of_int(i: int) -> Num {
    if i == 0 {
        signed(false, 0)
    } else {
        signed(i < 0, nearest(absolute(i) * pow2(149), 1))
    }
}

proof fn lemma_halved(n: int, h: int, c: int, w: int)
    requires
        n == 2 * h || n == 2 * h + 1,
        w == 2 * c,
        c > 0,
    ensures
        h * w <= n * c < (h + 1) * w,
        n != 2 * h <==> h * w != n * c,
{
    assert(h * w == (2 * h) * c) by (nonlinear_arith)
        requires
            w == 2 * c,
    ;
    assert((h + 1) * w == (2 * h) * c + 2 * c) by (nonlinear_arith)
        requires
            w == 2 * c,
    ;
    assert((2 * h + 1) * c == (2 * h) * c + c) by (nonlinear_arith);
}

fn whole_mag(n: u64) -> (mag: u32)
    requires
        n > 0,
    ensures
        mag == nearest(n as nat * pow2(149), 1),
{
    if n < 0x8000_0000_0000_0000 {
        encode_exact(n, 149)
    } else {
        let half = n / 2;
        proof {
            lemma_pow2_unfold(150);
            lemma_pow2_pos(149);
            lemma2_to64();
            lemma_halved(n as int, half as int, pow2(149) as int, pow2(150) as int);
            assert(1 * (half as nat) * pow2(150) == half * pow2(150));
            assert(1 * (half as nat + 1) * pow2(150) == (half + 1) * pow2(150));
        }
        encode(half, 150, n % 2 != 0, Ghost(n as nat * pow2(149)), Ghost(1), Ghost(0), Ghost(150))
    }
}

/// A whole number of hundredths, rounded to the nearest number.
pub open spec fn of_hundredths(negative: bool, h: nat) -> Num {
    signed(negative, nearest(h * pow2(149), 100))
}

proof fn lemma_hundredth_bounds(h: nat, n: nat, k: nat, p: nat)
    by (nonlinear_arith)
    requires
        n == h * k / 100,
        p > 0,
    ensures
        100 * n * p <= h * (k * p),
        h * (k * p) < 100 * (n + 1) * p,
        100 * n * p == h * (k * p) <==> h * k % 100 == 0,
{
    let x = h * k;
    let r = x % 100;
    assert(x == 100 * n + r && 0 <= r < 100);
    assert(h * (k * p) == x * p);
    assert(x * p == 100 * n * p + r * p);
    assert(r * p >= 0);
    assert(r * p < 100 * p);
    assert(100 * (n + 1) * p == 100 * n * p + 100 * p);
}

/// The magnitude bits of a number of hundredths.
fn hundredths_mag(h: u64) -> (mag: u32)
    requires
        0 < h < 0x8000_0000_0000_0000,
    ensures
        mag == nearest(h as nat * pow2(149), 100),
{
    if h < 0x8000_0000 {
        let n: u64 = h * 0x1_0000_0000 / 100;
        proof {
            lemma2_to64();
            lemma_pow2_adds(32, 117);
            lemma_pow2_pos(117);
            lemma_hundredth_bounds(h as nat, n as nat, 0x1_0000_0000, pow2(117));
        }
        encode(
            n,
            117,
            h * 0x1_0000_0000 % 100 != 0,
            Ghost(h as nat * pow2(149)),
            Ghost(100),
            Ghost(0),
            Ghost(117),
        )
    } else {
        let n: u64 = h / 100;
        proof {
            lemma2_to64();
            lemma_pow2_pos(149);
            lemma_hundredth_bounds(h as nat, n as nat, 1, pow2(149));
        }
        encode(n, 149, h % 100 != 0, Ghost(h as nat * pow2(149)), Ghost(100), Ghost(0), Ghost(149))
    }
}

impl Num {
    pub fn from_hundredths(negative: bool, h: u64) -> (r: Num)
        requires
            h < 0x8000_0000_0000_0000,
        ensures
            r == of_hundredths(negative, h as nat),
    {
        if h == 0 {
            proof {
                lemma_nearest_zero(100);
                assert(0 * pow2(149) == 0) by (nonlinear_arith);
            }
            with_sign(negative, 0)
        } else {
            with_sign(negative, hundredths_mag(h))
        }
    }
}

impl Num {
    pub fn from_u64(n: u64) -> (r: Num)
        ensures
            r == of_int(n as int),
    {
        proof {
            reveal(of_int);
        }
        if n == 0 {
            with_sign(false, 0)
        } else {
            with_sign(false, whole_mag(n))
        }
    }

    pub fn from_i64(n: i64) -> (r: Num)
        ensures
            r == of_int(n as int),
    {
        proof {
            reveal(of_int);
        }
        if n == 0 {
            with_sign(false, 0)
        } else if n > 0 {
            with_sign(false, whole_mag(n as u64))
        } else if n == i64::MIN {
            with_sign(true, whole_mag(0x8000_0000_0000_0000))
        } else {
            with_sign(true, whole_mag((-n) as u64))
        }
    }

    /// The integer part of a finite absolute value.
    pub open spec fn whole(self) -> nat {
        self.units() / pow2(149)
    }

    /// The integer part, held to `[0, limit]`; zero for NaN.
    #[verifier::opaque]
    pub open spec fn truncated(self, limit: nat) -> nat {
        if self.is_nan() || self.negative() {
            0
        } else if self.is_infinite() || self.whole() > limit {
            limit
        } else {
            self.whole()
        }
    }

    pub fn to_u64(self) -> (r: u64)
        ensures
            r == self.truncated(u64::MAX as nat),
    {
        proof {
            reveal(Num::truncated);
        }
        if self.bits >= SIGN_BIT || self.bits > INF_BITS {
            return 0;
        }
        if self.bits == INF_BITS {
            return u64::MAX;
        }
        let (s, e) = split(self.bits);
        proof {
            assert(self.units() == s * pow2(e as nat));
            lemma_pow2_pos(149);
            lemma_pow2_pos(e as nat);
            lemma2_to64();
        }
        if e >= 149 {
            let shift: u32 = (e - 149) as u32;
            let ghost ps = pow2(shift as nat);
            proof {
                lemma_pow2_adds(shift as nat, 149);
                let c = pow2(149) as int;
                assert(s * (ps * c) == (s * ps) * c) by (nonlinear_arith);
                lemma_pow2_pos(shift as nat);
                assert(s * ps >= 0) by (nonlinear_arith)
                    requires
                        s >= 0,
                        ps > 0,
                ;
                vstd::arithmetic::div_mod::lemma_fundamental_div_mod_converse(
                    self.units() as int,
                    c,
                    s * ps,
                    0,
                );
                assert(self.whole() == s * ps);
            }
            if shift > 40 {
                proof {
                    lemma_pow2_monotonic(41, shift as nat);
                    lemma_pow2_adds(32, 9);
                    assert(s * ps >= 0x80_0000 * 0x200_0000_0000) by (nonlinear_arith)
                        requires
                            s >= 0x80_0000,
                            ps >= 0x200_0000_0000,
                    ;
                }
                u64::MAX
            } else {
                proof {
                    lemma_pow2_monotonic(shift as nat, 40);
                    lemma_pow2_adds(32, 8);
                    assert(s * ps <= 0xff_ffff * 0x100_0000_0000) by (nonlinear_arith)
                        requires
                            s <= 0xff_ffff,
                            0 < ps <= 0x100_0000_0000,
                    ;
                    vstd::bits::lemma_u64_shl_is_mul(s, shift as u64);
                }
                s << (shift as u64)
            }
        } else {
            let k: u32 = (149 - e) as u32;
            proof {
                lemma_pow2_adds(k as nat, e as nat);
                lemma_pow2_pos(k as nat);
                let pk = pow2(k as nat) as int;
                let pe = pow2(e as nat) as int;
                assert(self.units() == s * pe);
                assert(pow2(149) == pk * pe);
                let w = s as int / pk;
                let rest = s as int % pk;
                assert(s == pk * w + rest && 0 <= rest < pk) by (nonlinear_arith)
                    requires
                        w == s as int / pk,
                        rest == s as int % pk,
                        pk > 0,
                ;
                assert(s * pe == (pk * pe) * w + rest * pe && 0 <= rest * pe < pk * pe) by (nonlinear_arith)
                    requires
                        s == pk * w + rest,
                        0 <= rest < pk,
                        pe > 0,
                ;
                assert((pk * pe) * w == w * (pk * pe)) by (nonlinear_arith);
                vstd::arithmetic::div_mod::lemma_fundamental_div_mod_converse(
                    s * pe,
                    pk * pe,
                    w,
                    rest * pe,
                );
                assert(self.whole() == w);
            }
            if k >= 24 {
                proof {
                    lemma_pow2_monotonic(24, k as nat);
                    let pk = pow2(k as nat) as int;
                    assert(s as int / pk == 0) by (nonlinear_arith)
                        requires
                            0 <= s < pk,
                    ;
                }
                0
            } else {
                proof {
                    vstd::bits::lemma_u64_shr_is_div(s, k as u64);
                }
                s >> (k as u64)
            }
        }
    }

    /// The integer part with its sign, held to 64 bits; zero for NaN.
    pub open spec fn integer_part(self) -> int {
        if self.negative() && !self.is_nan() {
            -(self.abs().truncated(0x8000_0000_0000_0000) as int)
        } else {
            self.truncated(i64::MAX as nat) as int
        }
    }

    pub fn to_i64(self) -> (r: i64)
        ensures
            r == self.integer_part(),
    {
        proof {
            reveal(Num::truncated);
        }
        if self.bits >= SIGN_BIT && self.bits <= SIGN_BIT + INF_BITS {
            let m = self.abs().to_u64();
            if m >= 0x8000_0000_0000_0000 {
                i64::MIN
            } else {
                -(m as i64)
            }
        } else {
            let m = self.to_u64();
            if m > i64::MAX as u64 {
                i64::MAX
            } else {
                m as i64
            }
        }
    }

    pub fn to_usize(self) -> (r: usize)
        ensures
            r == self.truncated(usize::MAX as nat),
    {
        proof {
            reveal(Num::truncated);
        }
        let n = self.to_u64();
        if n > usize::MAX as u64 {
            usize::MAX
        } else {
            n as usize
        }
    }

    pub fn to_u32(self) -> (r: u32)
        ensures
            r == self.truncated(u32::MAX as nat),
    {
        proof {
            reveal(Num::truncated);
        }
        let n = self.to_u64();
        if n > u32::MAX as u64 {
            u32::MAX
        } else {
            n as u32
        }
    }

    pub fn to_u8(self) -> (r: u8)
        ensures
            r == self.truncated(u8::MAX as nat),
    {
        proof {
            reveal(Num::truncated);
        }
        let n = self.to_u64();
        if n > u8::MAX as u64 {
            u8::MAX
        } else {
            n as u8
        }
    }
}

/// Whether `s` is the integer part of the square root of `n`.
pub open spec fn is_floor_root(n: nat, s: nat) -> bool {
    s * s <= n < (s + 1) * (s + 1)
}

/// The integer part of a square root.
pub open spec fn floor_root(n: nat) -> nat {
    choose|s: nat| is_floor_root(n, s)
}

/// The magnitude bits nearest to the square root of `r` units, ties to even.
pub open spec fn nearest_root(r: nat) -> nat {
    let root = floor_root(r);
    let drop = floor_at_zero(bit_length(root) - 24);
    let whole = root / pow2(drop);
    // (whole + 1/2) * 2^drop, twice and squared, against the root likewise
    let middle = (2 * whole + 1) * (2 * whole + 1) * (pow2(drop) * pow2(drop));
    let m = if middle < 4 * r || (middle == 4 * r && whole % 2 == 1) {
        whole + 1
    } else {
        whole
    };
    drop * 0x80_0000 + m
}

/// The exact square root, rounded; NaN of a negative number.
#[verifier::opaque]
pub open spec fn root_of(a: Num) -> Num {
    if a.is_nan() {
        nan()
    } else if a.mag() == 0 {
        a
    } else if a.negative() {
        nan()
    } else if a.is_infinite() {
        a
    } else {
        signed(false, nearest_root(a.units() * pow2(149)))
    }
}

proof fn lemma_floor_root_unique(n: nat, s: nat)
    requires
        is_floor_root(n, s),
    ensures
        floor_root(n) == s,
{
    let t = floor_root(n);
    assert(is_floor_root(n, t));
    assert(t == s) by (nonlinear_arith)
        requires
            s * s <= n,
            n < (s + 1) * (s + 1),
            t * t <= n,
            n < (t + 1) * (t + 1),
            s >= 0,
            t >= 0,
    ;
}

proof fn lemma_floor_root_exists(n: nat) -> (s: nat)
    ensures
        is_floor_root(n, s),
    decreases n,
{
    if n == 0 {
        assert(is_floor_root(0, 0)) by (nonlinear_arith);
        0
    } else {
        let s = lemma_floor_root_exists((n - 1) as nat);
        let t = s + 1;
        assert((t + 1) * (t + 1) > t * t) by (nonlinear_arith);

        if n < t * t {
            s
        } else {
            t
        }
    }
}

fn integer_root(x: u64) -> (n: u64)
    requires
        x < 0x4000_0000_0000_0000,
    ensures
        is_floor_root(x as nat, n as nat),
        n < 0x8000_0000,
{
    let mut lo: u64 = 0;
    let mut hi: u64 = 0x8000_0000;
    while hi - lo > 1
        invariant
            x < 0x4000_0000_0000_0000,
            lo < hi <= 0x8000_0000,
            lo * lo <= x < hi * hi,
        decreases hi - lo,
    {
        let mid = lo + (hi - lo) / 2;
        proof {
            assert(mid * mid <= 0x8000_0000 * 0x8000_0000) by (nonlinear_arith)
                requires
                    0 <= mid <= 0x8000_0000,
            ;
        }
        if mid * mid <= x {
            lo = mid;
        } else {
            hi = mid;
        }
    }
    lo
}

/// The floor of the root of `x * 4^b` lies where the floor of the root of `x` says.
proof fn lemma_scaled_root(x: nat, n: nat, b: nat)
    requires
        is_floor_root(x, n),
    ensures
        ({
            let w = floor_root(x * (pow2(b) * pow2(b)));
            n * pow2(b) <= w < (n + 1) * pow2(b)
        }),
{
    let pb = pow2(b) as int;
    lemma_pow2_pos(b);
    let r = x * (pow2(b) * pow2(b));
    let w = lemma_floor_root_exists(r) as int;
    lemma_floor_root_unique(r, w as nat);
    let lo = n * pb;
    let hi = (n + 1) * pb;
    let sq = pb * pb;
    lemma_swap_middle(n as int, pb, n as int, pb);
    lemma_swap_middle((n + 1) as int, pb, (n + 1) as int, pb);
    assert(sq > 0) by (nonlinear_arith)
        requires
            sq == pb * pb,
            pb > 0,
    ;
    assert(lo * lo <= x * sq) by (nonlinear_arith)
        requires
            lo * lo == (n * n) * sq,
            n * n <= x,
            sq > 0,
    ;
    assert(x * sq < hi * hi) by (nonlinear_arith)
        requires
            hi * hi == ((n + 1) * (n + 1)) * sq,
            x < (n + 1) * (n + 1),
            sq > 0,
    ;
    assert(lo >= 0 && hi >= 0) by (nonlinear_arith)
        requires
            lo == n * pb,
            hi == (n + 1) * pb,
            n >= 0,
            pb > 0,
    ;
    assert(lo <= w) by (nonlinear_arith)
        requires
            lo * lo <= r,
            r < (w + 1) * (w + 1),
            lo >= 0,
            w >= 0,
    ;
    assert(w < hi) by (nonlinear_arith)
        requires
            w * w <= r,
            r < hi * hi,
            hi >= 0,
            w >= 0,
    ;
}

/// Rounding the root of `x * 4^b` through the leading bits `n`.
proof fn lemma_nearest_root(x: nat, n: nat, b: nat, len: nat)
    requires
        is_floor_root(x, n),
        len == bit_length(n),
        len >= 25,
    ensures
        ({
            let d = (len - 24) as nat;
            let whole = n / pow2(d);
            let rest = n % pow2(d);
            let inexact = n * n != x;
            nearest_root(x * (pow2(b) * pow2(b))) == (b + d) * 0x80_0000 + if 2 * rest > pow2(d) || (2
                * rest == pow2(d) && (inexact || whole % 2 == 1)) {
                whole + 1
            } else {
                whole
            }
        }),
{
    let r = x * (pow2(b) * pow2(b));
    let w = floor_root(r);
    let d = (len - 24) as nat;
    let drop = b + d;
    let pb = pow2(b) as int;
    let pd = pow2(d) as int;
    lemma_scaled_root(x, n, b);
    lemma_pow2_pos(b);
    lemma_pow2_pos(d);
    lemma_pow2_adds(b, d);
    lemma_pow2_unfold(d);
    lemma_bit_length_bounds(n);
    // length of w
    lemma_pow2_adds((len - 1) as nat, b);
    lemma_pow2_adds(len, b);
    assert(pow2((len - 1) as nat) * pb <= n * pb) by (nonlinear_arith)
        requires
            pow2((len - 1) as nat) <= n,
            pb > 0,
    ;
    assert((n + 1) * pb <= pow2(len) * pb) by (nonlinear_arith)
        requires
            n + 1 <= pow2(len),
            pb > 0,
    ;
    lemma_bit_length_unique(w, len + b);
    // whole part of w
    let whole = n as int / pd;
    let rest = n as int % pd;
    assert(n == pd * whole + rest && 0 <= rest < pd && whole >= 0) by (nonlinear_arith)
        requires
            whole == n as int / pd,
            rest == n as int % pd,
            pd > 0,
            n >= 0,
    ;
    let left = w - (pb * pd) * whole;
    assert(n * pb == (pb * pd) * whole + rest * pb) by (nonlinear_arith)
        requires
            n == pd * whole + rest,
    ;
    assert((n + 1) * pb == n * pb + pb) by (nonlinear_arith);
    assert(0 <= rest * pb && rest * pb + pb <= pb * pd) by (nonlinear_arith)
        requires
            0 <= rest,
            rest + 1 <= pd,
            pb > 0,
    ;
    assert((pb * pd) * whole == whole * (pb * pd)) by (nonlinear_arith);
    vstd::arithmetic::div_mod::lemma_fundamental_div_mod_converse(w as int, pb * pd, whole, left);
    assert(w as int / (pb * pd) == whole);
    assert(w / pow2(drop) == whole);
    // the midpoint
    let half = pow2((d - 1) as nat) as int;
    let mid = whole * pd + half;
    let odd = 2 * whole + 1;
    assert(odd * pd == 2 * mid) by (nonlinear_arith)
        requires
            odd == 2 * whole + 1,
            mid == whole * pd + half,
            pd == 2 * half,
    ;
    let sq = pb * pb;
    assert(sq > 0) by (nonlinear_arith)
        requires
            sq == pb * pb,
            pb > 0,
    ;
    let pp = pow2(drop) as int * pow2(drop) as int;
    lemma_swap_middle(pb, pd, pb, pd);
    assert(pp == sq * (pd * pd));
    lemma_swap_middle(odd, pd, odd, pd);
    assert((odd * odd) * pp == ((odd * pd) * (odd * pd)) * sq) by (nonlinear_arith)
        requires
            pp == sq * (pd * pd),
            (odd * pd) * (odd * pd) == (odd * odd) * (pd * pd),
    ;
    assert((2 * mid) * (2 * mid) == 4 * (mid * mid)) by (nonlinear_arith);
    let mm = mid * mid;
    assert((4 * mm) * sq == 4 * (mm * sq)) by (nonlinear_arith);
    assert((odd * odd) * pp == 4 * (mm * sq));
    assert((mm < x ==> mm * sq < x * sq) && (mm == x ==> mm * sq == x * sq) && (mm > x ==> mm * sq > x * sq)) by (nonlinear_arith)
        requires
            sq > 0,
    ;
    assert(whole * pd == pd * whole) by (nonlinear_arith);
    assert(mid >= 0);
    if rest > half || (rest == half && n * n != x) {
        assert(mm < x) by (nonlinear_arith)
            requires
                mm == mid * mid,
                mid >= 0,
                mid < n || (mid == n && n * n != x),
                n * n <= x,
        ;
    } else if rest == half {
        assert(mm == x);
    } else {
        assert(mm > x) by (nonlinear_arith)
            requires
                mm == mid * mid,
                mid >= n + 1,
                n >= 0,
                x < (n + 1) * (n + 1),
        ;
    }
}

impl Num {
    pub fn sqrt(self) -> (r: Num)
        ensures
            r == root_of(self),
    {
        proof {
            reveal(root_of);
        }
        if self.bits % SIGN_BIT > INF_BITS {
            return Num { bits: NAN_BITS };
        }
        if self.bits % SIGN_BIT == 0 {
            return self;
        }
        if self.bits >= SIGN_BIT {
            return Num { bits: NAN_BITS };
        }
        if self.bits == INF_BITS {
            return self;
        }
        let (s, e) = split(self.bits);
        let len = bit_length_of(s);
        proof {
            lemma2_to64();
            lemma_bit_length_bounds(s as nat);
            if len > 24 {
                lemma_pow2_monotonic(24, (len - 1) as nat);
            }
        }
        // An even number of places stays outside the root.
        let lift: u32 = if (e as u32 + 149 + len) % 2 == 0 {
            60 - len
        } else {
            61 - len
        };
        let ghost pl = pow2(lift as nat);
        proof {
            lemma_pow2_pos(lift as nat);
            lemma_pow2_adds((len - 1) as nat, lift as nat);
            lemma_pow2_adds(len as nat, lift as nat);
            lemma_pow2_monotonic(59, (len - 1 + lift) as nat);
            lemma_pow2_monotonic((len + lift) as nat, 61);
            lemma_pow2_adds(32, 27);
            lemma_pow2_adds(32, 29);
            assert(pow2((len - 1) as nat) * pl <= s * pl) by (nonlinear_arith)
                requires
                    pow2((len - 1) as nat) <= s,
                    pl > 0,
            ;
            assert(s * pl < pow2(len as nat) * pl) by (nonlinear_arith)
                requires
                    s < pow2(len as nat),
                    pl > 0,
            ;
            vstd::bits::lemma_u64_shl_is_mul(s, lift as u64);
        }
        let x = s << (lift as u64);
        let b: u32 = (e as u32 + 149 - lift) / 2;
        let n = integer_root(x);
        let n_len = bit_length_of(n);
        let ghost pb = pow2(b as nat);
        proof {
            assert(n >= 0x1000_0000) by (nonlinear_arith)
                requires
                    x >= 0x800_0000_0000_0000,
                    x < (n + 1) * (n + 1),
                    n >= 0,
            ;
            lemma_bit_length_bounds(n as nat);
            if n_len < 29 {
                lemma_pow2_monotonic(n_len as nat, 28);
            }
            if n_len > 31 {
                lemma_pow2_monotonic(31, (n_len - 1) as nat);
            }
            // units * 2^149 == x * 4^b
            lemma_pow2_adds(b as nat, b as nat);
            lemma_pow2_adds(lift as nat, (2 * b) as nat);
            lemma_pow2_adds(e as nat, 149);
            assert(lift + 2 * b == e + 149);
            let u = self.units();
            lemma_triple(s as int, pow2(e as nat) as int, pow2(149) as int);
            lemma_triple(s as int, pl as int, pow2((2 * b) as nat) as int);
            assert(u * pow2(149) == x * (pb * pb));
            lemma_nearest_root(x as nat, n as nat, b as nat, n_len as nat);
        }
        let d: u32 = n_len - 24;
        let whole = n >> (d as u64);
        let half = 1u64 << ((d - 1) as u64);
        proof {
            vstd::bits::lemma_u64_shr_is_div(n, d as u64);
            lemma_pow2_strictly_increases((d - 1) as nat, 64);
            vstd::bits::lemma_u64_shl_is_mul(1, (d - 1) as u64);
            lemma_pow2_pos(d as nat);
            lemma_pow2_unfold(d as nat);
            let pd = pow2(d as nat);
            assert(n as nat == pd * (n as nat / pd) + n as nat % pd && 0 <= n as nat % pd < pd)
                by (nonlinear_arith)
                requires
                    pd > 0,
            ;
            assert(whole * pd == pd * whole) by (nonlinear_arith);
            vstd::bits::lemma_u64_shl_is_mul(whole, d as u64);
            lemma_pow2_adds(24, d as nat);
            assert(whole < 0x100_0000) by (nonlinear_arith)
                requires
                    pd * whole <= n,
                    n < 0x100_0000 * pd,
                    pd > 0,
            ;
            assert(n * n < 0x4000_0000_0000_0000) by (nonlinear_arith)
                requires
                    0 <= n < 0x8000_0000,
            ;
        }
        let rest = n - (whole << (d as u64));
        let inexact = n * n != x;
        let m = if rest > half || (rest == half && (inexact || whole % 2 == 1)) {
            whole + 1
        } else {
            whole
        };
        let coded: u64 = (b as u64 + d as u64) * 0x80_0000 + m;
        Num { bits: coded as u32 }
    }
}

pub proof fn lemma_nearest_bound(p: nat, q: nat)
    ensures
        nearest(p, q) <= INF_BITS,
{
}

pub proof fn lemma_signed(negative: bool, mag: nat)
    requires
        mag <= INF_BITS,
    ensures
        signed(negative, mag).mag() == mag,
        signed(negative, mag).negative() == negative,
        !signed(negative, mag).is_nan(),
{
}

/// Finite numbers add up to a number, if only to an infinite one.
pub proof fn law_sum_is_a_number(a: Num, b: Num)
    requires
        a.finite(),
        b.finite(),
    ensures
        !(a + b).is_nan(),
        !(a - b).is_nan(),
{
    reveal(sum_of);
    let v = a.value() + b.value();
    lemma_nearest_bound(absolute(v), 1);
    lemma_signed(v < 0, nearest(absolute(v), 1));
    lemma_signed(a.negative() && b.negative(), 0);
    lemma_signed(!b.negative(), b.mag());
    let c = negated(b);
    let w = a.value() + c.value();
    lemma_nearest_bound(absolute(w), 1);
    lemma_signed(w < 0, nearest(absolute(w), 1));
    lemma_signed(a.negative() && c.negative(), 0);
}

/// Finite numbers multiply to a number, if only to an infinite one.
pub proof fn law_product_is_a_number(a: Num, b: Num)
    requires
        a.finite(),
        b.finite(),
    ensures
        !(a * b).is_nan(),
        (a * b).negative() == (a.negative() != b.negative()),
{
    reveal(product_of);
    lemma_nearest_bound(a.units() * b.units(), pow2(149));
    lemma_signed(a.negative() != b.negative(), nearest(a.units() * b.units(), pow2(149)));
}

/// A significand of full length stays what it is.
pub proof fn lemma_nearest_exact(p: nat, q: nat, s: nat, e: nat)
    requires
        q > 0,
        0x80_0000 <= s < 0x100_0000,
        p == q * (s * pow2(e)),
        e * 0x80_0000 + s < INF_BITS,
    ensures
        nearest(p, q) == e * 0x80_0000 + s,
{
    lemma2_to64();
    lemma_pow2_pos(e);
    lemma_bit_length_unique(s, 24);
    let pe = pow2(e);
    assert(q * s * pe == p * 1) by (nonlinear_arith)
        requires
            p == q * (s * pe),
    ;
    assert(p * 1 < q * (s + 1) * pe) by (nonlinear_arith)
        requires
            q * s * pe == p * 1,
            q > 0,
            pe > 0,
    ;
    lemma_ratio_length(p, q, s, 0, e);
    lemma_round_exact(p, q, s, 0, e, e, 0);
}

/// Scaling a number of full precision by 256 is exact: the integer part of the
/// result is that of the significand at the new exponent.
pub proof fn lemma_times_256(a: Num, s: nat, e: nat)
    requires
        0x80_0000 <= s < 0x100_0000,
        a.bits == e * 0x80_0000 + s,
        100 <= e <= 140,
    ensures
        (a * of_int(256)).truncated(u32::MAX as nat) == s * pow2((e + 8) as nat) / pow2(149),
        s * pow2((e + 8) as nat) / pow2(149) <= 0xff_ffff,
{
    reveal(of_int);
    reveal(product_of);
    reveal(Num::truncated);
    lemma2_to64();
    lemma_pow2_pos(149);
    lemma_pow2_pos(e);
    // 256 is 2^23 * 2^134 units
    let c = num(0x4380_0000);
    let p = 256nat * pow2(149);
    lemma_pow2_adds(8, 149);
    lemma_pow2_adds(23, 134);
    assert(p == 1 * (0x80_0000nat * pow2(134)));
    lemma_nearest_exact(p, 1, 0x80_0000, 134);
    assert(absolute(256) == 256);
    assert(of_int(256) == c);
    assert(c.units() == 0x80_0000 * pow2(134));
    assert(a.units() == s * pow2(e));
    // the product is s * 2^(e + 8) units
    let pe = pow2(e) as int;
    let up = pow2((e + 8) as nat) as int;
    lemma_pow2_adds(e, 8);
    let q = pow2(149);
    let prod = a.units() * c.units();
    assert(c.units() == 256 * q);
    assert(prod == q * (s * pow2((e + 8) as nat))) by (nonlinear_arith)
        requires
            prod == (s * pe) * (256 * q),
            pow2((e + 8) as nat) == pe * 256,
    ;
    lemma_nearest_exact(prod, q, s, (e + 8) as nat);
    let r = a * of_int(256);
    lemma_signed(false, nearest(prod, q));
    assert(r.units() == s * pow2((e + 8) as nat));
    // below 2^24
    lemma_pow2_monotonic((e + 8) as nat, 148);
    lemma_pow2_unfold(149);
    let u = s * pow2((e + 8) as nat);
    assert(u < 0x100_0000 * q) by (nonlinear_arith)
        requires
            u == s * up,
            s < 0x100_0000,
            0 <= up,
            up < q,
            q > 0,
    ;
    let w = u / q;
    assert(w < 0x100_0000) by (nonlinear_arith)
        requires
            u < 0x100_0000 * q,
            w == u / q,
            q > 0,
    ;
}

/// The integer part of a significand shifted down by some places.
pub proof fn lemma_shifted_down(s: nat, k: nat)
    requires
        k <= 149,
    ensures
        s * pow2((149 - k) as nat) / pow2(149) == s / pow2(k),
{
    let a = (149 - k) as nat;
    lemma_pow2_adds(a, k);
    lemma_pow2_pos(a);
    lemma_pow2_pos(k);
    let pa = pow2(a) as int;
    let pk = pow2(k) as int;
    let w = s as int / pk;
    let r = s as int % pk;
    assert(s == pk * w + r && 0 <= r < pk) by (nonlinear_arith)
        requires
            w == s as int / pk,
            r == s as int % pk,
            pk > 0,
    ;
    assert(s * pa == w * (pa * pk) + r * pa && 0 <= r * pa < pa * pk) by (nonlinear_arith)
        requires
            s == pk * w + r,
            0 <= r < pk,
            pa > 0,
    ;
    vstd::arithmetic::div_mod::lemma_fundamental_div_mod_converse(s * pa, pa * pk, w, r * pa);
}

proof fn lemma_rearrange(a: int, b: int, c: int)
    by (nonlinear_arith)
    ensures
        (a * b) * c == (a * c) * b,
        a * (b * c) == (a * b) * c,
        a * b == b * a,
        a * (b + 1) == a * b + a,
{
}

proof fn lemma_scale_up(a: int, b: int, c: int)
    by (nonlinear_arith)
    requires
        c >= 0,
    ensures
        a <= b ==> a * c <= b * c,
{
}

proof fn lemma_scale_down(a: int, b: int, c: int)
    by (nonlinear_arith)
    requires
        c > 0,
    ensures
        a * c <= b * c ==> a <= b,
        a * c < b * c ==> a < b,
{
}

/// The rounded quotient stays in step with the quotient.
proof fn lemma_half_even_monotone(p1: nat, q1: nat, p2: nat, q2: nat)
    requires
        q1 > 0,
        q2 > 0,
        p1 * q2 <= p2 * q1,
    ensures
        half_even(p1, q1) <= half_even(p2, q2),
{
    let w1 = p1 / q1;
    let r1 = p1 % q1;
    let w2 = p2 / q2;
    let r2 = p2 % q2;
    assert(p1 == q1 * w1 + r1 && 0 <= r1 < q1) by (nonlinear_arith)
        requires
            q1 > 0,
            w1 == p1 / q1,
            r1 == p1 % q1,
    ;
    assert(p2 == q2 * w2 + r2 && 0 <= r2 < q2) by (nonlinear_arith)
        requires
            q2 > 0,
            w2 == p2 / q2,
            r2 == p2 % q2,
    ;
    let qq = q1 * q2;
    assert(qq > 0) by (nonlinear_arith)
        requires
            qq == q1 * q2,
            q1 > 0,
            q2 > 0,
    ;
    assert(p1 * q2 == qq * w1 + r1 * q2) by (nonlinear_arith)
        requires
            p1 == q1 * w1 + r1,
            qq == q1 * q2,
    ;
    assert(p2 * q1 == qq * w2 + r2 * q1) by (nonlinear_arith)
        requires
            p2 == q2 * w2 + r2,
            qq == q1 * q2,
    ;
    assert(0 <= r1 * q2 && 0 <= r2 * q1 && r2 * q1 < qq) by (nonlinear_arith)
        requires
            0 <= r1,
            0 <= r2 < q2,
            q1 > 0,
            q2 > 0,
            qq == q1 * q2,
    ;
    assert(w1 <= w2) by (nonlinear_arith)
        requires
            qq * w1 + r1 * q2 <= qq * w2 + r2 * q1,
            0 <= r1 * q2,
            r2 * q1 < qq,
            qq > 0,
    ;
    if w1 == w2 {
        assert(r1 * q2 <= r2 * q1);
        assert(2 * (r1 * q2) == (2 * r1) * q2 && 2 * (r2 * q1) == (2 * r2) * q1) by (nonlinear_arith);
        assert((2 * r1 > q1 ==> 2 * r2 > q2) && (2 * r1 == q1 ==> 2 * r2 >= q2)) by (nonlinear_arith)
            requires
                (2 * r1) * q2 <= (2 * r2) * q1,
                q1 > 0,
                q2 > 0,
        ;
    }
}

proof fn lemma_bit_length_monotone(a: nat, b: nat)
    requires
        a <= b,
    ensures
        bit_length(a) <= bit_length(b),
    decreases b,
{
    if a > 0 {
        lemma_bit_length_monotone(a / 2, b / 2);
    }
}

/// How many bits the significand has after rounding: all 24 wherever bits were
/// dropped.
proof fn lemma_significand(p: nat, q: nat)
    requires
        q > 0,
    ensures
        ({
            let drop = floor_at_zero(bit_length(p / q) - 24);
            let m = half_even(p, q * pow2(drop));
            &&& m <= 0x100_0000
            &&& drop > 0 ==> m >= 0x80_0000 && 0x80_0000 * (q * pow2(drop)) <= p
            &&& q * pow2(drop) > 0
        }),
{
    let w = p / q;
    let len = bit_length(w);
    let drop = floor_at_zero(len - 24);
    let unit = q * pow2(drop);
    lemma2_to64();
    lemma_pow2_pos(drop);
    assert(unit > 0) by (nonlinear_arith)
        requires
            unit == q * pow2(drop),
            q > 0,
            pow2(drop) > 0,
    ;
    lemma_bit_length_bounds(w);
    let rest = p % q;
    assert(p == q * w + rest && 0 <= rest < q) by (nonlinear_arith)
        requires
            q > 0,
            w == p / q,
            rest == p % q,
    ;
    // p / unit < 2^24
    lemma_pow2_adds(24, drop);
    if len > 24 {
        assert(24 + drop == len);
    } else {
        lemma_pow2_monotonic(len, 24);
    }
    let pd = pow2(drop) as int;
    assert(w < 0x100_0000 * pd);
    assert(p < 0x100_0000 * unit) by {
        lemma_rearrange(q as int, w as int, 0);
        lemma_scale_up((w + 1) as int, (0x100_0000 * pd) as int, q as int);
        lemma_rearrange(0x100_0000, pd as int, q as int);
        lemma_rearrange(q as int, (w + 1) as int, 0);
        lemma_rearrange(pd as int, q as int, 0);
    }
    let whole = p / unit;
    assert(whole < 0x100_0000) by (nonlinear_arith)
        requires
            p < 0x100_0000 * unit,
            whole == p / unit,
            unit > 0,
    ;
    if drop > 0 {
        lemma_pow2_adds(23, drop);
        assert(len - 1 == 23 + drop);
        assert(w >= 0x80_0000 * pd);
        assert(p >= 0x80_0000 * unit) by {
            lemma_scale_up((0x80_0000 * pd) as int, w as int, q as int);
            lemma_rearrange(0x80_0000, pd as int, q as int);
            lemma_rearrange(w as int, q as int, 0);
            lemma_rearrange(pd as int, q as int, 0);
        }
        assert(whole >= 0x80_0000) by (nonlinear_arith)
            requires
                p >= 0x80_0000 * unit,
                whole == p / unit,
                unit > 0,
        ;
    }
}

/// Rounding keeps the order of quotients.
pub proof fn lemma_nearest_monotone(p1: nat, q1: nat, p2: nat, q2: nat)
    requires
        q1 > 0,
        q2 > 0,
        p1 * q2 <= p2 * q1,
    ensures
        nearest(p1, q1) <= nearest(p2, q2),
{
    let w1 = p1 / q1;
    let w2 = p2 / q2;
    // w1 <= w2
    let r1 = p1 % q1;
    let r2 = p2 % q2;
    assert(p1 == q1 * w1 + r1 && 0 <= r1 < q1) by (nonlinear_arith)
        requires
            q1 > 0,
            w1 == p1 / q1,
            r1 == p1 % q1,
    ;
    assert(p2 == q2 * w2 + r2 && 0 <= r2 < q2) by (nonlinear_arith)
        requires
            q2 > 0,
            w2 == p2 / q2,
            r2 == p2 % q2,
    ;
    assert(w1 <= w2) by {
        if w1 > w2 {
            let qq = q1 * q2;
            assert(p1 * q2 >= qq * w1) by (nonlinear_arith)
                requires
                    p1 == q1 * w1 + r1,
                    r1 >= 0,
                    q2 > 0,
                    qq == q1 * q2,
            ;
            assert(p2 * q1 < qq * (w2 + 1)) by (nonlinear_arith)
                requires
                    p2 == q2 * w2 + r2,
                    r2 < q2,
                    q1 > 0,
                    qq == q1 * q2,
            ;
            assert(qq * (w2 + 1) <= qq * w1) by (nonlinear_arith)
                requires
                    w2 + 1 <= w1,
                    qq == q1 * q2,
                    q1 > 0,
                    q2 > 0,
            ;
        }
    }
    lemma_bit_length_monotone(w1, w2);
    let d1 = floor_at_zero(bit_length(w1) - 24);
    let d2 = floor_at_zero(bit_length(w2) - 24);
    lemma_significand(p1, q1);
    lemma_significand(p2, q2);
    if d1 == d2 {
        let pd = pow2(d1) as int;
        lemma_pow2_pos(d1);
        lemma_rearrange(p1 as int, q2 as int, pd as int);
        lemma_rearrange(p2 as int, q1 as int, pd as int);
        lemma_scale_up((p1 * q2) as int, (p2 * q1) as int, pd as int);
        lemma_half_even_monotone(p1, q1 * pow2(d1), p2, q2 * pow2(d1));
    } else {
        assert(d1 < d2);
    }
}

/// What the magnitude of a rounded quotient stands for.
proof fn lemma_nearest_units(p: nat, q: nat)
    requires
        q > 0,
        nearest(p, q) < INF_BITS,
    ensures
        ({
            let drop = floor_at_zero(bit_length(p / q) - 24);
            (Num { bits: nearest(p, q) as u32 }).units() == half_even(p, q * pow2(drop)) * pow2(drop)
        }),
{
    let drop = floor_at_zero(bit_length(p / q) - 24);
    let m = half_even(p, q * pow2(drop));
    lemma_significand(p, q);
    lemma2_to64();
    let v = Num { bits: nearest(p, q) as u32 };
    assert(v.mag() == drop * 0x80_0000 + m);
    if m == 0x100_0000 {
        lemma_pow2_unfold((drop + 1) as nat);
        assert(v.mag() == (drop + 2) * 0x80_0000);
        assert(0x80_0000 * (2 * pow2(drop)) == 0x100_0000 * pow2(drop));
    } else if m < 0x80_0000 {
        assert(drop == 0);
        assert(m * pow2(0) == m);
    }
}

/// Magnitudes and what they stand for keep the same order.
pub proof fn lemma_units_monotone(a: Num, b: Num)
    requires
        a.finite(),
        b.finite(),
        a.mag() <= b.mag(),
    ensures
        a.units() <= b.units(),
        a.mag() < b.mag() ==> a.units() < b.units(),
{
    let (m, n) = (a.mag(), b.mag());
    lemma2_to64();
    if m >= 0x80_0000 {
        let ea = (m / 0x80_0000 - 1) as nat;
        let eb = (n / 0x80_0000 - 1) as nat;
        let sa = 0x80_0000 + m % 0x80_0000;
        let sb = 0x80_0000 + n % 0x80_0000;
        lemma_pow2_pos(ea);
        if ea == eb {
            assert((sa <= sb ==> sa * pow2(ea) <= sb * pow2(ea)) && (sa < sb ==> sa * pow2(ea) < sb * pow2(ea)))
                by (nonlinear_arith)
                requires
                    pow2(ea) > 0,
            ;
        } else {
            lemma_pow2_unfold((ea + 1) as nat);
            lemma_pow2_monotonic((ea + 1) as nat, eb);
            assert(sa * pow2(ea) < sb * pow2(eb)) by (nonlinear_arith)
                requires
                    sa < 0x100_0000,
                    sb >= 0x80_0000,
                    pow2(eb) >= 2 * pow2(ea),
                    pow2(ea) > 0,
            ;
        }
    } else if n >= 0x80_0000 {
        let eb = (n / 0x80_0000 - 1) as nat;
        let sb = 0x80_0000 + n % 0x80_0000;
        lemma_pow2_pos(eb);
        assert(sb * pow2(eb) >= sb) by (nonlinear_arith)
            requires
                pow2(eb) >= 1,
                sb >= 0,
        ;
    }
}

/// The numeric order is the order of the values.
pub proof fn lemma_order_of_values(a: Num, b: Num)
    requires
        a.finite(),
        b.finite(),
    ensures
        a.rank() <= b.rank() <==> a.value() <= b.value(),
{
    lemma_units_positive(a);
    lemma_units_positive(b);
    if a.mag() <= b.mag() {
        lemma_units_monotone(a, b);
    }
    if b.mag() <= a.mag() {
        lemma_units_monotone(b, a);
    }
}

/// A value that is not exactly a number is rounded, and larger values to numbers
/// no smaller.
proof fn lemma_rounded_order(v: int, w: int, zero_v: bool, zero_w: bool)
    requires
        v <= w,
    ensures
        ({
            let a = if v == 0 {
                signed(zero_v, 0)
            } else {
                signed(v < 0, nearest(absolute(v), 1))
            };
            let b = if w == 0 {
                signed(zero_w, 0)
            } else {
                signed(w < 0, nearest(absolute(w), 1))
            };
            !a.is_nan() && !b.is_nan() && a.rank() <= b.rank()
        }),
{
    lemma_nearest_bound(absolute(v), 1);
    lemma_nearest_bound(absolute(w), 1);
    lemma_signed(zero_v, 0);
    lemma_signed(zero_w, 0);
    lemma_signed(v < 0, nearest(absolute(v), 1));
    lemma_signed(w < 0, nearest(absolute(w), 1));
    if 0 <= v {
        lemma_nearest_monotone(absolute(v), 1, absolute(w), 1);
    }
    if w <= 0 {
        lemma_nearest_monotone(absolute(w), 1, absolute(v), 1);
    }
}

/// Taking more away never leaves more.
pub proof fn law_taking_more_leaves_no_more(a: Num, less: Num, more: Num)
    requires
        a.finite(),
        !more.is_nan(),
        !less.negative(),
        less.within(more),
    ensures
        (a - more).within(a - less),
{
    reveal(sum_of);
    lemma_signed(!less.negative(), less.mag());
    lemma_signed(!more.negative(), more.mag());
    let (l, m) = (negated(less), negated(more));
    if more.finite() && less.finite() {
        lemma_order_of_values(less, more);
        lemma_negated_value(less);
        lemma_negated_value(more);
        lemma_rounded_order(
            a.value() + m.value(),
            a.value() + l.value(),
            a.negative() && m.negative(),
            a.negative() && l.negative(),
        );
    } else if less.finite() {
        assert(more.is_infinite() && !more.negative());
        lemma_rounded_order(a.value() + l.value(), a.value() + l.value(), a.negative() && l.negative(), a.negative()
            && l.negative());
    }
}

proof fn lemma_negated_value(a: Num)
    requires
        a.finite(),
    ensures
        negated(a).finite(),
        negated(a).value() == -a.value(),
{
    lemma_signed(!a.negative(), a.mag());
}

/// A finite number stands for itself.
proof fn lemma_stands_for_itself(a: Num)
    requires
        a.finite(),
    ensures
        nearest(a.units(), 1) == a.mag(),
{
    let m = a.mag();
    lemma2_to64();
    if m < 0x80_0000 {
        lemma_bit_length_bounds(m);
        if bit_length(m) > 24 {
            lemma_pow2_monotonic(23, (bit_length(m) - 1) as nat);
        }
        assert(m / 1 == m);
        assert(1 * pow2(0) == 1);
    } else {
        let e = (m / 0x80_0000 - 1) as nat;
        let sig = (0x80_0000 + m % 0x80_0000) as nat;
        assert(a.units() == 1 * (sig * pow2(e)));
        lemma_nearest_exact(a.units(), 1, sig, e);
    }
}

/// What is left of a finite amount, if there is any, is finite and no more than
/// there was; and nothing is left if all is taken.
pub proof fn law_what_is_left(a: Num, taken: Num)
    requires
        a.finite(),
        taken.finite(),
        num(0).within(taken),
    ensures
        (a - taken).within(a),
        num(0).below(a - taken) ==> (a - taken).finite(),
        (a - a).rank() == 0,
        !(a - a).is_nan(),
{
    let zero = num(0);
    law_taking_more_leaves_no_more(a, zero, taken);
    law_sum_is_a_number(a, a);
    reveal(sum_of);
    lemma_stands_for_itself(a);
    lemma_negated_value(zero);
    lemma_negated_value(a);
    lemma_units_positive(a);
    lemma_signed(a.negative(), a.mag());
    lemma_signed(!a.negative(), a.mag());
    lemma_signed(true, 0);
    lemma_signed(false, 0);
    assert(zero.units() == 0);
    assert(a.value() + negated(zero).value() == a.value());
    assert(a.value() != 0 ==> absolute(a.value()) == a.units());
}

/// What is no number is none with the other sign either.
pub proof fn lemma_negated_nan(a: Num)
    requires
        a.is_nan(),
    ensures
        negated(a).is_nan(),
{
    let m = a.mag();
    assert((SIGN_BIT + m) % SIGN_BIT as int == m && m % SIGN_BIT as nat == m) by {
        assert(m < SIGN_BIT);
    }
}

/// Adding something never leaves less.
pub proof fn law_adding_leaves_no_less(a: Num, b: Num)
    requires
        !a.is_nan(),
        num(0).within(b),
        a.finite() || b.finite() || !a.negative(),
    ensures
        a.within(a + b),
{
    reveal(sum_of);
    let zero = num(0);
    if a.finite() && b.finite() {
        lemma_order_of_values(zero, b);
        assert(zero.units() == 0);
        lemma_rounded_order(
            a.value(),
            a.value() + b.value(),
            a.negative(),
            a.negative() && b.negative(),
        );
        lemma_stands_for_itself(a);
        lemma_units_positive(a);
        lemma_signed(a.negative(), a.mag());
        lemma_signed(true, 0);
        lemma_signed(false, 0);
    }
}

/// Taking something away never leaves more, however much it is.
pub proof fn law_taking_leaves_no_more(a: Num, b: Num)
    requires
        a.finite(),
        num(0).within(b),
    ensures
        (a - b).within(a),
{
    let zero = num(0);
    law_taking_more_leaves_no_more(a, zero, b);
    law_what_is_left(a, zero);
}

/// Something is left, if only nothing, where no more is taken than there was.
pub proof fn law_less_can_be_taken(a: Num, b: Num)
    requires
        a.finite(),
        b.finite(),
        b.within(a),
    ensures
        num(0).within(a - b),
{
    reveal(sum_of);
    lemma_order_of_values(b, a);
    lemma_negated_value(b);
    lemma_rounded_order(0, a.value() + negated(b).value(), false, a.negative() && negated(b).negative());
    lemma_signed(false, 0);
}

/// What is not negative times what is not negative is not negative, where it is a
/// number.
pub proof fn law_no_product_is_negative(a: Num, b: Num)
    requires
        num(0).within(a),
        num(0).within(b),
    ensures
        (a * b).is_nan() || num(0).within(a * b),
        a.finite() && b.finite() ==> num(0).within(a * b),
{
    reveal(product_of);
    lemma_pow2_pos(149);
    lemma_signed(true, INF_BITS as nat);
    lemma_signed(false, INF_BITS as nat);
    if a.finite() && b.finite() {
        let n = a.units() * b.units();
        lemma_nearest_bound(n, pow2(149));
        lemma_signed(true, nearest(n, pow2(149)));
        lemma_signed(false, nearest(n, pow2(149)));
        if a.negative() || b.negative() {
            assert(n == 0) by (nonlinear_arith)
                requires
                    n == a.units() * b.units(),
                    a.units() == 0 || b.units() == 0,
            ;
            lemma_nearest_zero(pow2(149));
        }
    }
}

/// A part of something, as a share of the whole, is a finite number between nothing
/// and one.
pub proof fn law_a_share_is_finite(part: Num, whole: Num)
    requires
        whole.finite(),
        num(0).below(whole),
        num(0).within(part),
        part.within(whole),
    ensures
        (part / whole).finite(),
        num(0).within(part / whole),
        (part / whole).within(num(ONE)),
{
    reveal(quotient_of);
    let one = num(ONE);
    let (p, w, c) = (part.units(), whole.units(), pow2(149));
    lemma_units_monotone(part, whole);
    lemma_units_positive(whole);
    lemma_pow2_pos(149);
    lemma_one_units();
    assert((p * c) * 1 <= c * w) by (nonlinear_arith)
        requires
            p <= w,
            c > 0,
            p >= 0,
    ;
    lemma_nearest_monotone(p * c, w, c, 1);
    lemma_stands_for_itself(one);
    let share = nearest(p * c, w);
    lemma_signed(true, share);
    lemma_signed(false, share);
    if part.negative() {
        assert(p * c == 0) by (nonlinear_arith)
            requires
                p == 0,
        ;
        lemma_nearest_zero(w);
    }
}

/// No share of a finite amount is infinite.
pub proof fn law_a_share_of_something_is_finite(a: Num, share: Num)
    requires
        a.finite(),
        num(0).within(a),
        num(0).within(share),
        share.within(num(ONE)),
    ensures
        (a * share).finite(),
        num(0).within(a * share),
{
    reveal(product_of);
    law_no_product_is_negative(a, share);
    let one = num(ONE);
    let (p, q, c) = (a.units(), share.units(), pow2(149));
    lemma_pow2_pos(149);
    lemma_one_units();
    if share.negative() {
        lemma_units_monotone(share, num(0));
    } else {
        lemma_units_monotone(share, one);
    }
    assert((p * q) * 1 <= p * c) by (nonlinear_arith)
        requires
            q <= c,
            p >= 0,
    ;
    lemma_nearest_monotone(p * q, c, p, 1);
    lemma_stands_for_itself(a);
    let n = nearest(p * q, c);
    lemma_signed(true, n);
    lemma_signed(false, n);
}

proof fn lemma_one_units()
    ensures
        num(ONE).units() == pow2(149),
{
    lemma2_to64();
    lemma_pow2_adds(23, 126);
}

/// From a half on, numbers are whole multiples of 2^-24.
proof fn lemma_coarse(a: Num) -> (k: nat)
    requires
        a.finite(),
        a.mag() >= 0x3F00_0000,
    ensures
        a.units() == k * pow2(125),
{
    let m = a.mag();
    let e = (m / 0x80_0000 - 1) as nat;
    let sig = (0x80_0000 + m % 0x80_0000) as nat;
    lemma_pow2_adds((e - 125) as nat, 125);
    let (x, y) = (pow2((e - 125) as nat), pow2(125));
    assert(sig * (x * y) == (sig * x) * y) by (nonlinear_arith);
    sig * x
}

/// What is left of something when less than all is taken is a share of it that does
/// not vanish.
pub proof fn law_what_is_left_is_a_share(whole: Num, taken: Num)
    requires
        whole.finite(),
        num(0).within(taken),
        taken.within(num(FULL)),
        taken.below(whole),
    ensures
        num(0).below((whole - taken) / whole),
{
    reveal(sum_of);
    reveal(quotient_of);
    let left = whole - taken;
    law_less_can_be_taken(whole, taken);
    law_taking_leaves_no_more(whole, taken);
    law_a_share_is_finite(left, whole);
    lemma_order_of_values(whole, taken);
    lemma_negated_value(taken);
    let (t, h, c) = (whole.units(), taken.units(), pow2(149));
    let v = t - h;
    assert(taken.negative() ==> h == 0) by {
        if taken.negative() {
            lemma_units_monotone(taken, num(0));
        }
    }
    assert(v > 0);
    assert(left == signed(false, nearest(v as nat, 1)));
    lemma_nearest_bound(v as nat, 1);
    lemma_signed(false, nearest(v as nat, 1));
    lemma_pow2_pos(149);
    lemma_one_units();
    // 2^-24, a half, 128
    let (tiny, half, big) = (num(0x3380_0000), num(0x3F00_0000), num(0x4300_0000));
    lemma2_to64();
    lemma_pow2_adds(23, 102);
    lemma_pow2_adds(23, 125);
    lemma_pow2_adds(23, 133);
    lemma_pow2_adds(7, 149);
    lemma_pow2_adds(1, 148);
    lemma_pow2_adds(8, 149);
    lemma_pow2_pos(125);
    assert(tiny.units() == pow2(125));
    assert(half.units() == pow2(148));
    assert(big.units() == pow2(156));
    assert(c <= left.units() * c && t <= left.units() * c) by {
        lemma_at_least(left, v as nat, num(1));
        if t <= c {
            assert(c <= left.units() * c) by (nonlinear_arith)
                requires
                    left.units() >= 1,
                    c > 0,
            ;
        } else if t >= 2 * pow2(156) {
            lemma_units_monotone(taken.abs(), num(FULL));
            lemma_units_monotone(num(FULL), big);
            lemma_at_least(left, v as nat, big);
            lemma_units_below(whole);
            let (u, b) = (left.units(), pow2(156));
            lemma_pow2_adds(156, 149);
            lemma_pow2_strictly_increases(277, 305);
            assert(b * c <= u * c) by (nonlinear_arith)
                requires
                    b <= u,
                    c > 0,
            ;
        } else {
            if h >= half.units() {
                if taken.mag() < half.mag() {
                    lemma_units_monotone(taken, half);
                }
                if whole.mag() < half.mag() {
                    lemma_units_monotone(whole, half);
                }
                let k1 = lemma_coarse(whole);
                let k2 = lemma_coarse(taken);
                let p = pow2(125);
                assert(p <= k1 * p - k2 * p) by (nonlinear_arith)
                    requires
                        k1 * p - k2 * p > 0,
                        p > 0,
                ;
            } else {
                lemma_pow2_strictly_increases(125, 148);
            }
            assert(v >= pow2(125));
            lemma_at_least(left, v as nat, tiny);
            lemma_pow2_strictly_increases(8, 125);
            let u = left.units();
            assert(pow2(8) * c <= u * c) by (nonlinear_arith)
                requires
                    pow2(8) <= u,
                    c > 0,
            ;
        }
    }
    lemma_stands_for_itself(num(1));
    lemma_nearest_monotone(1, 1, left.units() * c, t);
    lemma_nearest_bound(left.units() * c, t);
    lemma_signed(false, nearest(left.units() * c, t));
}

/// What an amount is rounded to is no less than any number the amount is no less
/// than.
proof fn lemma_at_least(rounded: Num, v: nat, least: Num)
    requires
        rounded.finite(),
        rounded.mag() == nearest(v, 1),
        least.finite(),
        least.units() <= v,
    ensures
        least.units() <= rounded.units(),
{
    lemma_stands_for_itself(least);
    lemma_nearest_monotone(least.units(), 1, v, 1);
    lemma_units_monotone(least, rounded);
}

proof fn lemma_units_below(a: Num)
    requires
        a.finite(),
    ensures
        a.units() < pow2(277),
{
    let m = a.mag();
    lemma2_to64();
    if m < 0x80_0000 {
        lemma_pow2_strictly_increases(23, 277);
    } else {
        let e = (m / 0x80_0000 - 1) as nat;
        let sig = (0x80_0000 + m % 0x80_0000) as nat;
        assert(e <= 253);
        lemma_pow2_monotonic(e, 253);
        lemma_pow2_adds(24, 253);
        lemma_pow2_pos(253);
        let (x, y) = (pow2(e), pow2(253));
        assert(sig * x < 0x100_0000 * y) by (nonlinear_arith)
            requires
                0 <= sig < 0x100_0000,
                0 <= x <= y,
                y > 0,
        ;
    }
}

/// So many times more is never less.
pub proof fn law_more_times_is_no_less(less: Num, more: Num, each: Num)
    requires
        less.finite(),
        more.finite(),
        each.finite(),
        !less.negative(),
        !more.negative(),
        !each.negative(),
        less.within(more),
    ensures
        (less * each).within(more * each),
        !(less * each).negative(),
{
    reveal(product_of);
    lemma_units_monotone(less, more);
    lemma_pow2_pos(149);
    let (p, q, r, c) = (less.units(), more.units(), each.units(), pow2(149));
    assert((p * r) * c <= (q * r) * c) by (nonlinear_arith)
        requires
            p <= q,
            r >= 0,
            c > 0,
            p >= 0,
    ;
    lemma_nearest_monotone(p * r, c, q * r, c);
    lemma_nearest_bound(p * r, c);
    lemma_nearest_bound(q * r, c);
    lemma_signed(false, nearest(p * r, c));
    lemma_signed(false, nearest(q * r, c));
}

/// The order of the factors makes no difference.
pub proof fn law_products_commute(a: Num, b: Num)
    ensures
        a * b == b * a,
{
    reveal(product_of);
    vstd::arithmetic::mul::lemma_mul_is_commutative(a.units() as int, b.units() as int);
}

/// Larger counts are rounded to numbers no smaller.
pub proof fn law_counts_keep_their_order(i: nat, j: nat)
    requires
        i <= j,
        j <= 0x1_0000_0000_0000_0000,
    ensures
        of_int(i as int).finite(),
        of_int(j as int).finite(),
        !of_int(i as int).negative(),
        !of_int(j as int).negative(),
        of_int(i as int).within(of_int(j as int)),
{
    reveal(of_int);
    let c = pow2(149);
    lemma_pow2_pos(149);
    lemma2_to64();
    lemma_pow2_adds(64, 149);
    lemma_pow2_adds(23, 190);
    let top = 0x1_0000_0000_0000_0000nat * c;
    assert(i * c <= j * c && j * c <= top) by (nonlinear_arith)
        requires
            i <= j,
            j <= 0x1_0000_0000_0000_0000,
            c > 0,
            top == 0x1_0000_0000_0000_0000 * c,
    ;
    lemma_nearest_monotone(i * c, 1, j * c, 1);
    lemma_nearest_monotone(j * c, 1, top, 1);
    lemma_nearest_exact(top, 1, 0x80_0000, 190);
    lemma_signed(false, 0);
    lemma_signed(false, nearest(i * c, 1));
    lemma_signed(false, nearest(j * c, 1));
}

/// Integers of up to 24 bits are numbers exactly.
pub proof fn lemma_small_ints_are_exact(i: nat)
    requires
        i < 0x100_0000,
    ensures
        of_int(i as int).finite(),
        !of_int(i as int).negative(),
        of_int(i as int).units() == i * pow2(149),
{
    reveal(of_int);
    lemma2_to64();
    lemma_pow2_pos(149);
    lemma_signed(false, 0);
    if i > 0 {
        let p = i * pow2(149);
        let len = bit_length(i);
        lemma_bit_length_bounds(i);
        if len > 24 {
            lemma_pow2_monotonic(24, (len - 1) as nat);
        }
        assert(1 * i * pow2(149) == p * 1);
        assert(p * 1 < 1 * (i + 1) * pow2(149)) by (nonlinear_arith)
            requires
                p == i * pow2(149),
                pow2(149) > 0,
        ;
        lemma_ratio_length(p, 1, i, 0, 149);
        let drop = (len + 149 - 24) as nat;
        let j = (24 - len) as nat;
        lemma_round_exact(p, 1, i, 0, 149, drop, j);
        lemma_significand(p, 1);
        assert(nearest(p, 1) < INF_BITS);
        lemma_nearest_units(p, 1);
        lemma_pow2_adds(j, drop);
        let m = i * pow2(j);
        assert(m * pow2(drop) == i * pow2(149)) by (nonlinear_arith)
            requires
                m == i * pow2(j),
                pow2(j) * pow2(drop) == pow2(149),
        ;
        lemma_signed(false, nearest(p, 1));
        assert(of_int(i as int) == (Num { bits: nearest(p, 1) as u32 }));
    } else {
        assert(0 * pow2(149) == 0);
    }
}

/// Rounding up moves a quotient by at most one part in 2^24.
proof fn lemma_rounding_error(p: nat, q: nat)
    requires
        q > 0,
        nearest(p, q) < INF_BITS,
        bit_length(p / q) > 24,
    ensures
        0x100_0000 * ((Num { bits: nearest(p, q) as u32 }).units() * q) <= 0x100_0001 * p,
{
    let drop = floor_at_zero(bit_length(p / q) - 24);
    let unit = q * pow2(drop);
    let m = half_even(p, unit);
    lemma_significand(p, q);
    lemma_nearest_units(p, q);
    let whole = p / unit;
    let rest = p % unit;
    assert(p == unit * whole + rest && 0 <= rest < unit) by (nonlinear_arith)
        requires
            unit > 0,
            whole == p / unit,
            rest == p % unit,
    ;
    // 2 * m * unit <= 2 * p + unit
    assert(2 * (m * unit) <= 2 * p + unit) by {
        if m == whole {
            assert(m * unit == unit * whole) by (nonlinear_arith)
                requires
                    m == whole,
            ;
        } else {
            assert(m * unit == unit * whole + unit) by (nonlinear_arith)
                requires
                    m == whole + 1,
            ;
        }
    }
    assert(0x80_0000 * unit <= p);
    let u = m * pow2(drop);
    assert(u * q == m * unit) by (nonlinear_arith)
        requires
            u == m * pow2(drop),
            unit == q * pow2(drop),
    ;
}

/// The part of a length that a smaller index makes up, in cells: computed with
/// rounding it never comes out beyond the last cell.
pub proof fn lemma_scaled_index(x: nat, w: nat, cells: nat)
    requires
        x < w,
        w < 0x100_0000,
        0 < cells < 0x80_0000,
    ensures
        (of_int(x as int) * (of_int(cells as int) / of_int(w as int))).truncated(u64::MAX as nat) <= cells,
{
    reveal(quotient_of);
    reveal(product_of);
    reveal(Num::truncated);
    lemma_small_ints_are_exact(x);
    lemma_small_ints_are_exact(w);
    lemma_small_ints_are_exact(cells);
    lemma2_to64();
    lemma_pow2_pos(149);
    let c = pow2(149);
    let (nx, nw, nc) = (of_int(x as int), of_int(w as int), of_int(cells as int));
    lemma_units_positive(nx);
    lemma_units_positive(nw);
    lemma_units_positive(nc);
    assert(w * c > 0 && cells * c > 0) by (nonlinear_arith)
        requires
            w > 0,
            cells > 0,
            c > 0,
    ;
    // the scale
    let p = nc.units() * c;
    let q = nw.units();
    let scale = nc / nw;
    lemma_nearest_bound(p, q);
    lemma_signed(false, nearest(p, q));
    assert(scale == signed(false, nearest(p, q)));
    // cells / w >= 2^-24, so no precision is lost to the bottom of the range,
    // and cells / w < 2^24 is far from the top
    let t = p / q;
    assert(p == (cells * c) * c && q == w * c);
    assert(p * 1 == (cells * c) * c);
    assert(t * w <= cells * c && cells * c < (t + 1) * w) by {
        let r = p % q;
        assert(p == q * t + r && 0 <= r < q) by (nonlinear_arith)
            requires
                q > 0,
                t == p / q,
                r == p % q,
        ;
        lemma_rearrange(w as int, c as int, t as int);
        lemma_rearrange(w as int, t as int, 0);
        lemma_scale_down((t * w) as int, (cells * c) as int, c as int);
        lemma_rearrange(w as int, (t + 1) as int, 0);
        lemma_rearrange(c as int, (w * t) as int, 0);
        lemma_rearrange(c as int, ((t + 1) * w) as int, 0);
        lemma_rearrange(c as int, (t * w + w) as int, 0);
        assert((t + 1) * w == t * w + w) by (nonlinear_arith);
        assert(((t + 1) * w) * c == (t * w) * c + w * c) by (nonlinear_arith)
            requires
                (t + 1) * w == t * w + w,
        ;
        lemma_scale_down((cells * c) as int, ((t + 1) * w) as int, c as int);
    }
    lemma_pow2_adds(125, 24);
    lemma_pow2_pos(125);
    assert(t + 1 > pow2(125)) by {
        lemma_scale_up(1, cells as int, c as int);
        lemma_scale_up(w as int, 0x100_0000, (t + 1) as int);
        lemma_rearrange((t + 1) as int, w as int, 0);
    }
    lemma_bit_length_bounds(t);
    lemma_pow2_monotonic(32, 125);
    assert(bit_length(t) > 24) by {
        if bit_length(t) <= 24 {
            lemma_pow2_monotonic(bit_length(t), 24);
        }
    }
    assert(t <= cells * c) by (nonlinear_arith)
        requires
            t * w <= cells * c,
            w >= 1,
            t >= 0,
    ;
    // below infinity
    assert(nearest(p, q) < INF_BITS) by {
        lemma_pow2_adds(23, 149);
        assert(cells * c < 0x80_0000 * c) by (nonlinear_arith)
            requires
                cells < 0x80_0000,
                c > 0,
        ;
        if bit_length(t) > 173 {
            lemma_pow2_monotonic(173, (bit_length(t) - 1) as nat);
            lemma_pow2_monotonic(172, 173);
        }
        lemma_significand(p, q);
    }
    lemma_rounding_error(p, q);
    let u = scale.units();
    assert(scale.units() == (Num { bits: nearest(p, q) as u32 }).units());
    // 2^24 * u * w <= (2^24 + 1) * cells * c
    let bu = 0x100_0000 * (u * w);
    let bc = 0x100_0001 * (cells * c);
    assert(bu <= bc) by {
        lemma_rearrange(u as int, w as int, c as int);
        lemma_rearrange(0x100_0000, (u * w) as int, c as int);
        lemma_rearrange(0x100_0001, (cells * c) as int, c as int);
        lemma_scale_down(bu as int, bc as int, c as int);
    }
    // x * u <= cells * c
    assert(x * u <= cells * c) by {
        let k = cells * c;
        lemma_scale_up((x + 1) as int, w as int, u as int);
        lemma_rearrange(u as int, x as int, 0);
        lemma_rearrange(u as int, w as int, 0);
        lemma_rearrange(u as int, (x + 1) as int, 0);
        assert(u * (x + 1) == u * x + u);
        lemma_scale_up(x as int, 0x100_0000, u as int);
    }
    // the product, rounded, is at most the count of cells
    let fx = nx * scale;
    let prod = nx.units() * u;
    lemma_nearest_bound(prod, c);
    lemma_signed(false, nearest(prod, c));
    assert(fx == signed(false, nearest(prod, c)));
    let top = nc.units();
    assert(prod * 1 <= top * c) by {
        lemma_rearrange(x as int, c as int, u as int);
        lemma_scale_up((x * u) as int, (cells * c) as int, c as int);
    }
    lemma_nearest_monotone(prod, c, top, 1);
    reveal(of_int);
    assert(nearest(top, 1) == nc.mag()) by {
        lemma_nearest_bound(cells * c, 1);
        lemma_signed(false, nearest(cells * c, 1));
    }
    assert(fx.mag() <= nc.mag());
    lemma_units_monotone(fx, nc);
    let whole = fx.units() / c;
    assert(whole <= cells) by (nonlinear_arith)
        requires
            fx.units() <= cells * c,
            whole == fx.units() / c,
            c > 0,
    ;
}

/// Once is what it was.
pub proof fn law_once_is_itself(a: Num)
    requires
        a.finite(),
    ensures
        a * num(ONE) == a,
{
    reveal(product_of);
    let (p, c) = (a.units(), pow2(149));
    lemma_pow2_pos(149);
    lemma_one_units();
    assert((p * c) * 1 == p * c);
    lemma_nearest_monotone(p * c, c, p, 1);
    lemma_nearest_monotone(p, 1, p * c, c);
    lemma_stands_for_itself(a);
    lemma_signed(a.negative(), a.mag());
}

/// A share of an amount is no more than the amount.
pub proof fn law_a_share_is_no_more(a: Num, share: Num)
    requires
        a.finite(),
        !a.negative(),
        !share.negative(),
        share.within(num(ONE)),
    ensures
        (a * share).within(a),
        (a * share).finite(),
        !(a * share).negative(),
{
    law_products_commute(a, share);
    law_products_commute(a, num(ONE));
    law_more_times_is_no_less(share, num(ONE), a);
    law_once_is_itself(a);
    law_a_share_of_something_is_finite(a, share);
}

/// The product of two amounts that are not vanishingly small, 2^-74 or more, does
/// not vanish.
pub proof fn law_a_product_does_not_vanish(a: Num, b: Num)
    requires
        a.finite(),
        b.finite(),
        num(0x1A80_0000).within(a),
        num(0x1A80_0000).within(b),
    ensures
        num(NOTHING).below(a * b),
{
    reveal(product_of);
    let speck = num(0x1A80_0000);
    lemma_units_monotone(speck, a);
    lemma_units_monotone(speck, b);
    lemma2_to64();
    lemma_pow2_adds(23, 52);
    lemma_pow2_adds(75, 75);
    lemma_pow2_strictly_increases(149, 150);
    lemma_pow2_pos(149);
    let (p, q, s, c) = (a.units(), b.units(), pow2(75), pow2(149));
    assert(speck.units() == s);
    assert(s * s <= p * q) by (nonlinear_arith)
        requires
            0 <= s <= p,
            s <= q,
    ;
    lemma_stands_for_itself(num(1));
    lemma_nearest_monotone(1, 1, p * q, c);
    lemma_nearest_bound(p * q, c);
    lemma_signed(false, nearest(p * q, c));
}

/// The number next below, and how far below it is at most.
proof fn lemma_next_below(a: Num)
    requires
        !a.negative(),
        0 < a.mag() <= 0x42C8_0000,
    ensures
        ({
            let next = Num { bits: (a.bits - 1) as u32 };
            next.finite() && !next.negative() && next.mag() == a.mag() - 1 && next.units() < a.units() <= next.units()
                + pow2(132)
        }),
{
    let next = Num { bits: (a.bits - 1) as u32 };
    let m = a.mag();
    assert(a.bits == m);
    assert(next.mag() == m - 1);
    lemma_units_monotone(next, a);
    lemma2_to64();
    lemma_pow2_pos(132);
    if m > 0x80_0000 {
        let e = (m / 0x80_0000 - 1) as nat;
        lemma_pow2_monotonic(e, 132);
        if m % 0x80_0000 == 0 {
            let d = (e - 1) as nat;
            lemma_pow2_unfold(e);
            lemma_pow2_monotonic(d, 132);
            assert((m - 1) / 0x80_0000 == e && (m - 1) % 0x80_0000 == 0x7f_ffff);
            let y = pow2(d);
            assert(a.units() == 0x80_0000 * pow2(e));
            assert(next.units() == 0xff_ffff * y);
            assert(0x80_0000 * (2 * y) == 0xff_ffff * y + y) by (nonlinear_arith);
        } else {
            let s = (0x80_0000 + m % 0x80_0000) as nat;
            assert((m - 1) / 0x80_0000 == e + 1 && (m - 1) % 0x80_0000 == m % 0x80_0000 - 1);
            let x = pow2(e);
            assert(a.units() == s * x);
            assert(next.units() == (s - 1) * x);
            assert(s * x == (s - 1) * x + x) by (nonlinear_arith);
        }
    } else if m == 0x80_0000 {
        assert(a.units() == 0x80_0000 * pow2(0));
        assert(next.units() == 0x7f_ffff);
    } else {
        assert(a.units() == m && next.units() == m - 1);
    }
}

/// Of an amount up to a hundred, taking 2^-17 or more leaves less.
pub proof fn law_a_loss_shows(a: Num, taken: Num)
    requires
        num(NOTHING).within(a),
        a.within(num(FULL)),
        taken.finite(),
        num(0x3700_0000).within(taken),
    ensures
        (a - taken).below(a),
{
    reveal(sum_of);
    let least = num(0x3700_0000);
    lemma_units_monotone(least, taken);
    lemma2_to64();
    lemma_pow2_adds(23, 109);
    lemma_pow2_pos(132);
    assert(least.units() == pow2(132));
    lemma_negated_value(taken);
    let v = a.value() - taken.value();
    lemma_nearest_bound(absolute(v), 1);
    lemma_signed(v < 0, nearest(absolute(v), 1));
    if a.mag() == 0 {
        assert(a.units() == 0);
        lemma_stands_for_itself(taken);
    } else {
        let next = Num { bits: (a.bits - 1) as u32 };
        lemma_next_below(a);
        lemma_stands_for_itself(next);
        lemma_signed(false, next.mag());
        lemma_signed(false, 0);
        lemma_rounded_order(v, next.units() as int, a.negative() && negated(taken).negative(), false);
    }
}

/// Taking nothing, or adding it, changes nothing.
pub proof fn law_nothing_changes_nothing(a: Num, nothing: Num)
    requires
        a.finite(),
        a.mag() > 0,
        nothing.mag() == 0,
    ensures
        a - nothing == a,
        a + nothing == a,
{
    reveal(sum_of);
    lemma_negated_value(nothing);
    lemma_units_positive(a);
    lemma_stands_for_itself(a);
    lemma_signed(a.negative(), a.mag());
    assert(nothing.units() == 0);
}

/// A product is no less than any number whose value is no more than that of the
/// factors multiplied exactly.
pub proof fn lemma_product_at_least(a: Num, b: Num, least: Num)
    requires
        a.finite(),
        b.finite(),
        least.finite(),
        !a.negative(),
        !b.negative(),
        !least.negative(),
        least.units() * pow2(149) <= a.units() * b.units(),
    ensures
        least.within(a * b),
        !(a * b).negative(),
{
    reveal(product_of);
    let (n, c) = (a.units() * b.units(), pow2(149));
    lemma_pow2_pos(149);
    lemma_stands_for_itself(least);
    lemma_nearest_monotone(least.units(), 1, n, c);
    lemma_nearest_bound(n, c);
    lemma_signed(false, nearest(n, c));
}

/// A sum is no more than any number whose value is no less than that of the terms
/// added exactly.
pub proof fn lemma_sum_at_most(a: Num, b: Num, most: Num)
    requires
        a.finite(),
        b.finite(),
        most.finite(),
        !a.negative(),
        !b.negative(),
        !most.negative(),
        a.units() + b.units() <= most.units(),
    ensures
        (a + b).within(most),
        (a + b).finite(),
        !(a + b).negative(),
{
    reveal(sum_of);
    let v = a.units() + b.units();
    lemma_stands_for_itself(most);
    lemma_nearest_monotone(v, 1, most.units(), 1);
    lemma_signed(false, 0);
    lemma_signed(false, nearest(v, 1));
}

/// Nothing, shared out, is nothing.
pub proof fn lemma_nothing_of(whole: Num)
    requires
        whole.finite(),
        num(0).below(whole),
    ensures
        num(0) / whole == num(0),
{
    reveal(quotient_of);
    lemma_units_positive(whole);
    lemma_nearest_zero(whole.units());
    assert(0 * pow2(149) == 0);
}

/// Nothing, however often, is nothing.
pub proof fn lemma_nothing_times(a: Num, nothing: Num)
    requires
        a.finite(),
        nothing.mag() == 0,
    ensures
        (a * nothing).mag() == 0,
{
    reveal(product_of);
    lemma_pow2_pos(149);
    lemma_nearest_zero(pow2(149));
    assert(a.units() * 0 == 0);
    lemma_signed(true, 0);
    lemma_signed(false, 0);
}

/// Of a larger amount each gets no less, and of an amount shared among more each
/// gets no more.
pub proof fn law_quotients_keep_their_order(less: Num, more: Num, few: Num, many: Num)
    requires
        less.finite(),
        more.finite(),
        few.finite(),
        !less.negative(),
        !few.negative(),
        !many.negative(),
        !more.negative(),
        less.within(more),
        num(0).below(few),
        few.within(many),
    ensures
        (less / few).within(more / few),
        (less / many).within(less / few),
        !(less / few).negative(),
        !(more / few).negative(),
        !(less / many).negative(),
{
    reveal(quotient_of);
    lemma_units_positive(few);
    lemma_units_monotone(less, more);
    lemma_pow2_pos(149);
    let (p, q, u, c) = (less.units(), more.units(), few.units(), pow2(149));
    assert((p * c) * u <= (q * c) * u) by (nonlinear_arith)
        requires
            p <= q,
            c > 0,
            u > 0,
            p >= 0,
    ;
    lemma_nearest_monotone(p * c, u, q * c, u);
    lemma_nearest_bound(p * c, u);
    lemma_nearest_bound(q * c, u);
    lemma_signed(false, nearest(p * c, u));
    lemma_signed(false, nearest(q * c, u));
    lemma_signed(false, 0);
    if many.finite() {
        lemma_units_monotone(few, many);
        lemma_units_positive(many);
        let v = many.units();
        assert((p * c) * u <= (p * c) * v) by (nonlinear_arith)
            requires
                u <= v,
                p >= 0,
                c > 0,
        ;
        lemma_nearest_monotone(p * c, v, p * c, u);
        lemma_nearest_bound(p * c, v);
        lemma_signed(false, nearest(p * c, v));
    }
}

/// Adding more makes no less.
pub proof fn law_adding_more_makes_no_less(a: Num, less: Num, more: Num)
    requires
        a.finite(),
        !a.negative(),
        !less.negative(),
        !more.negative(),
        less.within(more),
    ensures
        (a + less).within(a + more),
        !(a + less).negative(),
        !(a + more).negative(),
{
    reveal(sum_of);
    lemma_signed(false, 0);
    lemma_signed(a.negative() && less.negative(), 0);
    lemma_signed(a.negative() && more.negative(), 0);
    if more.finite() {
        lemma_units_monotone(less, more);
        lemma_rounded_order(a.value() + less.value(), a.value() + more.value(), false, false);
        lemma_nearest_bound(a.units() + less.units(), 1);
        lemma_nearest_bound(a.units() + more.units(), 1);
        lemma_signed(false, nearest(a.units() + less.units(), 1));
        lemma_signed(false, nearest(a.units() + more.units(), 1));
    } else if less.finite() {
        lemma_nearest_bound(a.units() + less.units(), 1);
        lemma_signed(false, nearest(a.units() + less.units(), 1));
    }
}

/// One and one make two, and half of what is one is a half; what is shared by itself
/// is one.
pub proof fn law_one_and_one(a: Num)
    requires
        a.finite(),
        num(0).below(a),
        !a.negative(),
    ensures
        num(ONE) + num(ONE) == num(0x4000_0000),
        num(ONE) / num(0x4000_0000) == num(0x3F00_0000),
        a / a == num(ONE),
        num(ONE) + num(0) == num(ONE),
{
    reveal(sum_of);
    reveal(quotient_of);
    lemma2_to64();
    lemma_one_units();
    lemma_pow2_pos(149);
    lemma_pow2_adds(1, 149);
    lemma_pow2_adds(23, 127);
    lemma_pow2_adds(23, 126);
    lemma_pow2_adds(23, 125);
    lemma_pow2_adds(149, 149);
    lemma_pow2_adds(150, 148);
    lemma_units_positive(a);
    let (u, c) = (a.units(), pow2(149));
    assert(num(ONE).value() + num(ONE).value() == pow2(150));
    lemma_nearest_exact(pow2(150), 1, 0x80_0000, 127);
    assert(num(0x4000_0000).units() == pow2(150));
    assert(c * c == pow2(150) * (0x80_0000 * pow2(125)));
    lemma_nearest_exact(c * c, pow2(150), 0x80_0000, 125);
    assert(u * c == u * (0x80_0000 * pow2(126)));
    lemma_nearest_exact(u * c, u, 0x80_0000, 126);
    law_nothing_changes_nothing(num(ONE), num(0));
}

/// Two parts of one come to a finite amount.
pub proof fn lemma_parts_of_one(a: Num, b: Num)
    requires
        !a.negative(),
        !b.negative(),
        a.within(num(ONE)),
        b.within(num(ONE)),
    ensures
        (a + b).finite(),
        !(a + b).negative(),
{
    lemma_units_monotone(a, num(ONE));
    lemma_units_monotone(b, num(ONE));
    lemma_one_units();
    lemma2_to64();
    lemma_pow2_adds(23, 127);
    lemma_pow2_adds(1, 149);
    assert(num(0x4000_0000).units() == 2 * num(ONE).units());
    lemma_sum_at_most(a, b, num(0x4000_0000));
}

/// Twice a number up to one, halved, is the number again.
pub proof fn law_a_mean_of_two_alike(a: Num)
    requires
        !a.negative(),
        a.within(num(ONE)),
        a.mag() > 0,
    ensures
        (a + a) / num(0x4000_0000) == a,
{
    reveal(sum_of);
    reveal(quotient_of);
    let (m, u) = (a.mag(), a.units());
    lemma2_to64();
    lemma_units_positive(a);
    let d = Num {
        bits: if m < 0x80_0000 {
            (2 * m) as u32
        } else {
            (m + 0x80_0000) as u32
        },
    };
    if m < 0x80_0000 {
        assert(d.mag() == 2 * m);
        if 2 * m >= 0x80_0000 {
            assert((2 * m) / 0x80_0000 == 1 && (2 * m) % 0x80_0000 == 2 * m - 0x80_0000);
            assert(pow2(0) == 1);
        }
    } else {
        let e = (m / 0x80_0000 - 1) as nat;
        assert(d.mag() == m + 0x80_0000);
        assert((m + 0x80_0000) / 0x80_0000 == e + 2 && (m + 0x80_0000) % 0x80_0000 == m % 0x80_0000);
        lemma_pow2_unfold((e + 1) as nat);
        let (s, x) = ((0x80_0000 + m % 0x80_0000) as nat, pow2(e));
        assert(d.units() == s * pow2((e + 1) as nat));
        assert(s * (2 * x) == 2 * (s * x)) by (nonlinear_arith);
    }
    assert(d.units() == 2 * u);
    lemma_stands_for_itself(d);
    lemma_signed(false, d.mag());
    assert(a + a == d);
    lemma_stands_for_itself(a);
    lemma_signed(false, a.mag());
    lemma_pow2_pos(149);
    lemma_one_units();
    lemma_pow2_adds(23, 127);
    lemma_pow2_adds(1, 149);
    let (c, t) = (pow2(149), num(0x4000_0000).units());
    assert(t == 2 * c);
    assert((d.units() * c) * 1 == u * t) by (nonlinear_arith)
        requires
            d.units() == 2 * u,
            t == 2 * c,
    ;
    lemma_nearest_monotone(d.units() * c, t, u, 1);
    lemma_nearest_monotone(u, 1, d.units() * c, t);
}

/// How far two numbers are apart, squared, is the same from either.
pub proof fn lemma_squared_either_way(p: Num, q: Num)
    requires
        p.finite(),
        q.finite(),
    ensures
        (p - q) * (p - q) == (q - p) * (q - p),
        p == q ==> (p - q).mag() == 0 && ((p - q) * (p - q)).mag() == 0,
{
    reveal(sum_of);
    reveal(product_of);
    lemma_negated_value(p);
    lemma_negated_value(q);
    let v = p.value() - q.value();
    lemma_nearest_bound(absolute(v), 1);
    lemma_signed(true, nearest(absolute(v), 1));
    lemma_signed(false, nearest(absolute(v), 1));
    lemma_signed(true, 0);
    lemma_signed(false, 0);
    assert((p - q).mag() == (q - p).mag());
    if p == q {
        lemma_pow2_pos(149);
        lemma_nearest_zero(pow2(149));
        assert((p - q).units() == 0);
        assert(0 * (p - q).units() == 0);
    }
}

/// Sums are the same either way round.
pub proof fn lemma_summed_either_way(a: Num, b: Num)
    requires
        !a.negative(),
        !b.negative(),
    ensures
        a + b == b + a,
{
    reveal(sum_of);
}

/// A square is not negative.
pub proof fn lemma_square_is_not_negative(a: Num)
    requires
        !a.is_nan(),
    ensures
        !(a * a).negative(),
{
    reveal(product_of);
    lemma_nearest_bound(a.units() * a.units(), pow2(149));
    lemma_signed(false, nearest(a.units() * a.units(), pow2(149)));
    lemma_signed(false, INF_BITS as nat);
}

} // verus!
