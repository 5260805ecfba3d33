//! Single-precision quotients of integers, computed in integers.
//!
//! A single-precision number carries 24 significant bits and an operation rounds its exact result
//! to the nearest of them, ties to the even one.

use vstd::prelude::*;

verus! {

/// The integer nearest to `n / d`, the even one of two equally near.
pub open spec fn round_half_even(n: int, d: int) -> int {
    let q = n / d;
    let r = n % d;
    if 2 * r > d || (2 * r == d && q % 2 == 1) { q + 1 } else { q }
}

/// The distance between neighbouring single-precision numbers around the integer `n`.
pub open spec fn unit_at(n: nat) -> nat
    decreases n,
{
    if n < 0x100_0000 { 1 } else { 2 * unit_at(n / 2) }
}

/// The single-precision number nearest to the integer `n`.
pub open spec fn to_single(n: nat) -> int {
    round_half_even(n as int, unit_at(n) as int) * unit_at(n)
}

/// The least power of two, from `s` on, that scales `a / b` to 24 bits or more.
pub open spec fn scale_for(a: int, b: int, s: int) -> int
    decreases (if a * s >= b * 0x80_0000 { 0 } else { b * 0x80_0000 - a * s }),
    when a > 0 && b > 0 && s > 0
{
    if a * s >= b * 0x80_0000 {
        s
    } else {
        proof {
            assert(a * (2 * s) > a * s) by (nonlinear_arith)
                requires
                    a > 0,
                    s > 0,
            ;
        }
        scale_for(a, b, 2 * s)
    }
}

/// The least power of two, from `u` on, that brings `a / (b * u)` below 25 bits.
pub open spec fn unit_for(a: int, b: int, u: int) -> int
    decreases (if a < b * u * 0x100_0000 { 0 } else { a - b * u }),
    when a > 0 && b > 0 && u > 0
{
    if a < b * u * 0x100_0000 {
        u
    } else {
        proof {
            assert(b * (2 * u) > b * u) by (nonlinear_arith)
                requires
                    b > 0,
                    u > 0,
            ;
            assert(b * u * 0x100_0000 > b * u) by (nonlinear_arith)
                requires
                    b > 0,
                    u > 0,
            ;
        }
        unit_for(a, b, 2 * u)
    }
}

/// `a / b` rounded to single precision, for positive single-precision `a` and `b`: the numerator
/// and the denominator of the result.
pub open spec fn single_quotient(a: int, b: int) -> (int, int) {
    let s = scale_for(a, b, 1);
    let u = unit_for(a, b, 1);
    (round_half_even(a * s, b * u) * u, s)
}

/// `ceil((float) a / (float) b)`.
pub open spec fn single_quotient_ceil(a: nat, b: nat) -> int {
    if a == 0 {
        0
    } else {
        let (n, d) = single_quotient(to_single(a), to_single(b));
        (n + d - 1) / d
    }
}

/// `floor((float) a / (float) b)`.
pub open spec fn single_quotient_floor(a: nat, b: nat) -> int {
    if a == 0 {
        0
    } else {
        let (n, d) = single_quotient(to_single(a), to_single(b));
        n / d
    }
}

fn round_half_even_u64(n: u64, d: u64) -> (q: u64)
    requires
        d > 0,
        d < 0x8000_0000_0000_0000,
        n < 0x8000_0000_0000_0000,
    ensures
        q == round_half_even(n as int, d as int),
        q <= n + 1,
{
    let q: u64 = n / d;
    let r: u64 = n % d;
    assert(q <= n) by (nonlinear_arith)
        requires
            q == n / d,
            d > 0,
            n >= 0,
    ;
    if 2 * r > d || (2 * r == d && q % 2 == 1) {
        q + 1
    } else {
        q
    }
}

fn unit_at_u32(n: u32) -> (u: u32)
    ensures
        u == unit_at(n as nat),
        1 <= u <= 256,
        n >= 0x100_0000 ==> (u * 0x80_0000 <= n < u * 0x100_0000),
        n < 0x100_0000 ==> u == 1,
{
    proof {
        reveal_with_fuel(unit_at, 10);
    }
    if n < 0x100_0000 { 1 } else if n < 0x200_0000 { 2 } else if n < 0x400_0000 { 4 }
    else if n < 0x800_0000 { 8 } else if n < 0x1000_0000 { 16 } else if n < 0x2000_0000 { 32 }
    else if n < 0x4000_0000 { 64 } else if n < 0x8000_0000 { 128 } else { 256 }
}

fn to_single_u32(n: u32) -> (r: u64)
    ensures
        r == to_single(n as nat),
        n > 0 ==> r > 0,
        r <= 0x1_0000_0000,
{
    let u: u32 = unit_at_u32(n);
    let m: u64 = round_half_even_u64(n as u64, u as u64);
    proof {
        let q = (n as int) / (u as int);
        let (ui, ni) = (u as int, n as int);
        if n < 0x100_0000 {
            assert(q == n) by (nonlinear_arith)
                requires
                    q == ni / ui,
                    ui == 1,
                    ni == n,
            ;
            assert(ni % ui == 0) by (nonlinear_arith)
                requires
                    ui == 1,
            ;
        } else {
            assert(0x80_0000 <= q < 0x100_0000) by (nonlinear_arith)
                requires
                    q == ni / ui,
                    ui > 0,
                    ui * 0x80_0000 <= ni < ui * 0x100_0000,
            ;
        }
        assert(m <= 0x100_0000);
        assert(m * u <= 0x1_0000_0000) by (nonlinear_arith)
            requires
                m <= 0x100_0000,
                u <= 256,
        ;
        assert(m >= 1 ==> m * u > 0) by (nonlinear_arith)
            requires
                u >= 1,
        ;
    }
    m * (u as u64)
}

fn single_quotient_u64(a: u64, b: u64) -> (r: (u64, u64))
    requires
        0 < a <= 0x1_0000_0000,
        0 < b <= 0x1_0000_0000,
    ensures
        (r.0 as int, r.1 as int) == single_quotient(a as int, b as int),
        r.1 > 0,
        r.0 < 0x4000_0000_0000_0000,
        r.1 < 0x4000_0000_0000_0000,
{
    let mut s: u64 = 1;
    assert(a * s == a);
    assert(b * 0x80_0000 <= 0x80_0000_0000_0000);
    while a * s < b * 0x80_0000
        invariant
            0 < a <= 0x1_0000_0000,
            0 < b <= 0x1_0000_0000,
            s > 0,
            s == 1 || a * s < 2 * (b * 0x80_0000),
            a * s <= 0x100_0000_0000_0000,
            s <= 0x100_0000_0000_0000,
            scale_for(a as int, b as int, 1) == scale_for(a as int, b as int, s as int),
        decreases (if a * s >= b * 0x80_0000 { 0 } else { b * 0x80_0000 - a * s }),
    {
        assert(a * (2 * s) == 2 * (a * s)) by (nonlinear_arith);
        assert(s <= a * s) by (nonlinear_arith)
            requires
                a > 0,
                s > 0,
        ;
        s = 2 * s;
    }
    let mut u: u64 = 1;
    while a >= b * u * 0x100_0000
        invariant
            0 < a <= 0x1_0000_0000,
            0 < b <= 0x1_0000_0000,
            0 < u <= 512,
            b * u <= 0x2_0000_0000_00,
            u == 1 || b * u * 0x80_0000 <= a,
            unit_for(a as int, b as int, 1) == unit_for(a as int, b as int, u as int),
        decreases 0x1_0000_0000 - u,
    {
        assert(u <= b * u) by (nonlinear_arith)
            requires
                b > 0,
                u > 0,
        ;
        assert(b * (2 * u) == 2 * (b * u)) by (nonlinear_arith);
        u = 2 * u;
    }
    assert(b * u >= 1) by (nonlinear_arith)
        requires
            b > 0,
            u > 0,
    ;
    let m: u64 = round_half_even_u64(a * s, b * u);
    assert(m * u < 0x4000_0000_0000_0000) by (nonlinear_arith)
        requires
            m <= 0x100_0000_0000_0001,
            u <= 512,
            m * u < 0x4000_0000_0000_0000 || u > 1,
            u > 1 ==> m <= 0x8000_0000_0000,
    ;
    (m * u, s)
}

/// The quotient of two integers in single precision, rounded up to an integer.
pub fn quotient_ceil(a: u32, b: u32) -> (r: u64)
    requires
        b > 0,
    ensures
        r == single_quotient_ceil(a as nat, b as nat),
{
    if a == 0 {
        return 0;
    }
    let (n, d) = single_quotient_u64(to_single_u32(a), to_single_u32(b));
    (n + d - 1) / d
}

/// The quotient of two integers in single precision, rounded down to an integer.
pub fn quotient_floor(a: u32, b: u32) -> (r: u64)
    requires
        b > 0,
    ensures
        r == single_quotient_floor(a as nat, b as nat),
{
    if a == 0 {
        return 0;
    }
    let (n, d) = single_quotient_u64(to_single_u32(a), to_single_u32(b));
    n / d
}

fn unit_at_u64(n: u64) -> (u: u64)
    ensures
        u == unit_at(n as nat),
        1 <= u,
        n >= 0x100_0000 ==> (u * 0x80_0000 <= n < u * 0x100_0000),
        n < 0x100_0000 ==> u == 1,
    decreases n,
{
    if n < 0x100_0000 {
        1
    } else {
        let half: u64 = unit_at_u64(n / 2);
        proof {
            reveal_with_fuel(unit_at, 2);
        }
        2 * half
    }
}

/// The single-precision number nearest to an integer of either sign.
pub open spec fn signed_single(n: int) -> int {
    if n < 0 { -to_single((-n) as nat) } else { to_single(n as nat) }
}

/// The single-precision number nearest to an integer of either sign.
pub fn signed_single_of(n: i32) -> (r: i64)
    ensures
        r == signed_single(n as int),
{
    if n < 0 {
        let m: u64 = single_of((-(n as i64)) as u64);
        -(m as i64)
    } else {
        single_of(n as u64) as i64
    }
}

/// The single-precision number nearest to an integer.
pub fn single_of(n: u64) -> (r: u64)
    requires
        n < 0x2000_0000_0000_0000,
    ensures
        r == to_single(n as nat),
        r <= 2 * n,
{
    let u: u64 = unit_at_u64(n);
    let m: u64 = round_half_even_u64(n, u);
    proof {
        let q = (n as int) / (u as int);
        let (ui, ni) = (u as int, n as int);
        if n < 0x100_0000 {
            assert(q == n) by (nonlinear_arith)
                requires
                    q == ni / ui,
                    ui == 1,
                    ni == n,
            ;
            assert(ni % ui == 0) by (nonlinear_arith)
                requires
                    ui == 1,
            ;
            assert(m * u == m) by (nonlinear_arith)
                requires
                    u == 1,
            ;
        } else {
            assert(0x80_0000 <= q < 0x100_0000) by (nonlinear_arith)
                requires
                    q == ni / ui,
                    ui > 0,
                    ui * 0x80_0000 <= ni < ui * 0x100_0000,
            ;
            assert(m * u <= 2 * n) by (nonlinear_arith)
                requires
                    m <= 0x100_0000,
                    u * 0x80_0000 <= n,
                    u >= 1,
            ;
        }
    }
    m * u
}

/// The distance between neighbouring double-precision numbers around the integer `n`.
pub open spec fn double_unit_at(n: nat) -> nat
    decreases n,
{
    if n < 0x20_0000_0000_0000 { 1 } else { 2 * double_unit_at(n / 2) }
}

/// The double-precision number nearest to the integer `n`.
pub open spec fn to_double(n: nat) -> int {
    round_half_even(n as int, double_unit_at(n) as int) * double_unit_at(n)
}

fn double_unit_at_u128(n: u128) -> (u: u128)
    ensures
        u == double_unit_at(n as nat),
        1 <= u,
        n >= 0x20_0000_0000_0000 ==> (u * 0x10_0000_0000_0000 <= n < u * 0x20_0000_0000_0000),
        n < 0x20_0000_0000_0000 ==> u == 1,
    decreases n,
{
    if n < 0x20_0000_0000_0000 {
        1
    } else {
        let half: u128 = double_unit_at_u128(n / 2);
        proof {
            reveal_with_fuel(double_unit_at, 2);
        }
        2 * half
    }
}

/// The double-precision number nearest to an integer.
pub fn double_of(n: u128) -> (r: u128)
    requires
        n < 0x1000_0000_0000_0000_0000_0000_0000_0000,
    ensures
        r == to_double(n as nat),
        r <= 2 * n,
{
    let u: u128 = double_unit_at_u128(n);
    let q: u128 = n / u;
    let r: u128 = n % u;
    proof {
        let (ui, ni) = (u as int, n as int);
        assert(0 <= r < u);
        if n < 0x20_0000_0000_0000 {
            assert(q == n && r == 0) by (nonlinear_arith)
                requires
                    q == n / u,
                    r == n % u,
                    u == 1,
            ;
        } else {
            assert(0x10_0000_0000_0000 <= q < 0x20_0000_0000_0000) by (nonlinear_arith)
                requires
                    q == n / u,
                    u > 0,
                    u * 0x10_0000_0000_0000 <= n < u * 0x20_0000_0000_0000,
            ;
            assert((q + 1) * u <= 2 * n) by (nonlinear_arith)
                requires
                    q + 1 <= 0x20_0000_0000_0000,
                    u * 0x10_0000_0000_0000 <= n,
                    u >= 1,
            ;
        }
        assert(q * u <= n) by (nonlinear_arith)
            requires
                q == n / u,
                u > 0,
        ;
    }
    if 2 * r > u || (2 * r == u && q % 2 == 1) {
        (q + 1) * u
    } else {
        q * u
    }
}

} // verus!
