//! Seconds with one decimal, as a number of single precision shows them.
//!
//! Such a number has [`DIGITS`] significant binary digits. What it is nearest to is not always what
//! was meant: 0.35 becomes a little less, and so is shown as 0.3. Everything is counted here in
//! units so small that each number in question is a whole one.
use crate::text;
use vstd::prelude::*;
use vstd::string::*;

verus! {

/// A number of single precision is less than this many of its units in the last place.
pub const DIGITS: u128 = 0x100_0000;

/// How many units a second has.
pub const SCALE: u128 = 0x20_0000_0000_0000;

/// How many nanoseconds a second has.
pub const NANOS: u64 = 1_000_000_000;

/// The nearest whole number to a fraction; halfway, the even one.
pub open spec fn nearest(n: nat, d: nat) -> nat {
    if 2 * (n % d) > d || (2 * (n % d) == d && (n / d) % 2 == 1) {
        n / d + 1
    } else {
        n / d
    }
}

/// What the last significant digit of a number stands for: the least power of two of which the
/// number has fewer than [`DIGITS`].
pub open spec fn last_place(n: nat) -> nat
    decreases n,
{
    if n < DIGITS {
        1
    } else {
        2 * last_place(n / 2)
    }
}

/// A fraction with as many significant digits as there may be: the nearest such number; halfway,
/// the one whose last digit is even.
pub open spec fn rounded(n: nat, d: nat) -> nat {
    nearest(n, d * last_place(n / d)) * last_place(n / d)
}

/// Some nanoseconds as seconds of single precision, in units of which a second has [`SCALE`]: the
/// whole seconds and the rest are each turned into such a number, the rest is divided, and the two
/// are added. Every step is rounded.
pub open spec fn single_seconds(nanos: u64) -> nat {
    let whole = rounded((nanos / NANOS) as nat, 1);
    let rest = rounded((nanos % NANOS) as nat, 1);
    rounded(whole * SCALE as nat + rounded(rest * SCALE as nat, NANOS as nat), 1)
}

/// Tenths of a second in some nanoseconds, as they are shown.
pub open spec fn tenths(nanos: u64) -> nat {
    nearest(single_seconds(nanos) * 10, SCALE as nat)
}

/// Seconds with one decimal.
pub open spec fn seconds_text(nanos: u64) -> Seq<char> {
    text::decimal(tenths(nanos) / 10) + "."@ + text::decimal(tenths(nanos) % 10)
}

proof fn lemma_last_place(n: nat)
    ensures
        1 <= last_place(n),
        last_place(n) <= n || last_place(n) == 1,
    decreases n,
{
    if n >= DIGITS {
        lemma_last_place(n / 2);
    }
}

/// What is rounded is at most about twice what it was, and no step on the way is larger than that.
proof fn lemma_rounded(n: nat, d: nat)
    requires
        d > 0,
    ensures
        last_place(n / d) >= 1,
        d * last_place(n / d) >= 1,
        d * last_place(n / d) <= n + d,
        rounded(n, d) <= 2 * n + 1,
        nearest(n, d * last_place(n / d)) <= n + 1,
{
    let f = n / d;
    let u = last_place(f);
    lemma_last_place(f);
    assert(f * d <= n) by (nonlinear_arith)
        requires
            d > 0,
            f == n / d,
    ;
    assert(f <= n) by (nonlinear_arith)
        requires
            d > 0,
            f * d <= n,
            f >= 0,
    ;
    let m = d * u;
    assert(m >= 1) by (nonlinear_arith)
        requires
            d >= 1,
            u >= 1,
            m == d * u,
    ;
    assert(m <= n + d) by (nonlinear_arith)
        requires
            d >= 1,
            u <= f || u == 1,
            f * d <= n,
            m == d * u,
    ;
    let q = n / m;
    assert(q * m <= n && q >= 0) by (nonlinear_arith)
        requires
            m >= 1,
            q == n / m,
            n >= 0,
    ;
    assert(q <= n) by (nonlinear_arith)
        requires
            m >= 1,
            q >= 0,
            q * m <= n,
    ;
    assert(q * u <= n) by (nonlinear_arith)
        requires
            d >= 1,
            u >= 1,
            q >= 0,
            m == d * u,
            q * m <= n,
    ;
    assert((q + 1) * u == q * u + u) by (nonlinear_arith);
}

fn nearest_of(n: u128, d: u128) -> (r: u128)
    requires
        0 < d <= 0x1_0000_0000_0000_0000_0000_0000_0000,
        n < u128::MAX,
    ensures
        r == nearest(n as nat, d as nat),
{
    let q: u128 = n / d;
    let r: u128 = n % d;
    if 2 * r > d || (2 * r == d && q % 2 == 1) {
        assert(q <= n) by (nonlinear_arith)
            requires
                d > 0,
                q == n / d,
        ;
        q + 1
    } else {
        q
    }
}

fn last_place_of(n: u128) -> (r: u128)
    ensures
        r == last_place(n as nat),
{
    let mut unit: u128 = 1;
    let mut left: u128 = n;
    proof {
        lemma_last_place(n as nat);
        assert(1 * last_place(n as nat) == last_place(n as nat));
    }
    while left >= DIGITS
        invariant
            last_place(n as nat) == unit * last_place(left as nat),
            last_place(n as nat) <= n || last_place(n as nat) == 1,
            unit >= 1,
        decreases left,
    {
        proof {
            let next = last_place((left / 2) as nat);
            lemma_last_place((left / 2) as nat);
            assert(unit * (2 * next) == (unit * 2) * next) by (nonlinear_arith);
            assert((unit * 2) * next >= unit * 2) by (nonlinear_arith)
                requires
                    next >= 1,
            ;
        }
        unit = unit * 2;
        left = left / 2;
    }
    assert(unit * 1 == unit);
    unit
}

fn round(n: u128, d: u128) -> (r: u128)
    requires
        n <= 0x100_0000_0000_0000_0000_0000_0000,
        0 < d <= NANOS,
    ensures
        r == rounded(n as nat, d as nat),
{
    proof {
        lemma_rounded(n as nat, d as nat);
    }
    let unit: u128 = last_place_of(n / d);
    let q: u128 = nearest_of(n, d * unit);
    q * unit
}

/// Seconds with one decimal.
pub fn seconds_string(nanos: u64) -> (r: String)
    ensures
        r@ == seconds_text(nanos),
{
    proof {
        lemma_rounded((nanos / NANOS) as nat, 1);
        lemma_rounded((nanos % NANOS) as nat, 1);
    }
    let whole: u128 = round((nanos / NANOS) as u128, 1);
    let rest: u128 = round((nanos % NANOS) as u128, 1);
    proof {
        lemma_rounded((rest * SCALE) as nat, NANOS as nat);
    }
    let part: u128 = round(rest * SCALE, NANOS as u128);
    proof {
        lemma_rounded((whole * SCALE + part) as nat, 1);
    }
    let single: u128 = round(whole * SCALE + part, 1);
    let tenths: u128 = nearest_of(single * 10, SCALE);
    text::concat3(
        text::decimal_string((tenths / 10) as u64).as_str(),
        ".",
        text::decimal_string((tenths % 10) as u64).as_str(),
    )
}

/// The nearest whole number is at most half away, and where two are as near, it is the even one.
pub proof fn law_nearest_is_at_most_half_away(n: nat, d: nat)
    requires
        d > 0,
    ensures
        ({
            let over = 2 * (nearest(n, d) * d - n);
            &&& -d <= over <= d
            &&& over == d || over == -d ==> nearest(n, d) % 2 == 0
        }),
{
    let q = n / d;
    let r = n % d;
    assert(n == q * d + r && 0 <= r < d) by (nonlinear_arith)
        requires
            d > 0,
            q == n / d,
            r == n % d,
            n >= 0,
    ;
    assert((q + 1) * d == q * d + d) by (nonlinear_arith);
    if q % 2 == 1 {
        assert((q + 1) % 2 == 0);
    }
}

/// A number of few digits is kept as it is, and no number loses more than half of the last digit that
/// it may keep.
pub proof fn law_few_digits_are_kept(n: nat)
    ensures
        n < 0x100_0000 ==> rounded(n, 1) == n,
        ({
            let over = 2 * (rounded(n, 1) - n);
            -last_place(n) <= over <= last_place(n)
        }),
        n >= 0x100_0000 ==> last_place(n) * 0x80_0000 <= n,
{
    let u = last_place(n);
    lemma_last_place(n);
    lemma_last_place_is_small(n);
    assert(1 * u == u);
    assert(n / 1 == n);
    law_nearest_is_at_most_half_away(n, u);
    if n < 0x100_0000 {
        assert(n % 1 == 0);
        assert(nearest(n, 1) == n);
    }
}

proof fn lemma_last_place_is_small(n: nat)
    ensures
        n >= 0x100_0000 ==> last_place(n) * 0x80_0000 <= n,
    decreases n,
{
    if n >= 0x100_0000 {
        let h = n / 2;
        lemma_last_place_is_small(h);
        if h < 0x100_0000 {
            assert(last_place(h) == 1);
        }
    }
}

} // verus!
