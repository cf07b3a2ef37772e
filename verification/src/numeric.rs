//! Clamping, labels, and damage in double precision.
use vstd::arithmetic::power2::{lemma_pow2_adds, lemma_pow2_pos, lemma_pow2_strictly_increases, pow2};
use vstd::prelude::*;
use vstd::string::StringExecFns;

use crate::text::{decimal, digit, digits};

verus! {

/// The largest army that a node holds.
pub const ARMY_CAP: i64 = 1_000_000;

/// 2 to the 53rd: from here on, doubles skip integers.
pub const DOUBLE_EXACT: u128 = 0x20_0000_0000_0000;

/// `value` moved up to `low`, then down to `high`.
pub open spec fn clamped(value: int, low: int, high: int) -> int {
    let raised = if value < low {
        low
    } else {
        value
    };
    if raised > high {
        high
    } else {
        raised
    }
}

pub fn clamp_i64(value: i64, min: i64, max: i64) -> (r: i64)
    ensures
        r == clamped(value as int, min as int, max as int),
{
    let raised: i64 = if value < min {
        min
    } else {
        value
    };
    if raised > max {
        max
    } else {
        raised
    }
}

pub fn default_send_per_tick() -> (r: i64)
    ensures
        r == 1,
{
    1
}

/// A connection sends between 1 and 250 per tick.
pub fn sanitize_send_per_tick(value: i64) -> (r: i64)
    ensures
        r == clamped(value as int, 1, 250),
{
    clamp_i64(value, 1, 250)
}

/// The distance between neighbouring doubles around the integer `n`.
pub open spec fn double_unit(n: nat) -> nat
    decreases n,
{
    if n < DOUBLE_EXACT {
        1
    } else {
        2 * double_unit(n / 2)
    }
}

/// The multiple of `unit` nearest to `n`; of two, the even multiple.
pub open spec fn nearest_multiple(n: nat, unit: nat) -> nat {
    let q = n / unit;
    let r = n % unit;
    if 2 * r < unit || (2 * r == unit && q % 2 == 0) {
        q * unit
    } else {
        (q + 1) * unit
    }
}

/// The double nearest to the integer `n`.
pub open spec fn to_double(n: nat) -> nat {
    nearest_multiple(n, double_unit(n))
}

/// Twice the quotient, and one more when it is not exact: rounds as the exact
/// quotient does.
pub open spec fn sticky_quotient(n: nat, d: nat) -> nat {
    2 * (n / d) + (if n % d == 0 {
        0nat
    } else {
        1nat
    })
}

/// The part of an attack that a reduction of `percent` lets through, in units of
/// 2 to the -53rd: one minus the double nearest to `percent / 100`.
pub open spec fn kept_share(percent: nat) -> nat {
    let reduction = to_double(sticky_quotient(percent * 0x40_0000_0000_0000_0000, 100));
    to_double((0x80_0000_0000_0000_0000 - reduction) as nat) / 0x4_0000
}

/// The damage of an attack of `flow` against a reduction of `percent`, computed
/// in doubles and cut to an integer.
pub open spec fn damage_of(flow: nat, percent: nat) -> nat {
    let product = to_double(to_double(flow) * kept_share(percent));
    let whole = product / 0x20_0000_0000_0000;
    if whole > i64::MAX {
        i64::MAX as nat
    } else {
        whole
    }
}

/// The unit is a power of two, and `n` has 53 digits in front of it.
proof fn lemma_unit(n: nat)
    ensures
        double_unit(n) > 0,
        n < double_unit(n) * 0x20_0000_0000_0000,
        n >= DOUBLE_EXACT ==> double_unit(n) * 0x10_0000_0000_0000 <= n,
        n < DOUBLE_EXACT ==> double_unit(n) == 1,
        exists|k: nat| double_unit(n) == #[trigger] pow2(k),
    decreases n,
{
    if n < DOUBLE_EXACT {
        vstd::arithmetic::power2::lemma2_to64();
        assert(double_unit(n) == pow2(0));
    } else {
        lemma_unit(n / 2);
        let k = choose|k: nat| double_unit(n / 2) == #[trigger] pow2(k);
        vstd::arithmetic::power2::lemma2_to64();
        lemma_pow2_adds(1, k);
        assert(double_unit(n) == pow2(1 + k));
        assert(n == 2 * (n / 2) + n % 2);
        if n / 2 < DOUBLE_EXACT {
            assert(double_unit(n / 2) == 1);
        }
    }
}

/// Rounding does not pass a power of two above `n`.
proof fn lemma_to_double_below(n: nat, k: nat)
    requires
        n <= pow2(k),
    ensures
        to_double(n) <= pow2(k),
{
    lemma_unit(n);
    let u = double_unit(n);
    let j = choose|j: nat| u == #[trigger] pow2(j);
    if n < DOUBLE_EXACT {
        assert(n % 1 == 0);
        assert(to_double(n) == n);
    } else {
        if j > k {
            lemma_pow2_strictly_increases(k, j);
            assert(u * 0x10_0000_0000_0000 <= n);
            assert(false);
        }
        lemma_pow2_adds(j, (k - j) as nat);
        lemma_multiple_bound(n, u, pow2((k - j) as nat));
    }
}

/// Rounding to multiples does not pass a multiple.
proof fn lemma_multiple_bound(n: nat, unit: nat, m: nat)
    requires
        unit > 0,
        n <= unit * m,
    ensures
        nearest_multiple(n, unit) <= unit * m,
{
    let q = n / unit;
    let r = n % unit;
    vstd::arithmetic::div_mod::lemma_fundamental_div_mod(n as int, unit as int);
    if q >= m {
        assert(q * unit >= m * unit) by (nonlinear_arith)
            requires
                q >= m,
        ;
        assert(unit * m == m * unit) by (nonlinear_arith);
        assert(unit * q == q * unit) by (nonlinear_arith);
        assert(r == 0);
    } else {
        assert((q + 1) * unit <= m * unit) by (nonlinear_arith)
            requires
                q + 1 <= m,
        ;
        assert(unit * m == m * unit) by (nonlinear_arith);
        assert(q * unit <= (q + 1) * unit) by (nonlinear_arith);
    }
}

fn round_to_double(n: u128) -> (r: u128)
    requires
        n <= 0x4000_0000_0000_0000_0000_0000_0000_0000,
    ensures
        r == to_double(n as nat),
        r <= 0x4000_0000_0000_0000_0000_0000_0000_0000,
{
    let mut top: u128 = n;
    let mut unit: u128 = 1;
    while top >= DOUBLE_EXACT
        invariant
            n <= 0x4000_0000_0000_0000_0000_0000_0000_0000,
            unit >= 1,
            unit * top <= n,
            double_unit(n as nat) == unit * double_unit(top as nat),
        decreases top,
    {
        proof {
            assert(unit * 0x20_0000_0000_0000 <= n) by (nonlinear_arith)
                requires
                    unit * top <= n,
                    top >= 0x20_0000_0000_0000,
            ;
            assert((unit * 2) * (top / 2) <= n) by (nonlinear_arith)
                requires
                    unit * top <= n,
                    unit >= 1,
            ;
            assert(unit * (2 * double_unit((top / 2) as nat)) == (unit * 2) * double_unit(
                (top / 2) as nat,
            )) by (nonlinear_arith);
        }
        unit = unit * 2;
        top = top / 2;
    }
    proof {
        assert(double_unit(top as nat) == 1);
        assert(unit * 1 == unit) by (nonlinear_arith);
        assert(double_unit(n as nat) == unit);
        vstd::arithmetic::power2::lemma2_to64_rest();
        lemma_pow2_adds(63, 63);
        assert(pow2(63) == 0x8000_0000_0000_0000);
        assert(pow2(126) == 0x4000_0000_0000_0000_0000_0000_0000_0000);
        lemma_to_double_below(n as nat, 126);
    }
    let q: u128 = n / unit;
    let r: u128 = n % unit;
    proof {
        vstd::arithmetic::div_mod::lemma_fundamental_div_mod(n as int, unit as int);
        assert(unit * q == q * unit) by (nonlinear_arith);
        assert(q * unit <= n);
    }
    if 2 * r < unit || (2 * r == unit && q % 2 == 0) {
        q * unit
    } else {
        proof {
            assert(to_double(n as nat) == (q + 1) * unit);
        }
        (q + 1) * unit
    }
}

/// At most everything passes.
proof fn lemma_kept_share(percent: nat)
    requires
        percent <= 99,
    ensures
        to_double(sticky_quotient(percent * 0x40_0000_0000_0000_0000, 100))
            <= 0x80_0000_0000_0000_0000,
        kept_share(percent) <= 0x20_0000_0000_0000,
{
    vstd::arithmetic::power2::lemma2_to64();
    vstd::arithmetic::power2::lemma2_to64_rest();
    lemma_pow2_adds(64, 7);
    assert(pow2(71) == 0x80_0000_0000_0000_0000);
    let reduction = to_double(sticky_quotient(percent * 0x40_0000_0000_0000_0000, 100));
    lemma_to_double_below(sticky_quotient(percent * 0x40_0000_0000_0000_0000, 100), 71);
    lemma_to_double_below((0x80_0000_0000_0000_0000 - reduction) as nat, 71);
}

pub fn attack_damage(flow: i64, percent: i64) -> (r: i64)
    requires
        0 <= flow,
        0 <= percent <= 99,
    ensures
        r == damage_of(flow as nat, percent as nat),
{
    proof {
        lemma_kept_share(percent as nat);
        vstd::arithmetic::power2::lemma2_to64();
        vstd::arithmetic::power2::lemma2_to64_rest();
        lemma_to_double_below(flow as nat, 63);
    }
    let scaled: u128 = percent as u128 * 0x40_0000_0000_0000_0000;
    let quotient: u128 = 2 * (scaled / 100) + (if scaled % 100 == 0 {
        0u128
    } else {
        1u128
    });
    let reduction: u128 = round_to_double(quotient);
    let share: u128 = round_to_double(0x80_0000_0000_0000_0000 - reduction) / 0x4_0000;
    let sent: u128 = round_to_double(flow as u128);
    proof {
        assert(sent * share <= 0x8000_0000_0000_0000 * 0x20_0000_0000_0000) by (nonlinear_arith)
            requires
                sent <= 0x8000_0000_0000_0000,
                share <= 0x20_0000_0000_0000,
        ;
    }
    let product: u128 = round_to_double(sent * share);
    let whole: u128 = product / 0x20_0000_0000_0000;
    if whole > i64::MAX as u128 {
        i64::MAX
    } else {
        whole as i64
    }
}

/// An attack never does more damage than the army it sends, as long as doubles
/// hold that army exactly.
pub proof fn law_damage_at_most_flow(flow: nat, percent: nat)
    requires
        flow < DOUBLE_EXACT,
        percent <= 99,
    ensures
        damage_of(flow, percent) <= flow,
{
    lemma_kept_share(percent);
    lemma_unit(flow);
    assert(flow % 1 == 0);
    assert(to_double(flow) == flow);
    let n = flow * kept_share(percent);
    assert(n <= flow * 0x20_0000_0000_0000) by (nonlinear_arith)
        requires
            n == flow * kept_share(percent),
            kept_share(percent) <= 0x20_0000_0000_0000,
    ;
    lemma_unit(n);
    let u = double_unit(n);
    let j = choose|j: nat| u == #[trigger] pow2(j);
    vstd::arithmetic::power2::lemma2_to64();
    vstd::arithmetic::power2::lemma2_to64_rest();
    if n >= DOUBLE_EXACT {
        if j > 53 {
            if j > 54 {
                lemma_pow2_strictly_increases(54, j);
            }
            assert(u >= 0x40_0000_0000_0000);
            assert(false);
        }
    }
    if j > 53 {
        lemma_pow2_strictly_increases(0, j);
    }
    lemma_pow2_adds(j, (53 - j) as nat);
    let m = pow2((53 - j) as nat);
    assert(u * m == 0x20_0000_0000_0000);
    assert(flow * 0x20_0000_0000_0000 == u * (m * flow)) by (nonlinear_arith)
        requires
            u * m == 0x20_0000_0000_0000,
    ;
    lemma_multiple_bound(n, u, m * flow);
}

/// Without a reduction, an attack does as much damage as the army it sends.
pub proof fn law_full_damage(flow: nat)
    requires
        flow < DOUBLE_EXACT,
    ensures
        damage_of(flow, 0) == flow,
{
    lemma_unit(flow);
    assert(flow % 1 == 0);
    assert(to_double(flow) == flow);
    vstd::arithmetic::power2::lemma2_to64();
    vstd::arithmetic::power2::lemma2_to64_rest();
    lemma_unit(0);
    assert(to_double(sticky_quotient(0, 100)) == 0);
    lemma_double_of_pow2(71);
    lemma_pow2_adds(64, 7);
    assert(kept_share(0) == 0x20_0000_0000_0000);
    let n = flow * 0x20_0000_0000_0000;
    lemma_unit(n);
    let u = double_unit(n);
    let j = choose|j: nat| u == #[trigger] pow2(j);
    if n >= DOUBLE_EXACT && j > 53 {
        if j > 54 {
            lemma_pow2_strictly_increases(54, j);
        }
        assert(u >= 0x40_0000_0000_0000);
        assert(false);
    }
    if j > 53 {
        lemma_pow2_strictly_increases(0, j);
    }
    lemma_pow2_adds(j, (53 - j) as nat);
    let m = pow2((53 - j) as nat);
    assert(n == (m * flow) * u) by (nonlinear_arith)
        requires
            u * m == 0x20_0000_0000_0000,
            n == flow * 0x20_0000_0000_0000,
    ;
    vstd::arithmetic::div_mod::lemma_mod_multiples_basic((m * flow) as int, u as int);
    vstd::arithmetic::div_mod::lemma_div_by_multiple((m * flow) as int, u as int);
    assert(to_double(n) == n);
}

/// Powers of two are doubles.
proof fn lemma_double_of_pow2(k: nat)
    ensures
        to_double(pow2(k)) == pow2(k),
{
    let n = pow2(k);
    lemma_pow2_pos(k);
    lemma_unit(n);
    let u = double_unit(n);
    let j = choose|j: nat| u == #[trigger] pow2(j);
    if j > k {
        lemma_pow2_strictly_increases(k, j);
        vstd::arithmetic::power2::lemma2_to64();
        assert(false);
    }
    lemma_pow2_adds(j, (k - j) as nat);
    let m = pow2((k - j) as nat);
    assert(n == m * u) by (nonlinear_arith)
        requires
            n == u * m,
    ;
    vstd::arithmetic::div_mod::lemma_mod_multiples_basic(m as int, u as int);
    vstd::arithmetic::div_mod::lemma_div_by_multiple(m as int, u as int);
}

/// Tenths of `unit` in `army`, rounded to the nearest.
pub open spec fn tenths(army: nat, tenth: nat) -> nat {
    let q = to_double(sticky_quotient(to_double(army) * 0x1_0000_0000_0000_0000, tenth));
    (q + 0x1_0000_0000_0000_0000) / 0x2_0000_0000_0000_0000
}

/// A number of tenths, with one decimal unless it is a whole number.
pub open spec fn tenths_text(t: nat) -> Seq<char> {
    if t % 10 == 0 {
        digits(t / 10)
    } else {
        digits(t / 10) + seq!['.', digit(t % 10)]
    }
}

/// The size of an army as players see it: thousands as K, millions as M.
pub open spec fn army_label(value: int) -> Seq<char> {
    if value >= ARMY_CAP {
        tenths_text(tenths(value as nat, 100_000)) + seq!['M']
    } else if value >= 1000 {
        tenths_text(tenths(value as nat, 100)) + seq!['K']
    } else if value > 0 {
        digits(value as nat)
    } else {
        digits(0)
    }
}

fn count_tenths(army: i64, tenth: u128) -> (r: u128)
    requires
        0 <= army,
        100 <= tenth,
    ensures
        r == tenths(army as nat, tenth as nat),
{
    proof {
        vstd::arithmetic::power2::lemma2_to64();
        vstd::arithmetic::power2::lemma2_to64_rest();
        lemma_to_double_below(army as nat, 63);
    }
    let scaled: u128 = round_to_double(army as u128) * 0x1_0000_0000_0000_0000;
    let part: u128 = scaled / tenth;
    proof {
        assert(part <= scaled / 100) by (nonlinear_arith)
            requires
                part == scaled / tenth,
                tenth >= 100,
        ;
    }
    let quotient: u128 = 2 * part + (if scaled % tenth == 0 {
        0u128
    } else {
        1u128
    });
    let q: u128 = round_to_double(quotient);
    (q + 0x1_0000_0000_0000_0000) / 0x2_0000_0000_0000_0000
}

fn write_tenths(t: u128) -> (r: String)
    ensures
        r@ == tenths_text(t as nat),
{
    let mut out = decimal(t / 10);
    if t % 10 != 0 {
        out.push('.');
        let last = decimal(t % 10);
        out.append(last.as_str());
        proof {
            assert(digits((t % 10) as nat) =~= seq![digit((t % 10) as nat)]);
            assert(out@ =~= tenths_text(t as nat));
        }
    }
    out
}

pub fn format_army_label(value: i64) -> (r: String)
    ensures
        r@ == army_label(value as int),
{
    if value >= ARMY_CAP {
        let mut out = write_tenths(count_tenths(value, 100_000));
        out.push('M');
        proof {
            assert(out@ =~= army_label(value as int));
        }
        out
    } else if value >= 1000 {
        let mut out = write_tenths(count_tenths(value, 100));
        out.push('K');
        proof {
            assert(out@ =~= army_label(value as int));
        }
        out
    } else if value > 0 {
        decimal(value as u128)
    } else {
        decimal(0)
    }
}

/// A value between the bounds is kept, one below is raised to the lower and one above
/// lowered to the upper bound.
pub proof fn law_clamping_moves_only_what_is_outside(value: int, low: int, high: int)
    requires
        low <= high,
    ensures
        low <= value <= high ==> clamped(value, low, high) == value,
        value <= low ==> clamped(value, low, high) == low,
        value >= high ==> clamped(value, low, high) == high,
{
}

/// Rounding moves an integer by at most half the distance to the next double.
proof fn lemma_rounding_error(n: nat)
    ensures
        2 * to_double(n) <= 2 * n + double_unit(n),
        2 * n <= 2 * to_double(n) + double_unit(n),
        double_unit(n) == 1 || double_unit(n) * 0x10_0000_0000_0000 <= n,
{
    lemma_unit(n);
    let u = double_unit(n);
    let q = n / u;
    let r = n % u;
    vstd::arithmetic::div_mod::lemma_fundamental_div_mod(n as int, u as int);
    assert(u * q == q * u) by (nonlinear_arith);
    assert((q + 1) * u == q * u + u) by (nonlinear_arith);
}

/// The share that passes is the rest of the reduction, up to the last digits of a double.
proof fn lemma_share_is_the_rest(percent: nat)
    requires
        percent <= 99,
    ensures
        100 * kept_share(percent) <= 0x20_0000_0000_0000 * (100 - percent) + 300,
        0x20_0000_0000_0000 * (100 - percent) <= 100 * kept_share(percent) + 300,
{
    let top: nat = 0x80_0000_0000_0000_0000;
    let q = sticky_quotient(percent * 0x40_0000_0000_0000_0000, 100);
    assert(100 * q <= percent * top + 100 && percent * top <= 100 * q + 200);
    lemma_rounding_error(q);
    lemma_kept_share(percent);
    let reduction = to_double(q);
    assert(q <= top);
    assert(double_unit(q) <= 0x8_0000);
    let m = (top - reduction) as nat;
    lemma_rounding_error(m);
    assert(double_unit(m) <= 0x8_0000);
    let d = to_double(m);
    assert(kept_share(percent) == d / 0x4_0000);
}

/// An attack does the damage that the reduction leaves of the army it sends, in whole
/// army: `100 - percent` hundredths, cut off.
pub proof fn law_damage_is_what_the_reduction_leaves(flow: nat, percent: nat)
    requires
        flow < 0x100_0000_0000,
        percent <= 99,
    ensures
        100 * damage_of(flow, percent) <= flow * (100 - percent) <= 100 * damage_of(
            flow,
            percent,
        ) + 100,
{
    let one: nat = 0x20_0000_0000_0000;
    let share = kept_share(percent);
    lemma_share_is_the_rest(percent);
    lemma_kept_share(percent);
    lemma_unit(flow);
    assert(flow % 1 == 0);
    assert(to_double(flow) == flow);
    let n = flow * share;
    let rest = (100 - percent) as nat;
    assert(100 * n <= flow * (one * rest + 300)) by (nonlinear_arith)
        requires
            n == flow * share,
            100 * share <= one * rest + 300,
    ;
    assert(flow * (one * rest) <= 100 * n + 300 * flow) by (nonlinear_arith)
        requires
            n == flow * share,
            one * rest <= 100 * share + 300,
    ;
    assert(flow * (one * rest + 300) == one * (flow * rest) + 300 * flow) by (nonlinear_arith);
    assert(flow * (one * rest) == one * (flow * rest)) by (nonlinear_arith);
    assert(n <= flow * one) by (nonlinear_arith)
        requires
            n == flow * share,
            share <= one,
    ;
    lemma_rounding_error(n);
    let product = to_double(n);
    assert(double_unit(n) <= 2 * flow + 1);
    let whole = product / one;
    assert(product < one * (whole + 1) && one * whole <= product);
    law_damage_at_most_flow(flow, percent);
    assert(damage_of(flow, percent) == whole);
}

/// Tenths are rounded to the nearest.
proof fn lemma_tenths_are_near(army: nat, tenth: nat)
    requires
        army < 0x100_0000_0000,
        100 <= tenth <= 100_000,
        tenth % 2 == 0,
    ensures
        2 * (tenth * tenths(army, tenth)) <= 2 * army + tenth,
        2 * army <= 2 * (tenth * tenths(army, tenth)) + tenth,
{
    let top: nat = 0x1_0000_0000_0000_0000;
    lemma_unit(army);
    assert(to_double(army) == army);
    let scaled = army * top;
    let part = scaled / tenth;
    let rest = scaled % tenth;
    vstd::arithmetic::div_mod::lemma_fundamental_div_mod(scaled as int, tenth as int);
    let sq = sticky_quotient(scaled, tenth);
    let q = to_double(sq);
    let unit = double_unit(sq);
    let t = tenths(army, tenth);
    lemma_rounding_error(sq);
    assert(t == (q + top) / (2 * top));
    vstd::arithmetic::div_mod::lemma_fundamental_div_mod((q + top) as int, (2 * top) as int);
    assert(2 * top * t <= q + top < 2 * top * t + 2 * top);
    assert(tenth * sq <= 2 * scaled + tenth && 2 * scaled <= tenth * sq + 2 * tenth)
        by (nonlinear_arith)
        requires
            scaled == tenth * part + rest,
            rest < tenth,
            2 * part <= sq <= 2 * part + 1,
            rest == 0 ==> sq == 2 * part,
    ;
    assert(tenth * (2 * q) <= tenth * (2 * sq) + tenth * unit && tenth * (2 * sq) <= tenth * (2
        * q) + tenth * unit) by (nonlinear_arith)
        requires
            2 * q <= 2 * sq + unit,
            2 * sq <= 2 * q + unit,
    ;
    assert(tenth * unit * 0x10_0000_0000_0000 <= tenth * sq + 100_000 * 0x10_0000_0000_0000)
        by (nonlinear_arith)
        requires
            unit == 1 || unit * 0x10_0000_0000_0000 <= sq,
            tenth <= 100_000,
    ;
    assert(tenth * (2 * top * t) <= tenth * q + tenth * top && tenth * q + tenth * top < tenth * (2
        * top * t) + tenth * (2 * top)) by (nonlinear_arith)
        requires
            2 * top * t <= q + top < 2 * top * t + 2 * top,
            tenth >= 100,
    ;
    assert(tenth * (2 * top * t) == 2 * top * (tenth * t)) by (nonlinear_arith);
    assert(tenth * (2 * q) == 2 * (tenth * q)) by (nonlinear_arith);
    assert(tenth * (2 * sq) == 2 * (tenth * sq)) by (nonlinear_arith);
    assert(tenth * (2 * top) == 2 * (tenth * top)) by (nonlinear_arith);
}

/// Players see an army below a thousand as it is, and none as zero. From a thousand on they see
/// thousands, and from a million on millions, in tenths, rounded to the nearest; the
/// tenth is left out where it is none.
pub proof fn law_how_armies_are_shown(value: int)
    requires
        value < 0x100_0000_0000,
    ensures
        value <= 0 ==> army_label(value) == seq!['0'],
        0 < value < 1000 ==> army_label(value) == digits(value as nat),
        1000 <= value < 1_000_000 ==> exists|t: nat| #[trigger]
            tenths_text(t).push('K') == army_label(value) && -50 <= 100 * t - value <= 50,
        1_000_000 <= value ==> exists|t: nat| #[trigger]
            tenths_text(t).push('M') == army_label(value) && -50_000 <= 100_000 * t - value
                <= 50_000,
{
    if value <= 0 {
        assert(digits(0) =~= seq!['0']);
    } else if value >= 1_000_000 {
        lemma_tenths_are_near(value as nat, 100_000);
        let t = tenths(value as nat, 100_000);
        assert(tenths_text(t).push('M') =~= army_label(value));
    } else if value >= 1000 {
        lemma_tenths_are_near(value as nat, 100);
        let t = tenths(value as nat, 100);
        assert(tenths_text(t).push('K') =~= army_label(value));
    }
}

/// How tenths are written: the whole, and the tenth after a point unless it is none.
pub proof fn law_how_tenths_are_written(whole: nat, tenth: nat)
    requires
        tenth < 10,
    ensures
        tenth == 0 ==> tenths_text(10 * whole) == digits(whole),
        tenth > 0 ==> tenths_text(10 * whole + tenth) == digits(whole) + seq![
            '.',
            (48 + tenth) as char,
        ],
{
}

} // verus!
