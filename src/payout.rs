//! Pool arithmetic: commission, prize pool, winnings, odds and shares.
//!
//! All quantities are integer token amounts. Rates are in basis points
//! (scale 10000) and multipliers in thousandths (scale 1000).
use vstd::prelude::*;
use crate::types::{Error, Outcome};
use vstd::math::abs;

verus! {

/// Largest total pool a market accepts: every product that settlement
/// forms from pool amounts and rates, and the sum of the payouts to up to
/// `u32::MAX` winners, then fits in an `i128`.
pub const MAX_POOL: i128 = 10_000_000_000_000_000_000_000_000_000;

/// Basis-point scale of house edges, shares of volume and price moves.
pub const BPS_SCALE: i128 = 10_000;

/// Fixed-point scale of multipliers and pool shares.
pub const ODDS_SCALE: i128 = 1_000;

/// Commission withheld from a pool of `volume` at `house_edge` basis points.
pub open spec fn spec_commission(volume: int, house_edge: int) -> int {
    volume * house_edge / 10_000
}

/// What is left of the pool for winners once the commission is withheld.
pub open spec fn spec_prize_pool(volume: int, house_edge: int) -> int {
    volume - spec_commission(volume, house_edge)
}

/// Pools whose settlement arithmetic fits in an `i128`: at most `MAX_POOL`
/// staked, a product `volume * house_edge` that fits, and a prize pool of
/// at most `MAX_POOL` (a negative house edge adds to the pool). Every house
/// edge in `[0, 10000]` meets the last two for every such volume.
pub open spec fn pool_in_range(volume: int, house_edge: int) -> bool {
    &&& 0 <= volume <= MAX_POOL
    &&& i128::MIN <= volume * house_edge <= i128::MAX
    &&& spec_prize_pool(volume, house_edge) <= MAX_POOL
}

/// What a winning stake of `amount` receives from a winning side of
/// `winning_pool`: its truncated share (in thousandths) of the prize pool,
/// and never less than the stake itself.
pub open spec fn spec_winnings(amount: int, winning_pool: int, prize_pool: int) -> int {
    let share = amount * 1000 / winning_pool;
    let fair = prize_pool * share / 1000;
    if fair >= amount {
        fair
    } else {
        amount
    }
}

/// `amount * scale / pool` lies in `[0, scale]` when `0 <= amount <= pool`.
pub proof fn lemma_share_bounded(amount: int, pool: int, scale: int)
    requires
        0 <= amount <= pool,
        0 < pool,
        0 < scale,
    ensures
        0 <= amount * scale <= pool * scale,
        0 <= amount * scale / pool <= scale,
{
    assert(0 <= amount * scale <= pool * scale) by (nonlinear_arith)
        requires
            0 <= amount <= pool,
            0 < scale,
    ;
    assert(amount * scale / pool <= scale) by (nonlinear_arith)
        requires
            0 < pool,
            0 <= amount * scale <= pool * scale,
    ;
    assert(0 <= amount * scale / pool) by (nonlinear_arith)
        requires
            0 < pool,
            0 <= amount * scale,
    ;
}

/// Dividing a nonnegative number by a positive one does not increase it.
pub proof fn lemma_div_le(x: int, d: int)
    requires
        0 <= x,
        0 < d,
    ensures
        0 <= x / d <= x,
{
    assert(0 <= x / d <= x) by (nonlinear_arith)
        requires
            0 <= x,
            0 < d,
    ;
}

/// Taking `part / scale` of `x` gives at most `x`.
pub proof fn lemma_scaled_part(x: int, part: int, scale: int)
    requires
        0 <= x,
        0 <= part <= scale,
        0 < scale,
    ensures
        0 <= x * part <= x * scale,
        0 <= x * part / scale <= x,
{
    assert(0 <= x * part <= x * scale) by (nonlinear_arith)
        requires
            0 <= x,
            0 <= part <= scale,
    ;
    assert(x * part / scale <= x) by (nonlinear_arith)
        requires
            0 < scale,
            0 <= x * part <= x * scale,
    ;
    assert(0 <= x * part / scale) by (nonlinear_arith)
        requires
            0 < scale,
            0 <= x * part,
    ;
}

/// A winning stake receives at least itself and at most the larger of the
/// prize pool and itself.
pub proof fn lemma_winnings_range(amount: int, winning_pool: int, prize_pool: int)
    requires
        0 < amount <= winning_pool,
    ensures
        amount <= spec_winnings(amount, winning_pool, prize_pool),
        spec_winnings(amount, winning_pool, prize_pool) <= prize_pool
            || spec_winnings(amount, winning_pool, prize_pool) == amount,
{
    lemma_share_bounded(amount, winning_pool, 1000);
    if prize_pool >= 0 {
        lemma_scaled_part(prize_pool, amount * 1000 / winning_pool, 1000);
    } else {
        lemma_no_prize(amount, winning_pool, prize_pool);
    }
}

/// Without a positive prize pool a winning stake gets exactly itself back.
proof fn lemma_no_prize(amount: int, winning_pool: int, prize_pool: int)
    requires
        0 < amount <= winning_pool,
        prize_pool <= 0,
    ensures
        spec_winnings(amount, winning_pool, prize_pool) == amount,
{
    lemma_share_bounded(amount, winning_pool, 1000);
    let share = amount * 1000 / winning_pool;
    assert(prize_pool * share <= 0) by (nonlinear_arith)
        requires
            prize_pool <= 0,
            share >= 0,
    ;
    assert(prize_pool * share / 1000 <= 0) by (nonlinear_arith)
        requires
            prize_pool * share <= 0,
    ;
}

/// A nonpositive number divided by a positive one stays nonpositive.
proof fn lemma_nonpositive_quotient(x: int, d: int)
    requires
        x <= 0,
        0 < d,
    ensures
        x / d <= 0,
{
    assert(x / d <= 0) by (nonlinear_arith)
        requires
            x <= 0,
            0 < d,
    ;
}

/// Floor of `x / 10000` for a negative `x`, from the quotient of `-(x + 1)`.
proof fn lemma_floor_negative(x: int)
    requires
        x < 0,
    ensures
        x / 10_000 == -((-(x + 1)) / 10_000) - 1,
{
    let y = -(x + 1);
    let q = y / 10_000;
    let r = y % 10_000;
    vstd::arithmetic::div_mod::lemma_fundamental_div_mod(y, 10_000);
    vstd::arithmetic::div_mod::lemma_fundamental_div_mod_converse(
        x,
        10_000,
        -q - 1,
        10_000 - r - 1,
    );
}

/// Commission on a pool: `floor(volume * house_edge / 10000)`.
pub fn commission(volume: i128, house_edge: i128) -> (r: i128)
    requires
        0 <= volume <= MAX_POOL,
        i128::MIN <= volume * house_edge <= i128::MAX,
    ensures
        r == spec_commission(volume as int, house_edge as int),
        i128::MIN / 10_000 <= r <= i128::MAX / 10_000,
{
    let x = volume * house_edge;
    proof {
        vstd::arithmetic::div_mod::lemma_div_is_ordered(x as int, i128::MAX as int, 10_000);
        vstd::arithmetic::div_mod::lemma_div_is_ordered(i128::MIN as int, x as int, 10_000);
    }
    if x >= 0 {
        x / BPS_SCALE
    } else {
        proof {
            lemma_floor_negative(x as int);
        }
        -((-(x + 1)) / BPS_SCALE) - 1
    }
}

/// The prize pool of a pool in range.
pub fn prize_pool(volume: i128, house_edge: i128) -> (r: i128)
    requires
        0 <= volume <= MAX_POOL,
        i128::MIN <= volume * house_edge <= i128::MAX,
    ensures
        r == spec_prize_pool(volume as int, house_edge as int),
{
    volume - commission(volume, house_edge)
}

/// Whether a pool of `volume` at `house_edge` can be settled in `i128`.
pub fn pool_fits(volume: i128, house_edge: i128) -> (r: bool)
    requires
        0 <= volume <= MAX_POOL,
    ensures
        r == pool_in_range(volume as int, house_edge as int),
{
    match volume.checked_mul(house_edge) {
        None => false,
        Some(_) => prize_pool(volume, house_edge) <= MAX_POOL,
    }
}

/// The payout of a winning stake: `max(floor(prize * floor(amount * 1000 /
/// winning_pool) / 1000), amount)`.
pub fn winnings(amount: i128, winning_pool: i128, prize: i128) -> (r: i128)
    requires
        0 < amount <= winning_pool <= MAX_POOL,
        prize <= MAX_POOL,
    ensures
        r == spec_winnings(amount as int, winning_pool as int, prize as int),
        amount <= r <= MAX_POOL,
{
    if prize <= 0 {
        proof {
            lemma_no_prize(amount as int, winning_pool as int, prize as int);
        }
        return amount;
    }
    proof {
        lemma_share_bounded(amount as int, winning_pool as int, 1000);
    }
    let share = amount * ODDS_SCALE / winning_pool;
    proof {
        lemma_scaled_part(prize as int, share as int, 1000);
    }
    let fair = prize * share / ODDS_SCALE;
    if fair >= amount {
        fair
    } else {
        amount
    }
}

/// Multiplier shown when a side has no stake, or the market none at all.
pub const DEFAULT_ODDS: i128 = 2_000;

/// Lowest multiplier shown for a side with stake.
pub const MIN_ODDS: i128 = 1_100;

/// Highest multiplier shown for a side with stake.
pub const MAX_ODDS: i128 = 5_000;

/// Display multiplier of a side with `stake` in a pool of `volume` whose
/// prize pool is `prize`: the prize pool per unit staked, in thousandths,
/// clamped to `[MIN_ODDS, MAX_ODDS]`.
pub open spec fn spec_side_odds(stake: int, volume: int, prize: int) -> int {
    if volume == 0 || stake == 0 {
        DEFAULT_ODDS as int
    } else {
        let raw = prize * 1000 / stake;
        if raw < MIN_ODDS {
            MIN_ODDS as int
        } else if raw > MAX_ODDS {
            MAX_ODDS as int
        } else {
            raw
        }
    }
}

pub fn side_odds(stake: i128, volume: i128, prize: i128) -> (r: i128)
    requires
        0 <= stake <= volume <= MAX_POOL,
        prize <= MAX_POOL,
    ensures
        r == spec_side_odds(stake as int, volume as int, prize as int),
        MIN_ODDS <= r <= MAX_ODDS,
{
    if volume == 0 || stake == 0 {
        DEFAULT_ODDS
    } else if prize <= 0 {
        proof {
            lemma_nonpositive_quotient(prize * 1000, stake as int);
        }
        MIN_ODDS
    } else {
        proof {
            lemma_div_le(prize * 1000, stake as int);
        }
        let raw = prize * ODDS_SCALE / stake;
        if raw < MIN_ODDS {
            MIN_ODDS
        } else if raw > MAX_ODDS {
            MAX_ODDS
        } else {
            raw
        }
    }
}

/// Share of `part` in `volume`, in basis points truncated; 0 for an empty pool.
pub open spec fn spec_share_bps(part: int, volume: int) -> int {
    if volume == 0 {
        0
    } else {
        part * 10_000 / volume
    }
}

pub fn share_bps(part: i128, volume: i128) -> (r: i128)
    requires
        0 <= part <= volume <= MAX_POOL,
    ensures
        r == spec_share_bps(part as int, volume as int),
        0 <= r <= BPS_SCALE,
{
    if volume == 0 {
        0
    } else {
        proof {
            lemma_share_bounded(part as int, volume as int, 10_000);
        }
        part * BPS_SCALE / volume
    }
}

/// Integer division rounded toward zero, as Rust's `/` on signed integers.
pub open spec fn trunc_div(a: int, b: int) -> int {
    let q = (abs(a) / abs(b)) as int;
    if (a < 0) != (b < 0) {
        -q
    } else {
        q
    }
}

/// Relative move from `reference` to `price` in basis points, truncated.
pub open spec fn spec_move_bps(price: int, reference: int) -> int {
    trunc_div((price - reference) * 10_000, reference)
}

/// Prices whose move can be computed: a nonzero reference, and a scaled
/// difference that fits in an `i128`.
pub open spec fn move_computable(price: int, reference: int) -> bool {
    reference != 0 && i128::MIN <= (price - reference) * 10_000 <= i128::MAX
}

/// Outcome of a move of `delta` basis points against a band of `tolerance`.
pub open spec fn spec_classify(delta: int, tolerance: int) -> Outcome {
    if delta > tolerance {
        Outcome::Up
    } else if delta < -tolerance {
        Outcome::Down
    } else {
        Outcome::Stable
    }
}

/// Rust's signed division, computed on magnitudes.
pub fn trunc_div_exec(a: i128, b: i128) -> (r: i128)
    requires
        b != 0,
        !(a == i128::MIN && b == -1),
    ensures
        r == trunc_div(a as int, b as int),
{
    let ua: u128 = if a < 0 {
        ((-(a + 1)) as u128) + 1
    } else {
        a as u128
    };
    let ub: u128 = if b < 0 {
        ((-(b + 1)) as u128) + 1
    } else {
        b as u128
    };
    assert(ua == abs(a as int) && ub == abs(b as int));
    let q = ua / ub;
    proof {
        lemma_div_le(ua as int, ub as int);
        if ub >= 2 {
            assert(ua as int / ub as int <= ua as int / 2) by (nonlinear_arith)
                requires
                    ub >= 2,
                    ua >= 0,
            ;
        }
    }
    if (a < 0) != (b < 0) {
        if q == 0x8000_0000_0000_0000_0000_0000_0000_0000u128 {
            i128::MIN
        } else {
            -(q as i128)
        }
    } else {
        q as i128
    }
}

/// Classifies a settlement price against a reference price: Up when the
/// move exceeds `tolerance` basis points, Down when it falls below
/// `-tolerance`, Stable otherwise.
pub fn classify_move(price: i128, reference: i128, tolerance: i128) -> (r: Result<Outcome, Error>)
    ensures
        move_computable(price as int, reference as int) ==> r == Ok::<Outcome, Error>(
            spec_classify(spec_move_bps(price as int, reference as int), tolerance as int),
        ),
        !move_computable(price as int, reference as int) ==> r == Err::<Outcome, Error>(
            Error::CalculationError,
        ),
{
    if reference == 0 {
        return Err(Error::CalculationError);
    }
    let diff = match price.checked_sub(reference) {
        Some(d) => d,
        None => {
            proof {
                assert((price - reference) * 10_000 > i128::MAX || (price - reference) * 10_000
                    < i128::MIN) by (nonlinear_arith)
                    requires
                        price - reference > i128::MAX || price - reference < i128::MIN,
                ;
            }
            return Err(Error::CalculationError);
        },
    };
    let scaled = match diff.checked_mul(BPS_SCALE) {
        Some(v) => v,
        None => {
            return Err(Error::CalculationError);
        },
    };
    assert(scaled != i128::MIN);
    let delta = trunc_div_exec(scaled, reference);
    if delta > tolerance {
        Ok(Outcome::Up)
    } else if tolerance == i128::MIN || delta < -tolerance {
        Ok(Outcome::Down)
    } else {
        Ok(Outcome::Stable)
    }
}

} // verus!
