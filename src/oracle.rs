//! Computations on the answers of the price oracle: fallbacks, decimal
//! conversion, relative changes, alert bands and volatility. The host asks
//! the oracle and hands its answers in as plain values.
use vstd::prelude::*;
use crate::payout::{trunc_div, trunc_div_exec};
use crate::types::ContractError;
use vstd::math::abs;

verus! {

/// A price reported by the oracle, with the time it was observed.
#[derive(Clone, Copy, Debug, PartialEq, Eq, Structural)]
pub struct PriceData {
    pub price: i128,
    pub timestamp: u64,
}

/// Decimals that the oracle's raw prices carry, for the conversion to
/// micro-units of the quote currency.
pub const USD_SHIFT: u32 = 8;

pub open spec fn pow10(n: nat) -> int
    decreases n,
{
    if n == 0 {
        1
    } else {
        10 * pow10((n - 1) as nat)
    }
}

proof fn lemma_pow10_grows(a: nat, b: nat)
    requires
        a <= b,
    ensures
        1 <= pow10(a) <= pow10(b),
    decreases b,
{
    if a < b {
        lemma_pow10_grows(a, (b - 1) as nat);
    } else if a > 0 {
        lemma_pow10_grows((a - 1) as nat, (a - 1) as nat);
    }
}

proof fn lemma_pow10_limits()
    ensures
        pow10(38) <= i128::MAX,
        pow10(39) > i128::MAX,
        pow10(39) > -(i128::MIN as int),
{
    reveal_with_fuel(pow10, 40);
}

/// `10^n`, for `n` up to 38.
fn pow10_exec(n: u32) -> (r: i128)
    requires
        n <= 38,
    ensures
        r == pow10(n as nat),
{
    let mut p: i128 = 1;
    let mut k: u32 = 0;
    while k < n
        invariant
            k <= n <= 38,
            p == pow10(k as nat),
        decreases n - k,
    {
        proof {
            lemma_pow10_limits();
            lemma_pow10_grows((k + 1) as nat, 38);
        }
        p = p * 10;
        k = k + 1;
    }
    p
}

/// Quotient rounded toward zero of a price by `10^n`.
fn shift_down(raw: i128, n: u32) -> (r: i128)
    ensures
        r == trunc_div(raw as int, pow10(n as nat)),
{
    proof {
        lemma_pow10_grows(0, n as nat);
    }
    if n > 38 {
        proof {
            lemma_pow10_limits();
            lemma_pow10_grows(39, n as nat);
            assert(abs(raw as int) < pow10(n as nat));
            assert(abs(raw as int) / abs(pow10(n as nat)) == 0) by (nonlinear_arith)
                requires
                    0 <= abs(raw as int) < abs(pow10(n as nat)),
            ;
        }
        0
    } else {
        trunc_div_exec(raw, pow10_exec(n))
    }
}

pub open spec fn spec_with_decimals(raw: int, from: nat, to: nat) -> Result<int, ContractError> {
    if from >= to {
        Ok(trunc_div(raw, pow10((from - to) as nat)))
    } else if i128::MIN <= raw * pow10((to - from) as nat) <= i128::MAX {
        Ok(raw * pow10((to - from) as nat))
    } else {
        Err(ContractError::InvalidThreshold)
    }
}

/// Relative change in percent between the two latest records, truncated.
pub open spec fn spec_change_percentage(history: Option<Seq<PriceData>>) -> Result<
    int,
    ContractError,
> {
    match history {
        None => Err(ContractError::InsufficientData),
        Some(h) => if h.len() < 2 {
            Err(ContractError::InsufficientData)
        } else if h[1].price == 0 {
            Err(ContractError::InvalidThreshold)
        } else if !(i128::MIN <= (h[0].price - h[1].price) * 100 <= i128::MAX) {
            Err(ContractError::InvalidThreshold)
        } else {
            Ok(trunc_div((h[0].price - h[1].price) * 100, h[1].price as int))
        },
    }
}

/// Whether `price` lies in the band `[min, max]`; a band with
/// `min >= max` is refused before the price is looked at.
pub open spec fn spec_in_band(current: Option<PriceData>, min: i128, max: i128) -> Result<
    bool,
    ContractError,
> {
    if min >= max {
        Err(ContractError::InvalidThreshold)
    } else {
        match current {
            None => Err(ContractError::PriceNotAvailable),
            Some(d) => Ok(min <= d.price && d.price <= max),
        }
    }
}

/// The oracle client's computations.
pub struct OracleContract;

impl OracleContract {
    /// The latest price, or `PriceNotAvailable` when the oracle has none.
    pub fn get_price(last: Option<PriceData>) -> (r: Result<i128, ContractError>)
        ensures
            r == match last {
                Some(d) => Ok::<i128, ContractError>(d.price),
                None => Err(ContractError::PriceNotAvailable),
            },
    {
        match last {
            Some(d) => Ok(d.price),
            None => Err(ContractError::PriceNotAvailable),
        }
    }

    /// A raw price of 14 decimals in micro-units (6 decimals), truncated.
    pub fn get_price_usd(raw: i128) -> (r: i128)
        ensures
            r == trunc_div(raw as int, pow10(USD_SHIFT as nat)),
    {
        shift_down(raw, USD_SHIFT)
    }

    /// A raw price carried from `oracle_decimals` to `target_decimals`:
    /// truncated when decimals are dropped, `InvalidThreshold` when added
    /// decimals would not fit in an `i128`.
    pub fn get_price_with_decimals(raw: i128, oracle_decimals: u32, target_decimals: u32) -> (r:
        Result<i128, ContractError>)
        ensures
            match spec_with_decimals(raw as int, oracle_decimals as nat, target_decimals as nat) {
                Ok(v) => r == Ok::<i128, ContractError>(v as i128),
                Err(e) => r == Err::<i128, ContractError>(e),
            },
    {
        if oracle_decimals >= target_decimals {
            return Ok(shift_down(raw, oracle_decimals - target_decimals));
        }
        let k = target_decimals - oracle_decimals;
        if k > 38 {
            proof {
                lemma_pow10_limits();
                lemma_pow10_grows(39, k as nat);
                let p = pow10(k as nat);
                if raw > 0 {
                    assert(raw * p >= p) by (nonlinear_arith)
                        requires
                            raw >= 1,
                            p >= 1,
                    ;
                } else if raw < 0 {
                    assert(raw * p <= -p) by (nonlinear_arith)
                        requires
                            raw <= -1,
                            p >= 1,
                    ;
                }
            }
            if raw == 0 {
                return Ok(0);
            }
            return Err(ContractError::InvalidThreshold);
        }
        match raw.checked_mul(pow10_exec(k)) {
            Some(v) => Ok(v),
            None => Err(ContractError::InvalidThreshold),
        }
    }

    /// Change in percent between the latest record `history[0]` and the one
    /// before it, `history[1]`, truncated.
    pub fn get_price_change_percentage(history: Option<Vec<PriceData>>) -> (r: Result<
        i128,
        ContractError,
    >)
        ensures
            match spec_change_percentage(
                match history {
                    Some(h) => Some(h@),
                    None => None,
                },
            ) {
                Ok(v) => r == Ok::<i128, ContractError>(v as i128),
                Err(e) => r == Err::<i128, ContractError>(e),
            },
    {
        let h = match history {
            Some(h) => h,
            None => {
                return Err(ContractError::InsufficientData);
            },
        };
        if h.len() < 2 {
            return Err(ContractError::InsufficientData);
        }
        let current = h[0].price;
        let previous = h[1].price;
        if previous == 0 {
            return Err(ContractError::InvalidThreshold);
        }
        let diff = match current.checked_sub(previous) {
            Some(d) => d,
            None => {
                proof {
                    assert((current - previous) * 100 > i128::MAX || (current - previous) * 100
                        < i128::MIN) by (nonlinear_arith)
                        requires
                            current - previous > i128::MAX || current - previous < i128::MIN,
                    ;
                }
                return Err(ContractError::InvalidThreshold);
            },
        };
        let scaled = match diff.checked_mul(100) {
            Some(v) => v,
            None => {
                return Err(ContractError::InvalidThreshold);
            },
        };
        assert(scaled != i128::MIN);
        Ok(trunc_div_exec(scaled, previous))
    }

    /// Whether the current price lies in `[min_threshold, max_threshold]`.
    pub fn check_price_alert(current: Option<PriceData>, min_threshold: i128, max_threshold: i128)
        -> (r: Result<bool, ContractError>)
        ensures
            r == spec_in_band(current, min_threshold, max_threshold),
    {
        if min_threshold >= max_threshold {
            return Err(ContractError::InvalidThreshold);
        }
        match current {
            None => Err(ContractError::PriceNotAvailable),
            Some(d) => Ok(min_threshold <= d.price && d.price <= max_threshold),
        }
    }

    /// Whether the current price lies in the plausible range
    /// `[min_price, max_price]`.
    pub fn validate_price(current: Option<PriceData>, min_price: i128, max_price: i128) -> (r:
        Result<bool, ContractError>)
        ensures
            r == spec_in_band(current, min_price, max_price),
    {
        Self::check_price_alert(current, min_price, max_price)
    }

    /// The raw price, the oracle's decimals, and the price shifted down by
    /// at most 8 of those decimals.
    pub fn debug_price_info(raw: i128, decimals: u32) -> (r: (i128, u32, i128))
        ensures
            r == (raw, decimals, trunc_div(
                raw as int,
                pow10(if decimals < 8 { decimals as nat } else { 8nat }),
            ) as i128),
    {
        let shift = if decimals < 8 {
            decimals
        } else {
            8
        };
        (raw, decimals, shift_down(raw, shift))
    }

    /// The price of each answer, 0 where the oracle had none.
    pub fn get_multiple_prices(answers: &Vec<Option<PriceData>>) -> (r: Vec<i128>)
        ensures
            r@.len() == answers@.len(),
            forall|i: int|
                0 <= i < answers@.len() ==> #[trigger] r@[i] == match answers@[i] {
                    Some(d) => d.price,
                    None => 0,
                },
    {
        let mut r: Vec<i128> = Vec::new();
        let mut i: usize = 0;
        while i < answers.len()
            invariant
                i <= answers@.len(),
                r@.len() == i,
                forall|j: int|
                    0 <= j < i ==> #[trigger] r@[j] == match answers@[j] {
                        Some(d) => d.price,
                        None => 0,
                    },
            decreases answers@.len() - i,
        {
            let p = match answers[i] {
                Some(d) => d.price,
                None => 0,
            };
            r.push(p);
            i = i + 1;
        }
        r
    }
}

} // verus!
