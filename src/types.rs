//! Data records of the market: outcomes, errors, markets and bets.
use vstd::prelude::*;

verus! {

/// One of the three mutually exclusive outcomes of a market.
#[derive(Clone, Copy, Debug, PartialEq, Eq, Structural)]
pub enum Outcome {
    Up,
    Down,
    Stable,
}

impl Outcome {
    /// The outcome that a wire code stands for: 0 is Up, 1 is Down, 2 is Stable.
    pub open spec fn spec_from_code(code: u32) -> Option<Outcome> {
        if code == 0 {
            Some(Outcome::Up)
        } else if code == 1 {
            Some(Outcome::Down)
        } else if code == 2 {
            Some(Outcome::Stable)
        } else {
            None
        }
    }

    pub fn from_code(code: u32) -> (r: Option<Outcome>)
        ensures
            r == Self::spec_from_code(code),
    {
        if code == 0 {
            Some(Outcome::Up)
        } else if code == 1 {
            Some(Outcome::Down)
        } else if code == 2 {
            Some(Outcome::Stable)
        } else {
            None
        }
    }

    pub open spec fn spec_code(self) -> u32 {
        match self {
            Outcome::Up => 0,
            Outcome::Down => 1,
            Outcome::Stable => 2,
        }
    }

    /// The wire code of this outcome.
    pub fn code(self) -> (r: u32)
        ensures
            r == self.spec_code(),
            Self::spec_from_code(r) == Some(self),
    {
        match self {
            Outcome::Up => 0,
            Outcome::Down => 1,
            Outcome::Stable => 2,
        }
    }
}

/// Failures of the market's entry points.
#[derive(Clone, Copy, Debug, PartialEq, Eq, Structural)]
pub enum Error {
    MarketNotFound,
    MarketExpired,
    MarketNotStarted,
    MarketAlreadyResolved,
    MarketAlreadyPaidOut,
    InvalidAmount,
    InvalidPrediction,
    UserAlreadyBet,
    UserAlreadyPaidOut,
    PaymentFailed,
    CalculationError,
}

/// Failures of the oracle client and of the trailing stop-loss book.
#[derive(Clone, Copy, Debug, PartialEq, Eq, Structural)]
pub enum ContractError {
    Unauthorized,
    OrderNotFound,
    OrderNotActive,
    InvalidAmount,
    InvalidTrailPercentage,
    PriceNotAvailable,
    InsufficientData,
    InvalidThreshold,
    InternalError,
}

/// Where the automatic payout pass of a market stands.
#[derive(Clone, Copy, Debug, PartialEq, Eq, Structural)]
pub enum PayoutStatus {
    /// No payout pass has run.
    Pending,
    /// The pass ran and every transfer it attempted went through.
    PaidComplete,
    /// The pass ran and some transfers failed: those winners can still claim.
    PaidPartial,
}

/// One betting round on the price move of an asset.
#[derive(Clone, Debug, PartialEq, Eq)]
pub struct Market {
    /// Sequential identifier, starting at 1.
    pub id: u64,
    pub title: String,
    /// Asset whose price decides the market.
    pub token: String,
    /// Currency in which stakes and payouts are made.
    pub betting_token: String,
    /// Reference price sampled at creation; 0 when none was available.
    pub initial_price: i128,
    pub target_price: i128,
    /// Half-width, in basis points, of the band that counts as no move.
    pub stable_tolerance: i128,
    pub start_time: u64,
    pub end_time: u64,
    pub total_up_bets: i128,
    pub total_down_bets: i128,
    pub total_stable_bets: i128,
    pub up_betters_count: u32,
    pub down_betters_count: u32,
    pub stable_betters_count: u32,
    pub is_resolved: bool,
    pub payout_status: PayoutStatus,
    pub winning_side: Option<Outcome>,
    pub final_price: Option<i128>,
    pub auto_restart: bool,
    /// Duration in hours, reused by a successor market.
    pub restart_duration: u64,
    /// Commission in basis points of the total volume.
    pub house_edge: i128,
}

impl Market {
    /// Sum of the stakes on all three outcomes.
    pub open spec fn spec_volume(&self) -> int {
        self.total_up_bets + self.total_down_bets + self.total_stable_bets
    }

    /// Stake on one outcome.
    pub open spec fn spec_side_total(&self, o: Outcome) -> int {
        match o {
            Outcome::Up => self.total_up_bets as int,
            Outcome::Down => self.total_down_bets as int,
            Outcome::Stable => self.total_stable_bets as int,
        }
    }

    pub open spec fn spec_is_paid_out(&self) -> bool {
        self.payout_status != PayoutStatus::Pending
    }

    /// Whether the automatic payout pass has run.
    pub fn is_paid_out(&self) -> (r: bool)
        ensures
            r == self.spec_is_paid_out(),
    {
        match self.payout_status {
            PayoutStatus::Pending => false,
            _ => true,
        }
    }

    /// Whether the market takes bets at `now`: unresolved, and `now` in
    /// `[start_time, end_time)`.
    pub open spec fn spec_is_active(&self, now: u64) -> bool {
        !self.is_resolved && self.start_time <= now && now < self.end_time
    }

    pub fn is_active(&self, now: u64) -> (r: bool)
        ensures
            r == self.spec_is_active(now),
    {
        !self.is_resolved && self.start_time <= now && now < self.end_time
    }

    /// A field-for-field copy.
    pub fn duplicate(&self) -> (r: Market)
        ensures
            r == *self,
    {
        Market {
            id: self.id,
            title: self.title.clone(),
            token: self.token.clone(),
            betting_token: self.betting_token.clone(),
            initial_price: self.initial_price,
            target_price: self.target_price,
            stable_tolerance: self.stable_tolerance,
            start_time: self.start_time,
            end_time: self.end_time,
            total_up_bets: self.total_up_bets,
            total_down_bets: self.total_down_bets,
            total_stable_bets: self.total_stable_bets,
            up_betters_count: self.up_betters_count,
            down_betters_count: self.down_betters_count,
            stable_betters_count: self.stable_betters_count,
            is_resolved: self.is_resolved,
            payout_status: self.payout_status,
            winning_side: self.winning_side,
            final_price: self.final_price,
            auto_restart: self.auto_restart,
            restart_duration: self.restart_duration,
            house_edge: self.house_edge,
        }
    }
}

/// A user's single stake on a market.
#[derive(Clone, Debug, PartialEq, Eq)]
pub struct UserBet {
    pub user: String,
    pub market_id: u64,
    pub amount: i128,
    pub prediction: Outcome,
    pub timestamp: u64,
    /// Display multiplier (scale 1000) in force when the bet was placed;
    /// informational only, payouts never read it.
    pub odds_when_placed: i128,
    pub is_paid_out: bool,
    /// Amount paid to the user, 0 until paid.
    pub winnings: i128,
}

impl UserBet {
    /// A field-for-field copy.
    pub fn duplicate(&self) -> (r: UserBet)
        ensures
            r == *self,
    {
        UserBet {
            user: self.user.clone(),
            market_id: self.market_id,
            amount: self.amount,
            prediction: self.prediction,
            timestamp: self.timestamp,
            odds_when_placed: self.odds_when_placed,
            is_paid_out: self.is_paid_out,
            winnings: self.winnings,
        }
    }
}

/// Display multipliers of the three outcomes, in thousandths (2000 is 2.0x).
#[derive(Clone, Copy, Debug, PartialEq, Eq, Structural)]
pub struct Odds {
    pub up_odds: i128,
    pub down_odds: i128,
    pub stable_odds: i128,
}

/// Aggregate figures of a market.
#[derive(Clone, Copy, Debug, PartialEq, Eq, Structural)]
pub struct MarketStats {
    pub total_volume: i128,
    pub total_betters: u32,
    /// Shares of the volume, in basis points truncated.
    pub up_percentage: i128,
    pub down_percentage: i128,
    pub stable_percentage: i128,
    pub prize_pool: i128,
    pub house_commission: i128,
}

/// Result of a payout pass.
#[derive(Clone, Copy, Debug, PartialEq, Eq, Structural)]
pub struct PayoutSummary {
    /// Winners whose transfer went through.
    pub total_winners: u32,
    pub total_paid_amount: i128,
    pub house_commission: i128,
    /// `volume - total_paid_amount - house_commission`; negative when the
    /// stake-back guarantee paid out more than the prize pool.
    pub remaining_balance: i128,
}

/// A transfer that a payout pass asks the host to make.
#[derive(Clone, Debug, PartialEq, Eq)]
pub struct Payment {
    pub user: String,
    pub amount: i128,
}

} // verus!
