//! The market book: markets, their bets, and the entry points that move
//! them through betting, resolution and payout.
use vstd::prelude::*;
use crate::payout::{
    lemma_div_le, trunc_div_exec, share_bps, lemma_winnings_range, classify_move, BPS_SCALE,
    commission, prize_pool, pool_fits, pool_in_range, side_odds, winnings, MAX_POOL, spec_prize_pool,
    spec_commission,
    move_computable,
};
use crate::oracle::PriceData;
use crate::model::{
    active_markets, bet_consistent, bet_of, bets_after_claim, book_consistent, fresh_market, lemma_side_sums_bounded, lemma_stake_le_side_sum, lemma_stake_sum_prefix, lemma_sums_push, lemma_sums_same, lemma_take_step, lemma_winning_stake, market_after_bet, market_after_payout, market_after_resolve, market_consistent, market_odds, odds_for, owed, paid_count, paid_total, payment_of, payout_plan_of, reference_price, resolved_outcome, settle_bet, settled_bets, settled_winnings, side_count, side_sum, spec_volatility, stake_sum, stats_of, status_after, successor_of, summary_of, transfer_ok, user_has_bet, users_unique, winner,
};
use crate::types::{Error, Market, MarketStats, Odds, Outcome, PayoutStatus, PayoutSummary, Payment, UserBet};

verus! {

/// Seconds in an hour, for market durations given in hours.
pub const SECONDS_PER_HOUR: u64 = 3600;

/// The book of all markets and the bets placed on them.
///
/// Market `id` sits at index `id - 1`; the bets of a market are kept in
/// the order they were placed, which is the order the payout pass visits
/// them.
pub struct PredictionMarket {
    markets: Vec<Market>,
    bets: Vec<Vec<UserBet>>,
}

impl PredictionMarket {
    /// All markets, market `id` at index `id - 1`.
    pub closed spec fn markets(&self) -> Seq<Market> {
        self.markets@
    }

    /// The bets of each market, in placement order.
    pub closed spec fn all_bets(&self) -> Seq<Seq<UserBet>> {
        self.bets@.map_values(|v: Vec<UserBet>| v@)
    }

    pub open spec fn has_market(&self, id: u64) -> bool {
        1 <= id <= self.markets().len()
    }

    pub open spec fn market(&self, id: u64) -> Market {
        self.markets()[id - 1]
    }

    pub open spec fn bets_of(&self, id: u64) -> Seq<UserBet> {
        self.all_bets()[id - 1]
    }

    /// The invariant of the book: sequential ids, and every market
    /// consistent with its bets.
    pub open spec fn wf(&self) -> bool {
        book_consistent(self.markets(), self.all_bets())
    }

    proof fn lemma_views(&self)
        ensures
            self.all_bets().len() == self.bets@.len(),
            forall|i: int| 0 <= i < self.bets@.len() ==> #[trigger] self.all_bets()[i] == self.bets@[i]@,
    {
    }

    /// An empty book.
    pub fn new() -> (r: PredictionMarket)
        ensures
            r.wf(),
            r.markets().len() == 0,
    {
        let r = PredictionMarket { markets: Vec::new(), bets: Vec::new() };
        proof {
            r.lemma_views();
        }
        r
    }

    /// Number of markets created so far; also the id of the latest one.
    pub fn get_total_markets(&self) -> (r: u64)
        requires
            self.wf(),
        ensures
            r == self.markets().len(),
    {
        proof {
            self.lemma_views();
        }
        self.markets.len() as u64
    }

    /// Index of market `market_id` in the book, if it exists.
    fn slot(&self, market_id: u64) -> (r: Option<usize>)
        requires
            self.wf(),
        ensures
            self.has_market(market_id) <==> r.is_some(),
            r.is_some() ==> r.unwrap() == market_id - 1 && r.unwrap() < self.markets@.len()
                && r.unwrap() < self.bets@.len(),
    {
        proof {
            self.lemma_views();
        }
        if market_id == 0 || market_id > self.markets.len() as u64 {
            None
        } else {
            Some((market_id - 1) as usize)
        }
    }

    /// The market with identifier `market_id`, if it exists.
    pub fn get_market(&self, market_id: u64) -> (r: Option<Market>)
        requires
            self.wf(),
        ensures
            self.has_market(market_id) ==> r == Some(self.market(market_id)),
            !self.has_market(market_id) ==> r.is_none(),
    {
        match self.slot(market_id) {
            Some(i) => Some(self.markets[i].duplicate()),
            None => None,
        }
    }

    /// Why `create_market` refuses, if it does: only for machine limits,
    /// an end time past the clock's range or no id left. Any house edge is
    /// accepted; `place_bet` keeps each pool within what its edge lets the
    /// settlement arithmetic handle.
    pub open spec fn create_error(&self, now: u64, duration_hours: u64, house_edge: i128) -> Option<
        Error,
    > {
        if now + duration_hours * 3600 > u64::MAX || self.markets().len() + 1 >= u64::MAX {
            Some(Error::CalculationError)
        } else {
            None
        }
    }

    /// The effect of `create_market`, with result `r`.
    pub open spec fn create_post(
        old: PredictionMarket,
        new: PredictionMarket,
        now: u64,
        title: String,
        token: String,
        betting_token: String,
        initial_price: i128,
        target_price: i128,
        stable_tolerance: i128,
        duration_hours: u64,
        auto_restart: bool,
        house_edge: i128,
        r: Result<u64, Error>,
    ) -> bool {
        match old.create_error(now, duration_hours, house_edge) {
            Some(e) => r == Err::<u64, Error>(e) && new == old,
            None => {
                let id = (old.markets().len() + 1) as u64;
                &&& r == Ok::<u64, Error>(id)
                &&& new.markets() == old.markets().push(
                    fresh_market(
                        id,
                        title,
                        token,
                        betting_token,
                        initial_price,
                        target_price,
                        stable_tolerance,
                        now,
                        duration_hours,
                        auto_restart,
                        house_edge,
                    ),
                )
                &&& new.all_bets() == old.all_bets().push(Seq::empty())
            },
        }
    }

    /// Opens a market at `now` for `duration_hours`, with the next
    /// sequential id. `initial_price` is the reference price sampled by the
    /// host, 0 when none was available.
    pub fn create_market(
        &mut self,
        now: u64,
        title: String,
        token: String,
        betting_token: String,
        initial_price: i128,
        target_price: i128,
        stable_tolerance: i128,
        duration_hours: u64,
        auto_restart: bool,
        house_edge: i128,
    ) -> (r: Result<u64, Error>)
        requires
            old(self).wf(),
        ensures
            final(self).wf(),
            Self::create_post(
                *old(self),
                *final(self),
                now,
                title,
                token,
                betting_token,
                initial_price,
                target_price,
                stable_tolerance,
                duration_hours,
                auto_restart,
                house_edge,
                r,
            ),
    {
        proof {
            self.lemma_views();
        }
        if duration_hours > (u64::MAX - now) / SECONDS_PER_HOUR || self.markets.len() as u64
            >= u64::MAX - 1 {
            proof {
                if duration_hours > (u64::MAX - now) / 3600 {
                    assert(duration_hours * 3600 > u64::MAX - now) by (nonlinear_arith)
                        requires
                            duration_hours > (u64::MAX - now) / 3600,
                            u64::MAX - now >= 0,
                    ;
                }
            }
            return Err(Error::CalculationError);
        }
        proof {
            assert(duration_hours * 3600 <= u64::MAX - now) by (nonlinear_arith)
                requires
                    duration_hours <= (u64::MAX - now) / 3600,
                    u64::MAX - now >= 0,
            ;
        }
        let id = self.markets.len() as u64 + 1;
        let market = Market {
            id,
            title,
            token,
            betting_token,
            initial_price,
            target_price,
            stable_tolerance,
            start_time: now,
            end_time: now + duration_hours * SECONDS_PER_HOUR,
            total_up_bets: 0,
            total_down_bets: 0,
            total_stable_bets: 0,
            up_betters_count: 0,
            down_betters_count: 0,
            stable_betters_count: 0,
            is_resolved: false,
            payout_status: PayoutStatus::Pending,
            winning_side: None,
            final_price: None,
            auto_restart,
            restart_duration: duration_hours,
            house_edge,
        };
        self.markets.push(market);
        self.bets.push(Vec::new());
        proof {
            self.lemma_views();
            assert(self.all_bets() =~= old(self).all_bets().push(Seq::empty()));
            let n = old(self).markets().len();
            assert(0 * (house_edge as int) == 0);
            assert(crate::payout::spec_commission(0, house_edge as int) == 0);
            assert(side_sum(Seq::<UserBet>::empty(), Outcome::Up) == 0);
            assert(side_sum(Seq::<UserBet>::empty(), Outcome::Down) == 0);
            assert(side_sum(Seq::<UserBet>::empty(), Outcome::Stable) == 0);
            assert(side_count(Seq::<UserBet>::empty(), Outcome::Up) == 0);
            assert(side_count(Seq::<UserBet>::empty(), Outcome::Down) == 0);
            assert(side_count(Seq::<UserBet>::empty(), Outcome::Stable) == 0);
            assert(forall|i: int|
                0 <= i < n ==> #[trigger] self.markets()[i] == old(self).markets()[i]
                    && self.all_bets()[i] == old(self).all_bets()[i]);
        }
        Ok(id)
    }

    /// Display odds of market `market_id`, from its current pool.
    pub fn calculate_improved_odds(&self, market_id: u64) -> (r: Result<Odds, Error>)
        requires
            self.wf(),
        ensures
            self.has_market(market_id) ==> r == Ok::<Odds, Error>(market_odds(self.market(market_id))),
            !self.has_market(market_id) ==> r == Err::<Odds, Error>(Error::MarketNotFound),
    {
        match self.slot(market_id) {
            Some(i) => {
                proof {
                    self.lemma_market(market_id);
                }
                Ok(odds_of(&self.markets[i]))
            },
            None => Err(Error::MarketNotFound),
        }
    }

    /// What holds of market `id` and its bets.
    proof fn lemma_market(&self, id: u64)
        requires
            self.wf(),
            self.has_market(id),
        ensures
            self.bets@[id - 1]@ == self.bets_of(id),
            self.markets@[id - 1] == self.market(id),
            market_consistent(self.market(id), self.bets_of(id), id as int),
            0 <= self.market(id).total_up_bets,
            0 <= self.market(id).total_down_bets,
            0 <= self.market(id).total_stable_bets,
            self.market(id).spec_volume() == stake_sum(self.bets_of(id)),
            self.market(id).up_betters_count + self.market(id).down_betters_count
                + self.market(id).stable_betters_count == self.bets_of(id).len(),
    {
        self.lemma_views();
        let i = id - 1;
        assert(market_consistent(self.markets()[i], self.all_bets()[i], i + 1));
        let bets = self.bets_of(id);
        assert forall|j: int| 0 <= j < bets.len() implies (#[trigger] bets[j]).amount > 0 by {
            assert(bet_consistent(self.market(id), bets[j]));
        }
        lemma_side_sums_bounded(bets);
    }

    /// Why `place_bet` refuses, if it does. The checks run in this order.
    pub open spec fn place_bet_error(
        &self,
        now: u64,
        user: Seq<char>,
        market_id: u64,
        amount: i128,
        prediction: u32,
    ) -> Option<Error> {
        let m = self.market(market_id);
        let bets = self.bets_of(market_id);
        if amount <= 0 {
            Some(Error::InvalidAmount)
        } else if prediction > 2 {
            Some(Error::InvalidPrediction)
        } else if !self.has_market(market_id) {
            Some(Error::MarketNotFound)
        } else if now < m.start_time {
            Some(Error::MarketNotStarted)
        } else if now > m.end_time {
            Some(Error::MarketExpired)
        } else if m.is_resolved {
            Some(Error::MarketAlreadyResolved)
        } else if user_has_bet(bets, user) {
            Some(Error::UserAlreadyBet)
        } else if !pool_in_range(m.spec_volume() + amount, m.house_edge as int) || bets.len()
            >= u32::MAX {
            Some(Error::CalculationError)
        } else {
            None
        }
    }

    /// The effect of `place_bet`, with result `r`.
    pub open spec fn place_bet_post(
        old: PredictionMarket,
        new: PredictionMarket,
        now: u64,
        user: String,
        market_id: u64,
        amount: i128,
        prediction: u32,
        r: Result<(), Error>,
    ) -> bool {
        match old.place_bet_error(now, user@, market_id, amount, prediction) {
            Some(e) => r == Err::<(), Error>(e) && new == old,
            None => {
                let m = old.market(market_id);
                let o = Outcome::spec_from_code(prediction).unwrap();
                &&& r == Ok::<(), Error>(())
                &&& new.markets() == old.markets().update(
                    market_id - 1,
                    market_after_bet(m, o, amount),
                )
                &&& new.all_bets() == old.all_bets().update(
                    market_id - 1,
                    old.bets_of(market_id).push(
                        UserBet {
                            user: user,
                            market_id: market_id,
                            amount: amount,
                            prediction: o,
                            timestamp: now,
                            odds_when_placed: odds_for(market_odds(m), o),
                            is_paid_out: false,
                            winnings: 0,
                        },
                    ),
                )
            },
        }
    }

    /// Records `user`'s stake of `amount` on outcome code `prediction`
    /// (0 Up, 1 Down, 2 Stable) in market `market_id` at time `now`.
    ///
    /// On success the bet is appended to the market's bets, with the odds
    /// of the pool before it, and the outcome's total and bettor count grow.
    /// The host pulls the stake from the user in the same transaction. A bet
    /// that would take the pool out of `pool_in_range` for the market's house
    /// edge, or past `u32::MAX` bets, is refused with `CalculationError`.
    pub fn place_bet(
        &mut self,
        now: u64,
        user: String,
        market_id: u64,
        amount: i128,
        prediction: u32,
    ) -> (r: Result<(), Error>)
        requires
            old(self).wf(),
        ensures
            final(self).wf(),
            Self::place_bet_post(*old(self), *final(self), now, user, market_id, amount, prediction, r),
    {
        if amount <= 0 {
            return Err(Error::InvalidAmount);
        }
        let o = match Outcome::from_code(prediction) {
            Some(o) => o,
            None => {
                return Err(Error::InvalidPrediction);
            },
        };
        let i = match self.slot(market_id) {
            Some(i) => i,
            None => {
                return Err(Error::MarketNotFound);
            },
        };
        proof {
            self.lemma_market(market_id);
        }
        let m = &self.markets[i];
        if now < m.start_time {
            return Err(Error::MarketNotStarted);
        }
        if now > m.end_time {
            return Err(Error::MarketExpired);
        }
        if m.is_resolved {
            return Err(Error::MarketAlreadyResolved);
        }
        if find_bet(&self.bets[i], &user).is_some() {
            return Err(Error::UserAlreadyBet);
        }
        let volume = m.total_up_bets + m.total_down_bets + m.total_stable_bets;
        if amount > MAX_POOL - volume || !pool_fits(volume + amount, m.house_edge)
            || self.bets[i].len() >= 0xffff_ffff {
            return Err(Error::CalculationError);
        }
        let odds = odds_of(m);
        let odds_when_placed = match o {
            Outcome::Up => odds.up_odds,
            Outcome::Down => odds.down_odds,
            Outcome::Stable => odds.stable_odds,
        };
        let mut updated = m.duplicate();
        match o {
            Outcome::Up => {
                updated.total_up_bets = updated.total_up_bets + amount;
                updated.up_betters_count = updated.up_betters_count + 1;
            },
            Outcome::Down => {
                updated.total_down_bets = updated.total_down_bets + amount;
                updated.down_betters_count = updated.down_betters_count + 1;
            },
            Outcome::Stable => {
                updated.total_stable_bets = updated.total_stable_bets + amount;
                updated.stable_betters_count = updated.stable_betters_count + 1;
            },
        }
        let bet = UserBet {
            user,
            market_id,
            amount,
            prediction: o,
            timestamp: now,
            odds_when_placed,
            is_paid_out: false,
            winnings: 0,
        };
        let ghost old_bets = self.bets_of(market_id);
        let ghost m0 = self.market(market_id);
        let mut list: Vec<UserBet> = Vec::new();
        self.bets.set_and_swap(i, &mut list);
        list.push(bet);
        self.bets.set_and_swap(i, &mut list);
        self.markets.set(i, updated);
        proof {
            self.lemma_views();
            old(self).lemma_views();
            let id = market_id;
            let new_bets = old_bets.push(bet);
            assert(self.all_bets() =~= old(self).all_bets().update(id - 1, new_bets));
            assert(self.markets() =~= old(self).markets().update(id - 1, updated));
            lemma_sums_push(old_bets, bet);
            assert(updated == market_after_bet(m0, o, amount));
            assert forall|j: int| 0 <= j < new_bets.len() implies bet_consistent(
                updated,
                #[trigger] new_bets[j],
            ) by {
                if j < old_bets.len() {
                    assert(new_bets[j] == old_bets[j]);
                    assert(bet_consistent(m0, old_bets[j]));
                }
            }
            assert forall|j: int, k: int|
                0 <= j < new_bets.len() && 0 <= k < new_bets.len() && j != k implies (
                #[trigger] new_bets[j]).user@ != (#[trigger] new_bets[k]).user@ by {
                if j < old_bets.len() && k < old_bets.len() {
                    assert(new_bets[j] == old_bets[j]);
                    assert(new_bets[k] == old_bets[k]);
                } else if j < old_bets.len() {
                    assert(new_bets[j] == old_bets[j]);
                } else {
                    assert(new_bets[k] == old_bets[k]);
                }
            }
            assert forall|x: int| 0 <= x < self.markets().len() implies market_consistent(
                #[trigger] self.markets()[x],
                self.all_bets()[x],
                x + 1,
            ) by {
                if x != id - 1 {
                    assert(market_consistent(old(self).markets()[x], old(self).all_bets()[x], x + 1));
                }
            }
        }
        Ok(())
    }

    /// Why resolving market `market_id` at `price` refuses, if it does.
    /// `by_target` picks the target price as reference, else the initial one.
    pub open spec fn resolve_error(&self, market_id: u64, price: i128, by_target: bool) -> Option<
        Error,
    > {
        let m = self.market(market_id);
        if !self.has_market(market_id) {
            Some(Error::MarketNotFound)
        } else if m.is_resolved {
            Some(Error::MarketAlreadyResolved)
        } else if !move_computable(price as int, reference_price(m, by_target) as int) {
            Some(Error::CalculationError)
        } else {
            None
        }
    }

    /// The effect of resolving market `id` at `price`, with result `r`.
    pub open spec fn resolve_post(
        old: PredictionMarket,
        new: PredictionMarket,
        id: u64,
        price: i128,
        by_target: bool,
        r: Result<Outcome, Error>,
    ) -> bool {
        match old.resolve_error(id, price, by_target) {
            Some(e) => r == Err::<Outcome, Error>(e) && new == old,
            None => {
                let m = old.market(id);
                let o = resolved_outcome(m, price, by_target);
                &&& r == Ok::<Outcome, Error>(o)
                &&& new.markets() == old.markets().update(id - 1, market_after_resolve(m, price, o))
                &&& new.all_bets() == old.all_bets()
            },
        }
    }

    /// Resolves market `market_id` at the oracle's settlement `price`,
    /// measuring the move against the market's initial price.
    pub fn resolve_market(&mut self, market_id: u64, price: i128) -> (r: Result<Outcome, Error>)
        requires
            old(self).wf(),
        ensures
            final(self).wf(),
            Self::resolve_post(*old(self), *final(self), market_id, price, false, r),
    {
        self.resolve_with(market_id, price, false)
    }

    /// Resolves market `market_id` at a `final_price` supplied by the
    /// admin, measuring the move against the market's target price.
    pub fn resolve_market_manual(&mut self, market_id: u64, final_price: i128) -> (r: Result<
        Outcome,
        Error,
    >)
        requires
            old(self).wf(),
        ensures
            final(self).wf(),
            Self::resolve_post(*old(self), *final(self), market_id, final_price, true, r),
    {
        self.resolve_with(market_id, final_price, true)
    }

    fn resolve_with(&mut self, market_id: u64, price: i128, by_target: bool) -> (r: Result<
        Outcome,
        Error,
    >)
        requires
            old(self).wf(),
        ensures
            final(self).wf(),
            Self::resolve_post(*old(self), *final(self), market_id, price, by_target, r),
    {
        let i = match self.slot(market_id) {
            Some(i) => i,
            None => {
                return Err(Error::MarketNotFound);
            },
        };
        proof {
            self.lemma_market(market_id);
        }
        let m = &self.markets[i];
        if m.is_resolved {
            return Err(Error::MarketAlreadyResolved);
        }
        let reference = if by_target {
            m.target_price
        } else {
            m.initial_price
        };
        let o = match classify_move(price, reference, m.stable_tolerance) {
            Ok(o) => o,
            Err(e) => {
                return Err(e);
            },
        };
        let mut updated = m.duplicate();
        updated.is_resolved = true;
        updated.winning_side = Some(o);
        updated.final_price = Some(price);
        let ghost m0 = self.market(market_id);
        self.markets.set(i, updated);
        proof {
            self.lemma_views();
            old(self).lemma_views();
            let id = market_id;
            let bets = old(self).bets_of(id);
            assert(self.markets() =~= old(self).markets().update(id - 1, updated));
            assert(self.all_bets() =~= old(self).all_bets());
            assert forall|j: int| 0 <= j < bets.len() implies bet_consistent(
                updated,
                #[trigger] bets[j],
            ) by {
                assert(bet_consistent(m0, bets[j]));
            }
            assert forall|x: int| 0 <= x < self.markets().len() implies market_consistent(
                #[trigger] self.markets()[x],
                self.all_bets()[x],
                x + 1,
            ) by {
                assert(market_consistent(old(self).markets()[x], old(self).all_bets()[x], x + 1));
            }
        }
        Ok(o)
    }

    /// Why a payout pass over market `market_id` refuses, if it does.
    pub open spec fn payout_error(&self, market_id: u64) -> Option<Error> {
        let m = self.market(market_id);
        if !self.has_market(market_id) {
            Some(Error::MarketNotFound)
        } else if !m.is_resolved {
            Some(Error::MarketNotStarted)
        } else if m.spec_is_paid_out() {
            Some(Error::MarketAlreadyPaidOut)
        } else {
            None
        }
    }

    /// The transfers that a payout pass over market `market_id` asks the
    /// host to make, in the order it makes them.
    pub fn payout_plan(&self, market_id: u64) -> (r: Result<Vec<Payment>, Error>)
        requires
            self.wf(),
        ensures
            match self.payout_error(market_id) {
                Some(e) => r == Err::<Vec<Payment>, Error>(e),
                None => r.is_ok() && r.unwrap()@ == payout_plan_of(
                    self.market(market_id),
                    self.bets_of(market_id),
                ),
            },
    {
        let i = match self.slot(market_id) {
            Some(i) => i,
            None => {
                return Err(Error::MarketNotFound);
            },
        };
        proof {
            self.lemma_market(market_id);
        }
        let m = &self.markets[i];
        if !m.is_resolved {
            return Err(Error::MarketNotStarted);
        }
        if m.is_paid_out() {
            return Err(Error::MarketAlreadyPaidOut);
        }
        let win = match m.winning_side {
            Some(o) => o,
            None => {
                return Err(Error::MarketNotStarted);
            },
        };
        let bets = &self.bets[i];
        let ghost mm = *m;
        let ghost bs = bets@;
        let mut plan: Vec<Payment> = Vec::new();
        let mut j: usize = 0;
        while j < bets.len()
            invariant
                self.wf(),
                self.has_market(market_id),
                mm == self.market(market_id),
                *m == mm,
                bs == self.bets_of(market_id),
                bets@ == bs,
                market_consistent(mm, bs, market_id as int),
                mm.is_resolved,
                win == winner(mm),
                0 <= mm.total_up_bets && 0 <= mm.total_down_bets && 0 <= mm.total_stable_bets,
                j <= bs.len(),
                plan@ == payout_plan_of(mm, bs.take(j as int)),
            decreases bs.len() - j,
        {
            proof {
                lemma_take_step(bs, j as int);
            }
            let b = &bets[j];
            proof {
                assert(bet_consistent(mm, bs[j as int]));
            }
            let ghost before = plan@;
            if b.prediction == win && !b.is_paid_out {
                proof {
                    lemma_winning_stake(mm, bs, market_id as int, j as int);
                }
                let amount = winnings_of(m, b.amount);
                let pay = Payment { user: b.user.clone(), amount };
                plan.push(pay);
                proof {
                    assert(pay == payment_of(mm, bs[j as int]));
                    assert(plan@ =~= before + seq![payment_of(mm, bs[j as int])]);
                }
            } else {
                proof {
                    assert(plan@ =~= before + Seq::<Payment>::empty());
                }
            }
            j = j + 1;
        }
        proof {
            assert(bs.take(bs.len() as int) =~= bs);
        }
        Ok(plan)
    }

    /// The effect of a payout pass over market `market_id` whose transfers
    /// fared as `oks`, with result `r`.
    pub open spec fn payout_post(
        old: PredictionMarket,
        new: PredictionMarket,
        market_id: u64,
        oks: Seq<bool>,
        r: Result<PayoutSummary, Error>,
    ) -> bool {
        match old.payout_error(market_id) {
            Some(e) => r == Err::<PayoutSummary, Error>(e) && new == old,
            None => {
                let m = old.market(market_id);
                let bets = old.bets_of(market_id);
                let plan = payout_plan_of(m, bets);
                let paid = paid_total(plan, oks);
                let commission = spec_commission(m.spec_volume(), m.house_edge as int);
                &&& r == Ok::<PayoutSummary, Error>(summary_of(m, bets, oks))
                &&& 0 <= paid_count(plan, oks) <= plan.len() <= u32::MAX
                &&& 0 <= paid <= plan.len() * MAX_POOL
                &&& summary_of(m, bets, oks).total_winners as int == paid_count(plan, oks)
                &&& summary_of(m, bets, oks).total_paid_amount as int == paid
                &&& summary_of(m, bets, oks).house_commission as int == commission
                &&& summary_of(m, bets, oks).remaining_balance as int == m.spec_volume() - paid
                    - commission
                &&& new.markets() == old.markets().update(
                    market_id - 1,
                    market_after_payout(m, status_after(m, bets, oks)),
                )
                &&& new.all_bets() == old.all_bets().update(
                    market_id - 1,
                    settled_bets(m, bets, oks),
                )
            },
        }
    }

    /// Runs the payout pass over market `market_id`. `transfers_ok[k]`
    /// tells whether the host's `k`-th transfer of `payout_plan` went
    /// through; a missing entry counts as a failure.
    ///
    /// Each owed bet whose transfer went through is marked paid with its
    /// winnings; the others stay owed and can still be claimed. The market
    /// is marked paid out either way: completely when every transfer went
    /// through, partially otherwise.
    pub fn process_payouts(&mut self, market_id: u64, transfers_ok: &Vec<bool>) -> (r: Result<
        PayoutSummary,
        Error,
    >)
        requires
            old(self).wf(),
        ensures
            final(self).wf(),
            Self::payout_post(*old(self), *final(self), market_id, transfers_ok@, r),
    {
        let i = match self.slot(market_id) {
            Some(i) => i,
            None => {
                return Err(Error::MarketNotFound);
            },
        };
        proof {
            self.lemma_market(market_id);
        }
        let mut m = self.markets[i].duplicate();
        if !m.is_resolved {
            return Err(Error::MarketNotStarted);
        }
        if m.is_paid_out() {
            return Err(Error::MarketAlreadyPaidOut);
        }
        let win = match m.winning_side {
            Some(o) => o,
            None => {
                return Err(Error::MarketNotStarted);
            },
        };
        let ghost m0 = m;
        let ghost bs = self.bets_of(market_id);
        let ghost oks = transfers_ok@;
        let ghost id = market_id as int;
        let mut list: Vec<UserBet> = Vec::new();
        self.bets.set_and_swap(i, &mut list);
        let mut j: usize = 0;
        let mut k: usize = 0;
        let mut count: u32 = 0;
        let mut total: i128 = 0;
        while j < list.len()
            invariant
                m == m0,
                market_consistent(m0, bs, id),
                m0.is_resolved,
                win == winner(m0),
                0 <= m0.total_up_bets && 0 <= m0.total_down_bets && 0 <= m0.total_stable_bets,
                transfers_ok@ == oks,
                list@.len() == bs.len(),
                j <= bs.len(),
                forall|x: int|
                    0 <= x < j ==> #[trigger] list@[x] == settle_bet(
                        m0,
                        bs[x],
                        payout_plan_of(m0, bs.take(x)).len() as int,
                        oks,
                    ),
                forall|x: int| j <= x < bs.len() ==> #[trigger] list@[x] == bs[x],
                k == payout_plan_of(m0, bs.take(j as int)).len(),
                count == paid_count(payout_plan_of(m0, bs.take(j as int)), oks),
                total == paid_total(payout_plan_of(m0, bs.take(j as int)), oks),
                count <= k <= j,
                0 <= total <= k * MAX_POOL,
            decreases bs.len() - j,
        {
            proof {
                lemma_take_step(bs, j as int);
                assert(bet_consistent(m0, bs[j as int]));
            }
            let ghost plan0 = payout_plan_of(m0, bs.take(j as int));
            if list[j].prediction == win && !list[j].is_paid_out {
                proof {
                    lemma_winning_stake(m0, bs, id, j as int);
                }
                let amount = winnings_of(&m, list[j].amount);
                let ok = k < transfers_ok.len() && transfers_ok[k];
                proof {
                    let plan1 = payout_plan_of(m0, bs.take(j + 1));
                    assert(plan1 =~= plan0.push(payment_of(m0, bs[j as int])));
                    assert(plan1.drop_last() =~= plan0);
                    assert(ok == transfer_ok(oks, k as int));
                }
                if ok {
                    let mut paid = list[j].duplicate();
                    paid.is_paid_out = true;
                    paid.winnings = amount;
                    list.set(j, paid);
                    count = count + 1;
                    total = total + amount;
                }
                k = k + 1;
            } else {
                proof {
                    let plan1 = payout_plan_of(m0, bs.take(j + 1));
                    assert(plan1 =~= plan0);
                }
            }
            j = j + 1;
        }
        proof {
            assert(bs.take(bs.len() as int) =~= bs);
            assert(list@ =~= settled_bets(m0, bs, oks));
        }
        let volume = m.total_up_bets + m.total_down_bets + m.total_stable_bets;
        let house_commission = commission(volume, m.house_edge);
        let status = if count as usize == k {
            PayoutStatus::PaidComplete
        } else {
            PayoutStatus::PaidPartial
        };
        m.payout_status = status;
        self.bets.set_and_swap(i, &mut list);
        self.markets.set(i, m);
        proof {
            self.lemma_views();
            old(self).lemma_views();
            let new_bets = settled_bets(m0, bs, oks);
            assert(self.all_bets() =~= old(self).all_bets().update(id - 1, new_bets));
            assert(self.markets() =~= old(self).markets().update(id - 1, m));
            assert forall|x: int| 0 <= x < new_bets.len() implies (#[trigger] new_bets[x]).amount
                == bs[x].amount && new_bets[x].prediction == bs[x].prediction by {}
            lemma_sums_same(new_bets, bs);
            assert forall|x: int| 0 <= x < new_bets.len() implies bet_consistent(
                m,
                #[trigger] new_bets[x],
            ) by {
                assert(bet_consistent(m0, bs[x]));
                if owed(m0, bs[x]) {
                    lemma_winning_stake(m0, bs, id, x);
                    lemma_winnings_range(
                        bs[x].amount as int,
                        m0.spec_side_total(winner(m0)),
                        spec_prize_pool(m0.spec_volume(), m0.house_edge as int),
                    );
                }
            }
            assert forall|x: int, y: int|
                0 <= x < new_bets.len() && 0 <= y < new_bets.len() && x != y implies (
                #[trigger] new_bets[x]).user@ != (#[trigger] new_bets[y]).user@ by {
                assert(bs[x].user@ != bs[y].user@);
            }
            assert forall|x: int| 0 <= x < self.markets().len() implies market_consistent(
                #[trigger] self.markets()[x],
                self.all_bets()[x],
                x + 1,
            ) by {
                if x != id - 1 {
                    assert(market_consistent(old(self).markets()[x], old(self).all_bets()[x], x + 1));
                }
            }
        }
        Ok(
            PayoutSummary {
                total_winners: count,
                total_paid_amount: total,
                house_commission,
                remaining_balance: volume - total - house_commission,
            },
        )
    }

    /// Where the bet of `user` on market `market_id` sits, if both exist.
    fn locate_bet(&self, market_id: u64, user: &String) -> (r: Option<(usize, usize)>)
        requires
            self.wf(),
        ensures
            r.is_some() <==> self.has_market(market_id) && user_has_bet(
                self.bets_of(market_id),
                user@,
            ),
            r.is_some() ==> {
                let (i, j) = r.unwrap();
                &&& i == market_id - 1
                &&& i < self.markets@.len()
                &&& i < self.bets@.len()
                &&& j < self.bets@[i as int]@.len()
                &&& self.bets_of(market_id)[j as int] == bet_of(self.bets_of(market_id), user@)
                &&& bet_of(self.bets_of(market_id), user@).user@ == user@
            },
    {
        let i = match self.slot(market_id) {
            Some(i) => i,
            None => {
                return None;
            },
        };
        proof {
            self.lemma_market(market_id);
        }
        match find_bet(&self.bets[i], user) {
            Some(j) => {
                proof {
                    let bets = self.bets_of(market_id);
                    let k = choose|k: int| 0 <= k < bets.len() && (#[trigger] bets[k]).user@ == user@;
                    assert(bets[j as int].user@ == user@);
                    if k != j {
                        assert(bets[k].user@ != bets[j as int].user@);
                    }
                }
                Some((i, j))
            },
            None => None,
        }
    }

    /// Why a claim by `user` on market `market_id` refuses, if it does.
    pub open spec fn claim_error(&self, user: Seq<char>, market_id: u64) -> Option<Error> {
        let m = self.market(market_id);
        let bets = self.bets_of(market_id);
        if !self.has_market(market_id) {
            Some(Error::MarketNotFound)
        } else if !m.is_resolved {
            Some(Error::MarketNotStarted)
        } else if !user_has_bet(bets, user) {
            Some(Error::MarketNotFound)
        } else if bet_of(bets, user).is_paid_out {
            Some(Error::UserAlreadyPaidOut)
        } else {
            None
        }
    }

    /// Whether the bet of `user` on market `market_id` won.
    pub open spec fn claim_wins(&self, user: Seq<char>, market_id: u64) -> bool {
        bet_of(self.bets_of(market_id), user).prediction == winner(self.market(market_id))
    }

    /// What a claim by `user` on market `market_id` pays: the winnings of a
    /// winning bet, 0 for a losing one.
    pub open spec fn claim_amount(&self, user: Seq<char>, market_id: u64) -> int {
        if self.claim_wins(user, market_id) {
            settled_winnings(
                self.market(market_id),
                bet_of(self.bets_of(market_id), user).amount as int,
            )
        } else {
            0
        }
    }

    /// The effect of a claim by `user` on market `market_id`, with result
    /// `r`, where `transfer_ok` tells whether the host's transfer went through.
    pub open spec fn claim_post(
        old: PredictionMarket,
        new: PredictionMarket,
        user: Seq<char>,
        market_id: u64,
        transfer_ok: bool,
        r: Result<i128, Error>,
    ) -> bool {
        match old.claim_error(user, market_id) {
            Some(e) => r == Err::<i128, Error>(e) && new == old,
            None => if !old.claim_wins(user, market_id) {
                r == Ok::<i128, Error>(0) && new == old
            } else if transfer_ok {
                &&& r == Ok::<i128, Error>(old.claim_amount(user, market_id) as i128)
                &&& new.markets() == old.markets()
                &&& new.all_bets() == old.all_bets().update(
                    market_id - 1,
                    bets_after_claim(old.market(market_id), old.bets_of(market_id), user),
                )
            } else {
                r == Err::<i128, Error>(Error::PaymentFailed) && new == old
            },
        }
    }

    /// What a claim by `user` on market `market_id` would pay, checked as
    /// `claim_winnings` checks it: the host transfers this amount, when
    /// positive, before recording the claim.
    pub fn pending_claim(&self, user: &String, market_id: u64) -> (r: Result<i128, Error>)
        requires
            self.wf(),
        ensures
            match self.claim_error(user@, market_id) {
                Some(e) => r == Err::<i128, Error>(e),
                None => r == Ok::<i128, Error>(self.claim_amount(user@, market_id) as i128),
            },
            r.is_ok() ==> 0 <= r.unwrap() <= MAX_POOL,
            r.is_ok() && self.claim_wins(user@, market_id) ==> r.unwrap() > 0,
    {
        let i = match self.slot(market_id) {
            Some(i) => i,
            None => {
                return Err(Error::MarketNotFound);
            },
        };
        proof {
            self.lemma_market(market_id);
        }
        if !self.markets[i].is_resolved {
            return Err(Error::MarketNotStarted);
        }
        let (i, j) = match self.locate_bet(market_id, user) {
            Some(p) => p,
            None => {
                return Err(Error::MarketNotFound);
            },
        };
        let m = &self.markets[i];
        let b = &self.bets[i][j];
        if b.is_paid_out {
            return Err(Error::UserAlreadyPaidOut);
        }
        if Some(b.prediction) != m.winning_side {
            return Ok(0);
        }
        proof {
            lemma_winning_stake(*m, self.bets_of(market_id), market_id as int, j as int);
        }
        Ok(winnings_of(m, b.amount))
    }

    /// Records the claim of `user` on market `market_id`, where
    /// `transfer_ok` tells whether the host's transfer of the amount given
    /// by `pending_claim` went through.
    ///
    /// A losing bet yields 0 and stays as it is. A winning bet is marked paid
    /// with its winnings only if the transfer went through; otherwise the
    /// claim fails with `PaymentFailed` and can be retried.
    pub fn claim_winnings(&mut self, user: &String, market_id: u64, transfer_ok: bool) -> (r:
        Result<i128, Error>)
        requires
            old(self).wf(),
        ensures
            final(self).wf(),
            Self::claim_post(*old(self), *final(self), user@, market_id, transfer_ok, r),
    {
        let amount = match self.pending_claim(user, market_id) {
            Ok(a) => a,
            Err(e) => {
                return Err(e);
            },
        };
        let (i, j) = match self.locate_bet(market_id, user) {
            Some(p) => p,
            None => {
                return Err(Error::MarketNotFound);
            },
        };
        proof {
            self.lemma_market(market_id);
        }
        if Some(self.bets[i][j].prediction) != self.markets[i].winning_side {
            return Ok(0);
        }
        if !transfer_ok {
            return Err(Error::PaymentFailed);
        }
        let ghost m0 = self.market(market_id);
        let ghost bs = self.bets_of(market_id);
        let ghost id = market_id as int;
        let mut list: Vec<UserBet> = Vec::new();
        self.bets.set_and_swap(i, &mut list);
        let mut paid = list[j].duplicate();
        paid.is_paid_out = true;
        paid.winnings = amount;
        list.set(j, paid);
        let ghost updated = list@;
        self.bets.set_and_swap(i, &mut list);
        proof {
            self.lemma_views();
            old(self).lemma_views();
            let new_bets = bets_after_claim(m0, bs, user@);
            assert forall|x: int| 0 <= x < bs.len() implies #[trigger] updated[x] == new_bets[x] by {
                if x != j {
                    assert(bs[x].user@ != bs[j as int].user@);
                }
            }
            assert(updated =~= new_bets);
            assert(self.all_bets() =~= old(self).all_bets().update(id - 1, new_bets));
            assert(self.markets() =~= old(self).markets());
            assert forall|x: int| 0 <= x < new_bets.len() implies (#[trigger] new_bets[x]).amount
                == bs[x].amount && new_bets[x].prediction == bs[x].prediction by {}
            lemma_sums_same(new_bets, bs);
            assert forall|x: int| 0 <= x < new_bets.len() implies bet_consistent(
                m0,
                #[trigger] new_bets[x],
            ) by {
                assert(bet_consistent(m0, bs[x]));
                if x == j {
                    lemma_winning_stake(m0, bs, id, x);
                    lemma_winnings_range(
                        bs[x].amount as int,
                        m0.spec_side_total(winner(m0)),
                        spec_prize_pool(m0.spec_volume(), m0.house_edge as int),
                    );
                }
            }
            assert forall|x: int, y: int|
                0 <= x < new_bets.len() && 0 <= y < new_bets.len() && x != y implies (
                #[trigger] new_bets[x]).user@ != (#[trigger] new_bets[y]).user@ by {
                assert(bs[x].user@ != bs[y].user@);
            }
            assert forall|x: int| 0 <= x < self.markets().len() implies market_consistent(
                #[trigger] self.markets()[x],
                self.all_bets()[x],
                x + 1,
            ) by {
                if x != id - 1 {
                    assert(market_consistent(old(self).markets()[x], old(self).all_bets()[x], x + 1));
                }
            }
        }
        Ok(amount)
    }

    /// What `user` won on market `market_id`: the winnings of a winning bet
    /// on a resolved market, paid or not; 0 in every other case.
    pub open spec fn user_winnings(&self, user: Seq<char>, market_id: u64) -> int {
        if self.has_market(market_id) && self.market(market_id).is_resolved && user_has_bet(
            self.bets_of(market_id),
            user,
        ) {
            self.claim_amount(user, market_id)
        } else {
            0
        }
    }

    pub fn calculate_user_winnings(&self, market_id: u64, user: &String) -> (r: i128)
        requires
            self.wf(),
        ensures
            r == self.user_winnings(user@, market_id),
    {
        let (i, j) = match self.locate_bet(market_id, user) {
            Some(p) => p,
            None => {
                return 0;
            },
        };
        proof {
            self.lemma_market(market_id);
        }
        let m = &self.markets[i];
        let b = &self.bets[i][j];
        if !m.is_resolved || Some(b.prediction) != m.winning_side {
            return 0;
        }
        proof {
            lemma_winning_stake(*m, self.bets_of(market_id), market_id as int, j as int);
        }
        winnings_of(m, b.amount)
    }

    /// The bet of `user` on market `market_id`, if there is one.
    pub fn get_user_bet(&self, market_id: u64, user: &String) -> (r: Option<UserBet>)
        requires
            self.wf(),
        ensures
            self.has_market(market_id) && user_has_bet(self.bets_of(market_id), user@) ==> r
                == Some(bet_of(self.bets_of(market_id), user@)),
            !(self.has_market(market_id) && user_has_bet(self.bets_of(market_id), user@))
                ==> r.is_none(),
    {
        match self.locate_bet(market_id, user) {
            Some((i, j)) => {
                proof {
                    self.lemma_market(market_id);
                }
                Some(self.bets[i][j].duplicate())
            },
            None => None,
        }
    }

    /// The markets that take bets at `now`: unresolved, with `now` in
    /// `[start_time, end_time)`, in id order.
    pub fn get_active_markets(&self, now: u64) -> (r: Vec<Market>)
        requires
            self.wf(),
        ensures
            r@ == active_markets(self.markets(), now),
    {
        let mut r: Vec<Market> = Vec::new();
        let mut i: usize = 0;
        while i < self.markets.len()
            invariant
                i <= self.markets@.len(),
                r@ == active_markets(self.markets@.take(i as int), now),
            decreases self.markets@.len() - i,
        {
            proof {
                lemma_take_step(self.markets@, i as int);
            }
            if self.markets[i].is_active(now) {
                r.push(self.markets[i].duplicate());
            }
            i = i + 1;
        }
        proof {
            assert(self.markets@.take(self.markets@.len() as int) =~= self.markets@);
        }
        r
    }

    /// Aggregate figures of market `market_id`.
    pub fn get_market_stats(&self, market_id: u64) -> (r: Result<MarketStats, Error>)
        requires
            self.wf(),
        ensures
            self.has_market(market_id) ==> r == Ok::<MarketStats, Error>(
                stats_of(self.market(market_id)),
            ),
            !self.has_market(market_id) ==> r == Err::<MarketStats, Error>(Error::MarketNotFound),
    {
        let i = match self.slot(market_id) {
            Some(i) => i,
            None => {
                return Err(Error::MarketNotFound);
            },
        };
        proof {
            self.lemma_market(market_id);
        }
        let m = &self.markets[i];
        let volume = m.total_up_bets + m.total_down_bets + m.total_stable_bets;
        let house_commission = commission(volume, m.house_edge);
        Ok(
            MarketStats {
                total_volume: volume,
                total_betters: m.up_betters_count + m.down_betters_count + m.stable_betters_count,
                up_percentage: share_bps(m.total_up_bets, volume),
                down_percentage: share_bps(m.total_down_bets, volume),
                stable_percentage: share_bps(m.total_stable_bets, volume),
                prize_pool: volume - house_commission,
                house_commission,
            },
        )
    }

    /// Whether settling market `market_id` at `now` opens a successor.
    pub open spec fn restarts(&self, market_id: u64, now: u64) -> bool {
        let m = self.market(market_id);
        m.auto_restart && self.create_error(now, m.restart_duration, m.house_edge).is_none()
    }

    /// Runs the payout pass over market `market_id` as `process_payouts`
    /// does, then, for a market marked to restart, opens its successor at
    /// `now`. Returns the pass's summary and the successor's id; no
    /// successor is opened when its end time or id would be out of range.
    pub fn payout_and_restart(&mut self, market_id: u64, now: u64, transfers_ok: &Vec<bool>) -> (r:
        Result<(PayoutSummary, Option<u64>), Error>)
        requires
            old(self).wf(),
        ensures
            final(self).wf(),
            match old(self).payout_error(market_id) {
                Some(e) => r == Err::<(PayoutSummary, Option<u64>), Error>(e) && *final(self)
                    == *old(self),
                None => {
                    let m = old(self).market(market_id);
                    let bets = old(self).bets_of(market_id);
                    let oks = transfers_ok@;
                    let markets = old(self).markets().update(
                        market_id - 1,
                        market_after_payout(m, status_after(m, bets, oks)),
                    );
                    let all_bets = old(self).all_bets().update(
                        market_id - 1,
                        settled_bets(m, bets, oks),
                    );
                    let next = (old(self).markets().len() + 1) as u64;
                    if old(self).restarts(market_id, now) {
                        &&& r == Ok::<(PayoutSummary, Option<u64>), Error>(
                            (summary_of(m, bets, oks), Some(next)),
                        )
                        &&& final(self).markets() == markets.push(successor_of(m, next, now))
                        &&& final(self).all_bets() == all_bets.push(Seq::empty())
                    } else {
                        &&& r == Ok::<(PayoutSummary, Option<u64>), Error>(
                            (summary_of(m, bets, oks), None),
                        )
                        &&& final(self).markets() == markets
                        &&& final(self).all_bets() == all_bets
                    }
                },
            },
    {
        let summary = match self.process_payouts(market_id, transfers_ok) {
            Ok(s) => s,
            Err(e) => {
                return Err(e);
            },
        };
        let m = match self.get_market(market_id) {
            Some(m) => m,
            None => {
                return Err(Error::MarketNotFound);
            },
        };
        if !m.auto_restart {
            return Ok((summary, None));
        }
        let price = match m.final_price {
            Some(p) => p,
            None => {
                return Ok((summary, None));
            },
        };
        match self.create_market(
            now,
            m.title.clone(),
            m.token.clone(),
            m.betting_token.clone(),
            price,
            price,
            m.stable_tolerance,
            m.restart_duration,
            true,
            m.house_edge,
        ) {
            Ok(id) => Ok((summary, Some(id))),
            Err(_) => Ok((summary, None)),
        }
    }

    /// The price to record from the oracle's latest answer: 0 when it has
    /// none, which a later resolution against it refuses.
    pub fn get_price(last: Option<PriceData>) -> (r: i128)
        ensures
            r == match last {
                Some(d) => d.price,
                None => 0,
            },
    {
        match last {
            Some(d) => d.price,
            None => 0,
        }
    }

    /// Volatility of an asset from the oracle's recent records, as
    /// `spec_volatility` defines it.
    pub fn analyze_market_volatility(prices: Option<Vec<PriceData>>) -> (r: Option<i128>)
        ensures
            match spec_volatility(
                match prices {
                    Some(p) => Some(p@),
                    None => None,
                },
            ) {
                Some(v) => r == Some(v as i128),
                None => r.is_none(),
            },
    {
        let p = match prices {
            Some(p) => p,
            None => {
                return None;
            },
        };
        if p.len() < 2 {
            return None;
        }
        let first = p[0].price;
        let last = p[p.len() - 1].price;
        let diff = match last.checked_sub(first) {
            Some(d) => d,
            None => {
                return None;
            },
        };
        if diff == i128::MIN {
            return None;
        }
        let spread = if diff < 0 {
            -diff
        } else {
            diff
        };
        let sum = match first.checked_add(last) {
            Some(v) => v,
            None => {
                return None;
            },
        };
        let avg = trunc_div_exec(sum, 2);
        if avg <= 0 {
            return None;
        }
        let scaled = match spread.checked_mul(BPS_SCALE) {
            Some(v) => v,
            None => {
                return None;
            },
        };
        proof {
            lemma_div_le(scaled as int, avg as int);
        }
        let v = trunc_div_exec(scaled, avg);
        Some(v)
    }

    /// Rebuilds a book from stored markets and bets, market `id` at index
    /// `id - 1` of both lists; none when they do not form a valid book.
    pub fn restore(markets: Vec<Market>, bets: Vec<Vec<UserBet>>) -> (r: Option<PredictionMarket>)
        ensures
            match r {
                Some(pm) => {
                    &&& pm.wf()
                    &&& pm.markets() == markets@
                    &&& pm.all_bets() == bets@.map_values(|v: Vec<UserBet>| v@)
                },
                None => !book_consistent(markets@, bets@.map_values(|v: Vec<UserBet>| v@)),
            },
    {
        let ghost views = bets@.map_values(|v: Vec<UserBet>| v@);
        if markets.len() != bets.len() || markets.len() as u64 >= u64::MAX {
            return None;
        }
        let mut i: usize = 0;
        while i < markets.len()
            invariant
                markets@.len() == bets@.len() == views.len(),
                markets@.len() < u64::MAX,
                views == bets@.map_values(|v: Vec<UserBet>| v@),
                i <= markets@.len(),
                forall|x: int|
                    0 <= x < i ==> market_consistent(#[trigger] markets@[x], views[x], x + 1),
            decreases markets@.len() - i,
        {
            if !market_ok(&markets[i], &bets[i], (i + 1) as u64) {
                return None;
            }
            i = i + 1;
        }
        let pm = PredictionMarket { markets, bets };
        proof {
            pm.lemma_views();
            assert(pm.all_bets() =~= views);
        }
        Some(pm)
    }

    /// The stored form of the book: its markets and, per market, its bets.
    pub fn into_parts(self) -> (r: (Vec<Market>, Vec<Vec<UserBet>>))
        ensures
            r.0@ == self.markets(),
            r.1@.map_values(|v: Vec<UserBet>| v@) == self.all_bets(),
    {
        proof {
            self.lemma_views();
            assert(self.bets@.map_values(|v: Vec<UserBet>| v@) =~= self.all_bets());
        }
        (self.markets, self.bets)
    }

    /// Opens a market whose reference price is the oracle's time-weighted
    /// average `twap`; refuses with `InvalidAmount` when the oracle has no
    /// average, and otherwise as `create_market` does.
    pub fn create_twap_market(
        &mut self,
        now: u64,
        title: String,
        token: String,
        betting_token: String,
        twap: Option<i128>,
        target_price: i128,
        stable_tolerance: i128,
        duration_hours: u64,
        auto_restart: bool,
        house_edge: i128,
    ) -> (r: Result<u64, Error>)
        requires
            old(self).wf(),
        ensures
            final(self).wf(),
            twap.is_none() ==> r == Err::<u64, Error>(Error::InvalidAmount) && *final(self) == *old(
                self,
            ),
            twap.is_some() ==> match old(self).create_error(now, duration_hours, house_edge) {
                Some(e) => r == Err::<u64, Error>(e) && *final(self) == *old(self),
                None => {
                    let id = (old(self).markets().len() + 1) as u64;
                    &&& r == Ok::<u64, Error>(id)
                    &&& final(self).markets() == old(self).markets().push(
                        fresh_market(
                            id,
                            title,
                            token,
                            betting_token,
                            twap.unwrap(),
                            target_price,
                            stable_tolerance,
                            now,
                            duration_hours,
                            auto_restart,
                            house_edge,
                        ),
                    )
                    &&& final(self).all_bets() == old(self).all_bets().push(Seq::empty())
                },
            },
    {
        let reference = match twap {
            Some(p) => p,
            None => {
                return Err(Error::InvalidAmount);
            },
        };
        self.create_market(
            now,
            title,
            token,
            betting_token,
            reference,
            target_price,
            stable_tolerance,
            duration_hours,
            auto_restart,
            house_edge,
        )
    }

    /// Resolves market `market_id` at the oracle's time-weighted average
    /// `twap`, or at its latest price `last` when it has no average, or at 0
    /// when it has neither, measuring the move against the market's target
    /// price, as `resolve_market_manual` does.
    pub fn resolve_market_with_twap(
        &mut self,
        market_id: u64,
        twap: Option<i128>,
        last: Option<PriceData>,
    ) -> (r: Result<Outcome, Error>)
        requires
            old(self).wf(),
        ensures
            final(self).wf(),
            Self::resolve_post(
                *old(self),
                *final(self),
                market_id,
                match twap {
                    Some(p) => p,
                    None => match last {
                        Some(d) => d.price,
                        None => 0,
                    },
                },
                true,
                r,
            ),
    {
        let price = match twap {
            Some(p) => p,
            None => Self::get_price(last),
        };
        self.resolve_with(market_id, price, true)
    }
}

/// Index of the bet of `user`, if there is one.
fn find_bet(bets: &Vec<UserBet>, user: &String) -> (r: Option<usize>)
    ensures
        r.is_some() <==> user_has_bet(bets@, user@),
        r.is_some() ==> r.unwrap() < bets@.len() && bets@[r.unwrap() as int].user@ == user@,
{
    let mut j: usize = 0;
    while j < bets.len()
        invariant
            j <= bets@.len(),
            forall|k: int| 0 <= k < j ==> (#[trigger] bets@[k]).user@ != user@,
        decreases bets@.len() - j,
    {
        if bets[j].user == *user {
            return Some(j);
        }
        j = j + 1;
    }
    None
}

/// Display odds of a consistent market.
fn odds_of(m: &Market) -> (r: Odds)
    requires
        0 <= m.total_up_bets,
        0 <= m.total_down_bets,
        0 <= m.total_stable_bets,
        pool_in_range(m.spec_volume(), m.house_edge as int),
    ensures
        r == market_odds(*m),
{
    let volume = m.total_up_bets + m.total_down_bets + m.total_stable_bets;
    let prize = prize_pool(volume, m.house_edge);
    Odds {
        up_odds: side_odds(m.total_up_bets, volume, prize),
        down_odds: side_odds(m.total_down_bets, volume, prize),
        stable_odds: side_odds(m.total_stable_bets, volume, prize),
    }
}

/// The payout of a winning stake of `amount` on the resolved market `m`.
fn winnings_of(m: &Market, amount: i128) -> (r: i128)
    requires
        m.is_resolved,
        m.winning_side.is_some(),
        0 < amount <= m.spec_side_total(winner(*m)),
        0 <= m.total_up_bets,
        0 <= m.total_down_bets,
        0 <= m.total_stable_bets,
        pool_in_range(m.spec_volume(), m.house_edge as int),
    ensures
        r == settled_winnings(*m, amount as int),
        amount <= r <= MAX_POOL,
{
    let volume = m.total_up_bets + m.total_down_bets + m.total_stable_bets;
    let prize = prize_pool(volume, m.house_edge);
    let pool = match m.winning_side {
        Some(Outcome::Up) => m.total_up_bets,
        Some(Outcome::Down) => m.total_down_bets,
        _ => m.total_stable_bets,
    };
    winnings(amount, pool, prize)
}

/// Whether a stored market record agrees with its stored bets.
fn market_ok(m: &Market, bets: &Vec<UserBet>, id: u64) -> (r: bool)
    ensures
        r == market_consistent(*m, bets@, id as int),
{
    let bs = Ghost(bets@);
    if m.id != id || m.start_time > m.end_time
        || m.is_resolved != m.winning_side.is_some() || m.is_resolved != m.final_price.is_some() || (
    m.is_paid_out() && !m.is_resolved) || bets.len() > 0xffff_ffff {
        return false;
    }
    let n = bets.len();
    let mut j: usize = 0;
    while j < n
        invariant
            n == bets@.len(),
            j <= n,
            m.id == id,
            forall|x: int| 0 <= x < j ==> (#[trigger] bets@[x]).amount > 0 && bets@[x].market_id == id,
        decreases n - j,
    {
        if bets[j].amount <= 0 || bets[j].market_id != id {
            proof {
                assert(!bet_consistent(*m, bets@[j as int]));
            }
            return false;
        }
        j = j + 1;
    }
    let mut up: i128 = 0;
    let mut down: i128 = 0;
    let mut stable: i128 = 0;
    let mut up_n: u32 = 0;
    let mut down_n: u32 = 0;
    let mut stable_n: u32 = 0;
    j = 0;
    while j < n
        invariant
            n == bets@.len(),
            n <= u32::MAX,
            j <= n,
            forall|x: int| 0 <= x < n ==> (#[trigger] bets@[x]).amount > 0,
            up == side_sum(bets@.take(j as int), Outcome::Up),
            down == side_sum(bets@.take(j as int), Outcome::Down),
            stable == side_sum(bets@.take(j as int), Outcome::Stable),
            up_n == side_count(bets@.take(j as int), Outcome::Up),
            down_n == side_count(bets@.take(j as int), Outcome::Down),
            stable_n == side_count(bets@.take(j as int), Outcome::Stable),
            0 <= up && 0 <= down && 0 <= stable,
            up + down + stable <= MAX_POOL,
            up_n + down_n + stable_n == j,
        decreases n - j,
    {
        proof {
            lemma_take_step(bets@, j as int);
            lemma_sums_push(bets@.take(j as int), bets@[j as int]);
        }
        let a = bets[j].amount;
        if a > MAX_POOL - (up + down + stable) {
            proof {
                let t = bets@.take(j + 1);
                assert forall|x: int| 0 <= x < t.len() implies (#[trigger] t[x]).amount > 0 by {
                    assert(t[x] == bets@[x]);
                }
                lemma_side_sums_bounded(t);
                lemma_side_sums_bounded(bets@);
                lemma_stake_sum_prefix(bets@, j + 1);
            }
            return false;
        }
        match bets[j].prediction {
            Outcome::Up => {
                up = up + a;
                up_n = up_n + 1;
            },
            Outcome::Down => {
                down = down + a;
                down_n = down_n + 1;
            },
            Outcome::Stable => {
                stable = stable + a;
                stable_n = stable_n + 1;
            },
        }
        j = j + 1;
    }
    proof {
        assert(bets@.take(n as int) =~= bets@);
    }
    if !pool_fits(up + down + stable, m.house_edge) {
        return false;
    }
    if up != m.total_up_bets || down != m.total_down_bets || stable != m.total_stable_bets || up_n
        != m.up_betters_count || down_n != m.down_betters_count || stable_n
        != m.stable_betters_count {
        return false;
    }
    j = 0;
    while j < n
        invariant
            n == bets@.len(),
            j <= n,
            forall|x: int, y: int|
                0 <= x < j && 0 <= y < j && x != y ==> (#[trigger] bets@[x]).user@ != (
                #[trigger] bets@[y]).user@,
        decreases n - j,
    {
        let mut k: usize = 0;
        while k < j
            invariant
                n == bets@.len(),
                j < n,
                k <= j,
                forall|x: int, y: int|
                    0 <= x < j && 0 <= y < j && x != y ==> (#[trigger] bets@[x]).user@ != (
                    #[trigger] bets@[y]).user@,
                forall|y: int| 0 <= y < k ==> (#[trigger] bets@[y]).user@ != bets@[j as int].user@,
            decreases j - k,
        {
            if bets[k].user == bets[j].user {
                proof {
                    assert(!users_unique(bets@));
                }
                return false;
            }
            k = k + 1;
        }
        j = j + 1;
    }
    let win = m.winning_side;
    j = 0;
    while j < n
        invariant
            n == bets@.len(),
            j <= n,
            win == m.winning_side,
            users_unique(bets@),
            forall|x: int| 0 <= x < n ==> (#[trigger] bets@[x]).amount > 0 && bets@[x].market_id
                == id,
            m.total_up_bets == side_sum(bets@, Outcome::Up),
            m.total_down_bets == side_sum(bets@, Outcome::Down),
            m.total_stable_bets == side_sum(bets@, Outcome::Stable),
            0 <= m.total_up_bets && 0 <= m.total_down_bets && 0 <= m.total_stable_bets,
            pool_in_range(m.spec_volume(), m.house_edge as int),
            m.id == id,
            m.is_resolved == m.winning_side.is_some(),
            forall|x: int| 0 <= x < j ==> bet_consistent(*m, #[trigger] bets@[x]),
        decreases n - j,
    {
        let b = &bets[j];
        if b.is_paid_out {
            if !m.is_resolved || win != Some(b.prediction) {
                return false;
            }
            proof {
                lemma_stake_le_side_sum(bets@, j as int);
            }
            if b.winnings != winnings_of(m, b.amount) {
                return false;
            }
        } else if b.winnings != 0 {
            return false;
        }
        j = j + 1;
    }
    true
}

} // verus!
