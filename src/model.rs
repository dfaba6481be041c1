//! Mathematical model of the book: sums over bets, consistency of a
//! market with its bets, and the effect of each settlement step.
use vstd::prelude::*;
use crate::payout::{
    pool_in_range, trunc_div, MAX_POOL, spec_prize_pool, spec_winnings, spec_side_odds, spec_commission,
    spec_share_bps, spec_classify, spec_move_bps,
};
use crate::oracle::PriceData;
use vstd::math::abs;
use crate::types::{Market, MarketStats, Odds, Outcome, PayoutStatus, PayoutSummary, Payment, UserBet};

verus! {

/// Sum of the stakes on outcome `o`.
pub open spec fn side_sum(bets: Seq<UserBet>, o: Outcome) -> int
    decreases bets.len(),
{
    if bets.len() == 0 {
        0
    } else {
        side_sum(bets.drop_last(), o) + if bets.last().prediction == o {
            bets.last().amount as int
        } else {
            0
        }
    }
}

/// Number of bets on outcome `o`.
pub open spec fn side_count(bets: Seq<UserBet>, o: Outcome) -> int
    decreases bets.len(),
{
    if bets.len() == 0 {
        0
    } else {
        side_count(bets.drop_last(), o) + if bets.last().prediction == o {
            1int
        } else {
            0int
        }
    }
}

/// Sum of all stakes.
pub open spec fn stake_sum(bets: Seq<UserBet>) -> int
    decreases bets.len(),
{
    if bets.len() == 0 {
        0
    } else {
        stake_sum(bets.drop_last()) + bets.last().amount
    }
}

pub open spec fn user_has_bet(bets: Seq<UserBet>, user: Seq<char>) -> bool {
    exists|j: int| 0 <= j < bets.len() && (#[trigger] bets[j]).user@ == user
}

/// No user holds two bets.
pub open spec fn users_unique(bets: Seq<UserBet>) -> bool {
    forall|j: int, k: int|
        0 <= j < bets.len() && 0 <= k < bets.len() && j != k ==> (#[trigger] bets[j]).user@
            != (#[trigger] bets[k]).user@
}

/// The bet of `user`, where there is one.
pub open spec fn bet_of(bets: Seq<UserBet>, user: Seq<char>) -> UserBet {
    bets[choose|j: int| 0 <= j < bets.len() && (#[trigger] bets[j]).user@ == user]
}

/// Winning side of a resolved market.
pub open spec fn winner(m: Market) -> Outcome {
    m.winning_side.unwrap()
}

/// What a winning stake of `amount` on the resolved market `m` receives.
pub open spec fn settled_winnings(m: Market, amount: int) -> int {
    spec_winnings(
        amount,
        m.spec_side_total(winner(m)),
        spec_prize_pool(m.spec_volume(), m.house_edge as int),
    )
}

/// A bet that the payout pass still owes money.
pub open spec fn owed(m: Market, b: UserBet) -> bool {
    m.is_resolved && b.prediction == winner(m) && !b.is_paid_out
}

pub open spec fn bet_consistent(m: Market, b: UserBet) -> bool {
    &&& b.market_id == m.id
    &&& b.amount > 0
    &&& b.is_paid_out ==> m.is_resolved && b.prediction == winner(m) && b.winnings
        == settled_winnings(m, b.amount as int)
    &&& !b.is_paid_out ==> b.winnings == 0
}

/// A market record agrees with the bets placed on it.
pub open spec fn market_consistent(m: Market, bets: Seq<UserBet>, id: int) -> bool {
    &&& m.id == id
    &&& m.start_time <= m.end_time
    &&& m.total_up_bets == side_sum(bets, Outcome::Up)
    &&& m.total_down_bets == side_sum(bets, Outcome::Down)
    &&& m.total_stable_bets == side_sum(bets, Outcome::Stable)
    &&& m.up_betters_count == side_count(bets, Outcome::Up)
    &&& m.down_betters_count == side_count(bets, Outcome::Down)
    &&& m.stable_betters_count == side_count(bets, Outcome::Stable)
    &&& pool_in_range(m.spec_volume(), m.house_edge as int)
    &&& bets.len() <= u32::MAX
    &&& m.is_resolved == m.winning_side.is_some()
    &&& m.is_resolved == m.final_price.is_some()
    &&& m.spec_is_paid_out() ==> m.is_resolved
    &&& users_unique(bets)
    &&& forall|j: int| 0 <= j < bets.len() ==> bet_consistent(m, #[trigger] bets[j])
}

/// Markets and bets that form a valid book: one list of bets per market,
/// ids `1..=n`, and every market consistent with its bets.
pub open spec fn book_consistent(markets: Seq<Market>, bets: Seq<Seq<UserBet>>) -> bool {
    &&& markets.len() == bets.len()
    &&& markets.len() < u64::MAX
    &&& forall|i: int|
        0 <= i < markets.len() ==> market_consistent(#[trigger] markets[i], bets[i], i + 1)
}

/// The sum of a prefix of positive stakes is at most the sum of all.
pub proof fn lemma_stake_sum_prefix(bets: Seq<UserBet>, j: int)
    requires
        0 <= j <= bets.len(),
        forall|x: int| 0 <= x < bets.len() ==> (#[trigger] bets[x]).amount > 0,
    ensures
        stake_sum(bets.take(j)) <= stake_sum(bets),
    decreases bets.len(),
{
    if j < bets.len() {
        let rest = bets.drop_last();
        assert forall|x: int| 0 <= x < rest.len() implies (#[trigger] rest[x]).amount > 0 by {
            assert(rest[x] == bets[x]);
        }
        lemma_stake_sum_prefix(rest, j);
        assert(rest.take(j) =~= bets.take(j));
        assert(bets.last() == bets[bets.len() - 1]);
    } else {
        assert(bets.take(j) =~= bets);
    }
}

/// A fresh market as `create_market` records it.
pub open spec fn fresh_market(
    id: u64,
    title: String,
    token: String,
    betting_token: String,
    initial_price: i128,
    target_price: i128,
    stable_tolerance: i128,
    now: u64,
    duration_hours: u64,
    auto_restart: bool,
    house_edge: i128,
) -> Market {
    Market {
        id,
        title,
        token,
        betting_token,
        initial_price,
        target_price,
        stable_tolerance,
        start_time: now,
        end_time: (now + duration_hours * 3600) as u64,
        total_up_bets: 0,
        total_down_bets: 0,
        total_stable_bets: 0,
        up_betters_count: 0,
        down_betters_count: 0,
        stable_betters_count: 0,
        is_resolved: false,
        payout_status: PayoutStatus::Pending,
        winning_side: None,
        final_price: None,
        auto_restart,
        restart_duration: duration_hours,
        house_edge,
    }
}

/// Display odds of a market, from its current pool.
pub open spec fn market_odds(m: Market) -> Odds {
    let volume = m.spec_volume();
    let prize = spec_prize_pool(volume, m.house_edge as int);
    Odds {
        up_odds: spec_side_odds(m.total_up_bets as int, volume, prize) as i128,
        down_odds: spec_side_odds(m.total_down_bets as int, volume, prize) as i128,
        stable_odds: spec_side_odds(m.total_stable_bets as int, volume, prize) as i128,
    }
}

pub open spec fn odds_for(odds: Odds, o: Outcome) -> i128 {
    match o {
        Outcome::Up => odds.up_odds,
        Outcome::Down => odds.down_odds,
        Outcome::Stable => odds.stable_odds,
    }
}

/// The market after a stake of `amount` on `o`.
pub open spec fn market_after_bet(m: Market, o: Outcome, amount: i128) -> Market {
    match o {
        Outcome::Up => Market {
            total_up_bets: (m.total_up_bets + amount) as i128,
            up_betters_count: (m.up_betters_count + 1) as u32,
            ..m
        },
        Outcome::Down => Market {
            total_down_bets: (m.total_down_bets + amount) as i128,
            down_betters_count: (m.down_betters_count + 1) as u32,
            ..m
        },
        Outcome::Stable => Market {
            total_stable_bets: (m.total_stable_bets + amount) as i128,
            stable_betters_count: (m.stable_betters_count + 1) as u32,
            ..m
        },
    }
}

pub proof fn lemma_sums_push(bets: Seq<UserBet>, b: UserBet)
    ensures
        forall|o: Outcome|
            #[trigger] side_sum(bets.push(b), o) == side_sum(bets, o) + if b.prediction == o {
                b.amount as int
            } else {
                0
            },
        forall|o: Outcome|
            #[trigger] side_count(bets.push(b), o) == side_count(bets, o) + if b.prediction == o {
                1int
            } else {
                0int
            },
        stake_sum(bets.push(b)) == stake_sum(bets) + b.amount,
{
    assert(bets.push(b).drop_last() =~= bets);
}

/// Stakes that are all positive sum to a nonnegative total on each side,
/// and each side's total is at most the whole.
pub proof fn lemma_side_sums_bounded(bets: Seq<UserBet>)
    requires
        forall|j: int| 0 <= j < bets.len() ==> (#[trigger] bets[j]).amount > 0,
    ensures
        forall|o: Outcome| 0 <= #[trigger] side_sum(bets, o),
        forall|o: Outcome| 0 <= #[trigger] side_count(bets, o) <= bets.len(),
        stake_sum(bets) == side_sum(bets, Outcome::Up) + side_sum(bets, Outcome::Down) + side_sum(
            bets,
            Outcome::Stable,
        ),
        side_count(bets, Outcome::Up) + side_count(bets, Outcome::Down) + side_count(
            bets,
            Outcome::Stable,
        ) == bets.len(),
    decreases bets.len(),
{
    if bets.len() > 0 {
        let rest = bets.drop_last();
        assert forall|j: int| 0 <= j < rest.len() implies (#[trigger] rest[j]).amount > 0 by {
            assert(rest[j] == bets[j]);
        }
        lemma_side_sums_bounded(rest);
        assert(bets.last() == bets[bets.len() - 1]);
    }
}

/// Price that a resolution measures the move against.
pub open spec fn reference_price(m: Market, by_target: bool) -> i128 {
    if by_target {
        m.target_price
    } else {
        m.initial_price
    }
}

/// Outcome of market `m` settled at `price`.
pub open spec fn resolved_outcome(m: Market, price: i128, by_target: bool) -> Outcome {
    spec_classify(
        spec_move_bps(price as int, reference_price(m, by_target) as int),
        m.stable_tolerance as int,
    )
}

/// The market once resolved at `price` with outcome `o`.
pub open spec fn market_after_resolve(m: Market, price: i128, o: Outcome) -> Market {
    Market { is_resolved: true, winning_side: Some(o), final_price: Some(price), ..m }
}

/// The transfer owed on bet `b` of the resolved market `m`.
pub open spec fn payment_of(m: Market, b: UserBet) -> Payment {
    Payment { user: b.user, amount: settled_winnings(m, b.amount as int) as i128 }
}

/// The transfers a payout pass makes: one per bet still owed, in bet order.
pub open spec fn payout_plan_of(m: Market, bets: Seq<UserBet>) -> Seq<Payment>
    decreases bets.len(),
{
    if bets.len() == 0 {
        Seq::empty()
    } else {
        payout_plan_of(m, bets.drop_last()) + if owed(m, bets.last()) {
            seq![payment_of(m, bets.last())]
        } else {
            Seq::empty()
        }
    }
}

/// Whether the `k`-th transfer of a pass went through.
pub open spec fn transfer_ok(oks: Seq<bool>, k: int) -> bool {
    0 <= k < oks.len() && oks[k]
}

/// Number of transfers of `plan` that went through.
pub open spec fn paid_count(plan: Seq<Payment>, oks: Seq<bool>) -> int
    decreases plan.len(),
{
    if plan.len() == 0 {
        0
    } else {
        paid_count(plan.drop_last(), oks) + if transfer_ok(oks, plan.len() - 1) {
            1int
        } else {
            0int
        }
    }
}

/// Amount moved by the transfers of `plan` that went through.
pub open spec fn paid_total(plan: Seq<Payment>, oks: Seq<bool>) -> int
    decreases plan.len(),
{
    if plan.len() == 0 {
        0
    } else {
        paid_total(plan.drop_last(), oks) + if transfer_ok(oks, plan.len() - 1) {
            plan.last().amount as int
        } else {
            0int
        }
    }
}

/// Bet `b` once paid its winnings on market `m`.
pub open spec fn paid_bet(m: Market, b: UserBet) -> UserBet {
    UserBet { is_paid_out: true, winnings: settled_winnings(m, b.amount as int) as i128, ..b }
}

/// Bet `b`, the `rank`-th owed bet of a pass, after that pass.
pub open spec fn settle_bet(m: Market, b: UserBet, rank: int, oks: Seq<bool>) -> UserBet {
    if owed(m, b) && transfer_ok(oks, rank) {
        paid_bet(m, b)
    } else {
        b
    }
}

/// The bets of market `m` after a payout pass whose transfers fared as `oks`.
pub open spec fn settled_bets(m: Market, bets: Seq<UserBet>, oks: Seq<bool>) -> Seq<UserBet> {
    Seq::new(
        bets.len(),
        |j: int| settle_bet(m, bets[j], payout_plan_of(m, bets.take(j)).len() as int, oks),
    )
}

/// State of the market after a pass: complete when every transfer went through.
pub open spec fn status_after(m: Market, bets: Seq<UserBet>, oks: Seq<bool>) -> PayoutStatus {
    let plan = payout_plan_of(m, bets);
    if paid_count(plan, oks) == plan.len() {
        PayoutStatus::PaidComplete
    } else {
        PayoutStatus::PaidPartial
    }
}

/// Summary of a payout pass.
pub open spec fn summary_of(m: Market, bets: Seq<UserBet>, oks: Seq<bool>) -> PayoutSummary {
    let plan = payout_plan_of(m, bets);
    let paid = paid_total(plan, oks);
    let commission = spec_commission(m.spec_volume(), m.house_edge as int);
    PayoutSummary {
        total_winners: paid_count(plan, oks) as u32,
        total_paid_amount: paid as i128,
        house_commission: commission as i128,
        remaining_balance: (m.spec_volume() - paid - commission) as i128,
    }
}

/// A stake on side `o` is at most the side's total.
pub proof fn lemma_stake_le_side_sum(bets: Seq<UserBet>, j: int)
    requires
        0 <= j < bets.len(),
        forall|x: int| 0 <= x < bets.len() ==> (#[trigger] bets[x]).amount > 0,
    ensures
        bets[j].amount <= side_sum(bets, bets[j].prediction),
    decreases bets.len(),
{
    let rest = bets.drop_last();
    assert forall|x: int| 0 <= x < rest.len() implies (#[trigger] rest[x]).amount > 0 by {
        assert(rest[x] == bets[x]);
    }
    lemma_side_sums_bounded(rest);
    if j < bets.len() - 1 {
        assert(rest[j] == bets[j]);
        lemma_stake_le_side_sum(rest, j);
    }
}

/// Side totals and counts depend only on the stakes and predictions.
pub proof fn lemma_sums_same(a: Seq<UserBet>, b: Seq<UserBet>)
    requires
        a.len() == b.len(),
        forall|j: int|
            0 <= j < a.len() ==> (#[trigger] a[j]).amount == b[j].amount && a[j].prediction
                == b[j].prediction,
    ensures
        forall|o: Outcome| #[trigger] side_sum(a, o) == side_sum(b, o),
        forall|o: Outcome| #[trigger] side_count(a, o) == side_count(b, o),
    decreases a.len(),
{
    if a.len() > 0 {
        let (ra, rb) = (a.drop_last(), b.drop_last());
        assert forall|j: int| 0 <= j < ra.len() implies (#[trigger] ra[j]).amount == rb[j].amount
            && ra[j].prediction == rb[j].prediction by {
            assert(ra[j] == a[j] && rb[j] == b[j]);
        }
        lemma_sums_same(ra, rb);
        assert(a.last() == a[a.len() - 1] && b.last() == b[b.len() - 1]);
        assert forall|o: Outcome| #[trigger] side_sum(a, o) == side_sum(b, o) by {
            assert(side_sum(ra, o) == side_sum(rb, o));
        }
        assert forall|o: Outcome| #[trigger] side_count(a, o) == side_count(b, o) by {
            assert(side_count(ra, o) == side_count(rb, o));
        }
    }
}

/// The market after a payout pass that left it in `status`.
pub open spec fn market_after_payout(m: Market, status: PayoutStatus) -> Market {
    Market { payout_status: status, ..m }
}

/// A bet on the winning side of a consistent resolved market stakes at most
/// that side's total.
pub proof fn lemma_winning_stake(m: Market, bets: Seq<UserBet>, id: int, j: int)
    requires
        market_consistent(m, bets, id),
        m.is_resolved,
        0 <= j < bets.len(),
        bets[j].prediction == winner(m),
    ensures
        0 < bets[j].amount <= m.spec_side_total(winner(m)),
        0 <= m.total_up_bets && 0 <= m.total_down_bets && 0 <= m.total_stable_bets,
{
    assert forall|x: int| 0 <= x < bets.len() implies (#[trigger] bets[x]).amount > 0 by {
        assert(bet_consistent(m, bets[x]));
    }
    lemma_side_sums_bounded(bets);
    lemma_stake_le_side_sum(bets, j);
}

/// The bets of a market after `user` was paid on a claim.
pub open spec fn bets_after_claim(m: Market, bets: Seq<UserBet>, user: Seq<char>) -> Seq<UserBet> {
    bets.map_values(|b: UserBet| if b.user@ == user { paid_bet(m, b) } else { b })
}

/// The markets among `ms` that take bets at `now`, in id order.
pub open spec fn active_markets(ms: Seq<Market>, now: u64) -> Seq<Market>
    decreases ms.len(),
{
    if ms.len() == 0 {
        Seq::empty()
    } else if ms.last().spec_is_active(now) {
        active_markets(ms.drop_last(), now).push(ms.last())
    } else {
        active_markets(ms.drop_last(), now)
    }
}

/// Aggregate figures of a consistent market.
pub open spec fn stats_of(m: Market) -> MarketStats {
    let volume = m.spec_volume();
    let commission = spec_commission(volume, m.house_edge as int);
    MarketStats {
        total_volume: volume as i128,
        total_betters: (m.up_betters_count + m.down_betters_count + m.stable_betters_count) as u32,
        up_percentage: spec_share_bps(m.total_up_bets as int, volume) as i128,
        down_percentage: spec_share_bps(m.total_down_bets as int, volume) as i128,
        stable_percentage: spec_share_bps(m.total_stable_bets as int, volume) as i128,
        prize_pool: (volume - commission) as i128,
        house_commission: commission as i128,
    }
}

/// The market that succeeds the resolved market `m` under id `id`: same
/// title, assets, tolerance, house edge and duration, starting at `now`,
/// with the final price of `m` as its reference prices.
pub open spec fn successor_of(m: Market, id: u64, now: u64) -> Market {
    fresh_market(
        id,
        m.title,
        m.token,
        m.betting_token,
        m.final_price.unwrap(),
        m.final_price.unwrap(),
        m.stable_tolerance,
        now,
        m.restart_duration,
        true,
        m.house_edge,
    )
}

/// Move between the first and last records in basis points of their
/// truncated average; none for fewer than two records, a nonpositive
/// average, or figures that do not fit in an `i128`.
pub open spec fn spec_volatility(prices: Option<Seq<PriceData>>) -> Option<int> {
    match prices {
        None => None,
        Some(p) => if p.len() < 2 {
            None
        } else {
            let first = p[0].price as int;
            let last = p[p.len() - 1].price as int;
            let diff = abs(last - first) as int;
            let avg = trunc_div(first + last, 2);
            if !(i128::MIN < last - first <= i128::MAX) || !(i128::MIN <= first + last
                <= i128::MAX) || avg <= 0 || diff * 10_000 > i128::MAX {
                None
            } else {
                Some(diff * 10_000 / avg)
            }
        },
    }
}

pub proof fn lemma_take_step<T>(s: Seq<T>, j: int)
    requires
        0 <= j < s.len(),
    ensures
        s.take(j + 1).drop_last() == s.take(j),
        s.take(j + 1).last() == s[j],
        s.take(j + 1).len() == j + 1,
{
    assert(s.take(j + 1).drop_last() =~= s.take(j));
}

} // verus!
