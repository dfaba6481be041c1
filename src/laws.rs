//! Properties of the market that span every state or several calls.
use vstd::prelude::*;
use crate::engine::PredictionMarket;
use crate::model::{
    active_markets, bet_of, bets_after_claim, lemma_side_sums_bounded,
    owed, paid_bet, payment_of, settled_bets, side_count, paid_count, payout_plan_of, settled_winnings, transfer_ok, side_sum, stake_sum, user_has_bet, users_unique,
};
use crate::payout::pool_in_range;
use crate::types::{Error, Market, Outcome, PayoutStatus, PayoutSummary, Payment, UserBet};

verus! {

/// In every consistent book, the three outcome totals of a market add up to
/// the sum of the stakes of all its bets, and each outcome's total is the
/// sum of the stakes on that outcome.
pub proof fn lemma_totals_match_bets(pm: PredictionMarket, id: u64)
    requires
        pm.wf(),
        pm.has_market(id),
    ensures
        pm.market(id).total_up_bets + pm.market(id).total_down_bets
            + pm.market(id).total_stable_bets == stake_sum(pm.bets_of(id)),
        pm.market(id).total_up_bets == side_sum(pm.bets_of(id), Outcome::Up),
        pm.market(id).total_down_bets == side_sum(pm.bets_of(id), Outcome::Down),
        pm.market(id).total_stable_bets == side_sum(pm.bets_of(id), Outcome::Stable),
{
    let i = id - 1;
    assert(crate::model::market_consistent(pm.markets()[i], pm.all_bets()[i], i + 1));
    let bets = pm.bets_of(id);
    assert forall|j: int| 0 <= j < bets.len() implies (#[trigger] bets[j]).amount > 0 by {
        assert(crate::model::bet_consistent(pm.market(id), bets[j]));
    }
    lemma_side_sums_bounded(bets);
}

/// A market that `create_market` opens, whatever its house edge, has no
/// stake: its totals and bettor counts are 0 and its list of bets is empty,
/// so its totals equal the sum of its bets.
pub proof fn lemma_new_market_empty(
    s0: PredictionMarket,
    s1: PredictionMarket,
    now: u64,
    title: String,
    token: String,
    betting_token: String,
    initial_price: i128,
    target_price: i128,
    stable_tolerance: i128,
    duration_hours: u64,
    auto_restart: bool,
    house_edge: i128,
    id: u64,
)
    requires
        s0.wf(),
        PredictionMarket::create_post(
            s0,
            s1,
            now,
            title,
            token,
            betting_token,
            initial_price,
            target_price,
            stable_tolerance,
            duration_hours,
            auto_restart,
            house_edge,
            Ok(id),
        ),
    ensures
        s1.has_market(id),
        s1.market(id).house_edge == house_edge,
        s1.market(id).total_up_bets == 0,
        s1.market(id).total_down_bets == 0,
        s1.market(id).total_stable_bets == 0,
        s1.market(id).up_betters_count == 0,
        s1.market(id).down_betters_count == 0,
        s1.market(id).stable_betters_count == 0,
        s1.bets_of(id).len() == 0,
        s1.market(id).total_up_bets + s1.market(id).total_down_bets
            + s1.market(id).total_stable_bets == stake_sum(s1.bets_of(id)),
{
    assert(s0.create_error(now, duration_hours, house_edge).is_none());
    assert(s1.markets()[id - 1] == s1.markets().last());
    assert(s1.all_bets()[id - 1] == s1.all_bets().last());
    assert(stake_sum(Seq::<UserBet>::empty()) == 0);
}

/// `pay` is the transfer of the winnings of an owed bet among `bets`.
pub open spec fn pays_owed_bet(m: Market, bets: Seq<UserBet>, pay: Payment) -> bool {
    exists|j: int| 0 <= j < bets.len() && owed(m, #[trigger] bets[j]) && pay == payment_of(m, bets[j])
}

/// Each transfer of a payout plan is the winnings of an owed bet.
proof fn lemma_plan_entries_owed(m: Market, bets: Seq<UserBet>)
    ensures
        forall|k: int|
            0 <= k < payout_plan_of(m, bets).len() ==> pays_owed_bet(
                m,
                bets,
                #[trigger] payout_plan_of(m, bets)[k],
            ),
    decreases bets.len(),
{
    if bets.len() > 0 {
        let rest = bets.drop_last();
        let n = bets.len() - 1;
        assert(bets.last() == bets[n]);
        lemma_plan_entries_owed(m, rest);
        let p = payout_plan_of(m, bets);
        let r = payout_plan_of(m, rest);
        if owed(m, bets[n]) {
            assert(p =~= r.push(payment_of(m, bets[n])));
        } else {
            assert(p =~= r);
        }
        assert forall|k: int| 0 <= k < p.len() implies pays_owed_bet(m, bets, #[trigger] p[k]) by {
            if k < r.len() {
                assert(pays_owed_bet(m, rest, r[k]));
                let j = choose|j: int|
                    0 <= j < rest.len() && owed(m, #[trigger] rest[j]) && r[k] == payment_of(
                        m,
                        rest[j],
                    );
                assert(rest[j] == bets[j]);
                assert(p[k] == r[k]);
            } else {
                assert(p[k] == payment_of(m, bets[n]));
            }
        }
    }
}

/// No user appears in two transfers of a plan over bets of distinct users.
proof fn lemma_plan_users_distinct(m: Market, bets: Seq<UserBet>)
    requires
        users_unique(bets),
    ensures
        forall|k1: int, k2: int|
            0 <= k1 < payout_plan_of(m, bets).len() && 0 <= k2 < payout_plan_of(m, bets).len()
                && k1 != k2 ==> (#[trigger] payout_plan_of(m, bets)[k1]).user@ != (
            #[trigger] payout_plan_of(m, bets)[k2]).user@,
    decreases bets.len(),
{
    if bets.len() > 0 {
        let rest = bets.drop_last();
        let n = bets.len() - 1;
        assert(bets.last() == bets[n]);
        assert forall|j: int, k: int|
            0 <= j < rest.len() && 0 <= k < rest.len() && j != k implies (#[trigger] rest[j]).user@
                != (#[trigger] rest[k]).user@ by {
            assert(rest[j] == bets[j] && rest[k] == bets[k]);
        }
        lemma_plan_users_distinct(m, rest);
        lemma_plan_entries_owed(m, rest);
        let p = payout_plan_of(m, bets);
        let r = payout_plan_of(m, rest);
        if owed(m, bets[n]) {
            assert(p =~= r.push(payment_of(m, bets[n])));
            assert forall|k: int| 0 <= k < r.len() implies (#[trigger] r[k]).user@
                != bets[n].user@ by {
                assert(pays_owed_bet(m, rest, r[k]));
                let j = choose|j: int|
                    0 <= j < rest.len() && owed(m, #[trigger] rest[j]) && r[k] == payment_of(
                        m,
                        rest[j],
                    );
                assert(rest[j] == bets[j]);
                assert(bets[j].user@ != bets[n].user@);
            }
            assert forall|k1: int, k2: int|
                0 <= k1 < p.len() && 0 <= k2 < p.len() && k1 != k2 implies (#[trigger] p[k1]).user@
                    != (#[trigger] p[k2]).user@ by {
                if k1 < r.len() {
                    assert(p[k1] == r[k1]);
                }
                if k2 < r.len() {
                    assert(p[k2] == r[k2]);
                }
            }
        } else {
            assert(p =~= r);
        }
    }
}

/// Every owed bet has its transfer in the plan.
proof fn lemma_owed_in_plan(m: Market, bets: Seq<UserBet>)
    ensures
        forall|j: int|
            0 <= j < bets.len() && owed(m, #[trigger] bets[j]) ==> exists|k: int|
                0 <= k < payout_plan_of(m, bets).len() && payout_plan_of(m, bets)[k] == payment_of(
                    m,
                    bets[j],
                ),
    decreases bets.len(),
{
    if bets.len() > 0 {
        let rest = bets.drop_last();
        let n = bets.len() - 1;
        assert(bets.last() == bets[n]);
        lemma_owed_in_plan(m, rest);
        let p = payout_plan_of(m, bets);
        let r = payout_plan_of(m, rest);
        if owed(m, bets[n]) {
            assert(p =~= r.push(payment_of(m, bets[n])));
        } else {
            assert(p =~= r);
        }
        assert forall|j: int| 0 <= j < bets.len() && owed(m, #[trigger] bets[j]) implies exists|
            k: int,
        | 0 <= k < p.len() && p[k] == payment_of(m, bets[j]) by {
            if j < n {
                assert(rest[j] == bets[j]);
                let k = choose|k: int| 0 <= k < r.len() && r[k] == payment_of(m, rest[j]);
                assert(p[k] == r[k]);
            } else {
                assert(p[r.len() as int] == payment_of(m, bets[n]));
            }
        }
    }
}

/// The payout pass attempts each owed bet (on the winning side, not yet
/// paid) exactly once and nothing else: every transfer it asks for is the
/// winnings of one owed bet, no user appears in two transfers, and every
/// owed bet has its transfer. Bets already paid and losing bets come out of
/// the pass as they went in, so no user is paid twice.
pub proof fn lemma_payout_pass_pays_once(m: Market, bets: Seq<UserBet>, oks: Seq<bool>)
    requires
        users_unique(bets),
    ensures
        forall|k: int|
            0 <= k < payout_plan_of(m, bets).len() ==> pays_owed_bet(
                m,
                bets,
                #[trigger] payout_plan_of(m, bets)[k],
            ),
        forall|k1: int, k2: int|
            0 <= k1 < payout_plan_of(m, bets).len() && 0 <= k2 < payout_plan_of(m, bets).len()
                && k1 != k2 ==> (#[trigger] payout_plan_of(m, bets)[k1]).user@ != (
            #[trigger] payout_plan_of(m, bets)[k2]).user@,
        forall|j: int|
            0 <= j < bets.len() && owed(m, #[trigger] bets[j]) ==> exists|k: int|
                0 <= k < payout_plan_of(m, bets).len() && payout_plan_of(m, bets)[k] == payment_of(
                    m,
                    bets[j],
                ),
        forall|j: int|
            0 <= j < bets.len() && !owed(m, #[trigger] bets[j]) ==> settled_bets(m, bets, oks)[j]
                == bets[j],
{
    lemma_plan_entries_owed(m, bets);
    lemma_plan_users_distinct(m, bets);
    lemma_owed_in_plan(m, bets);
}

/// Active markets come out in strictly increasing id order, so none
/// appears twice, each equal to its stored record.
pub proof fn lemma_active_markets_ordered(ms: Seq<Market>, now: u64)
    requires
        forall|i: int| 0 <= i < ms.len() ==> (#[trigger] ms[i]).id == i + 1,
    ensures
        forall|a: int, b: int|
            0 <= a < b < active_markets(ms, now).len() ==> (#[trigger] active_markets(ms, now)[a]).id
                < (#[trigger] active_markets(ms, now)[b]).id,
        forall|a: int|
            0 <= a < active_markets(ms, now).len() ==> 1 <= (#[trigger] active_markets(
                ms,
                now,
            )[a]).id <= ms.len(),
    decreases ms.len(),
{
    if ms.len() > 0 {
        let rest = ms.drop_last();
        assert forall|i: int| 0 <= i < rest.len() implies (#[trigger] rest[i]).id == i + 1 by {
            assert(rest[i] == ms[i]);
        }
        lemma_active_markets_ordered(rest, now);
        let a = active_markets(ms, now);
        let r = active_markets(rest, now);
        assert(ms.last() == ms[ms.len() - 1]);
        if ms.last().spec_is_active(now) {
            assert(a =~= r.push(ms.last()));
            assert forall|x: int, y: int| 0 <= x < y < a.len() implies (#[trigger] a[x]).id < (
            #[trigger] a[y]).id by {
                assert(a[x] == r[x]);
                if y < r.len() {
                    assert(a[y] == r[y]);
                }
            }
            assert forall|x: int| 0 <= x < a.len() implies 1 <= (#[trigger] a[x]).id <= ms.len() by {
                if x < r.len() {
                    assert(a[x] == r[x]);
                }
            }
        } else {
            assert(a =~= r);
        }
    }
}

/// In every consistent book, no user holds two bets on one market.
pub proof fn lemma_one_bet_per_user(pm: PredictionMarket, id: u64)
    requires
        pm.wf(),
        pm.has_market(id),
    ensures
        users_unique(pm.bets_of(id)),
{
    let i = id - 1;
    assert(crate::model::market_consistent(pm.markets()[i], pm.all_bets()[i], i + 1));
}

/// Once a user has bet on a market, a further bet by the same user on it
/// always fails and changes nothing; it fails with `UserAlreadyBet` whenever
/// the stake, the outcome code, the time and the market's state would
/// otherwise admit it.
pub proof fn lemma_second_bet_refused(
    s0: PredictionMarket,
    s1: PredictionMarket,
    s2: PredictionMarket,
    now1: u64,
    now2: u64,
    user1: String,
    user2: String,
    id: u64,
    amount1: i128,
    amount2: i128,
    prediction1: u32,
    prediction2: u32,
    r2: Result<(), Error>,
)
    requires
        s0.wf(),
        user1@ == user2@,
        PredictionMarket::place_bet_post(s0, s1, now1, user1, id, amount1, prediction1, Ok(())),
        PredictionMarket::place_bet_post(s1, s2, now2, user2, id, amount2, prediction2, r2),
    ensures
        r2.is_err(),
        s2 == s1,
        amount2 > 0 && prediction2 <= 2 && s1.market(id).start_time <= now2 <= s1.market(
            id,
        ).end_time ==> r2 == Err::<(), Error>(Error::UserAlreadyBet),
{
    assert(s0.place_bet_error(now1, user1@, id, amount1, prediction1).is_none());
    let bets1 = s1.bets_of(id);
    let k = s0.bets_of(id).len() as int;
    assert(bets1[k].user@ == user2@);
    assert(user_has_bet(bets1, user2@));
    assert(s1.has_market(id));
    assert(!s1.market(id).is_resolved);
}

/// Before its start a market refuses bets with `MarketNotStarted`, after its
/// end with `MarketExpired`; within `[start_time, end_time]` an unresolved
/// market takes a valid first bet that fits the pool, and a resolved one
/// refuses it with `MarketAlreadyResolved`. A resolved market refuses every
/// bet.
pub proof fn lemma_bet_window(
    pm: PredictionMarket,
    now: u64,
    user: Seq<char>,
    id: u64,
    amount: i128,
    prediction: u32,
)
    requires
        pm.wf(),
        pm.has_market(id),
        amount > 0,
        prediction <= 2,
        !user_has_bet(pm.bets_of(id), user),
    ensures
        now < pm.market(id).start_time ==> pm.place_bet_error(now, user, id, amount, prediction)
            == Some(Error::MarketNotStarted),
        now > pm.market(id).end_time ==> pm.place_bet_error(now, user, id, amount, prediction)
            == Some(Error::MarketExpired),
        pm.market(id).start_time <= now <= pm.market(id).end_time && pm.market(id).is_resolved
            ==> pm.place_bet_error(now, user, id, amount, prediction) == Some(
            Error::MarketAlreadyResolved,
        ),
        pm.market(id).start_time <= now <= pm.market(id).end_time && !pm.market(id).is_resolved
            && pool_in_range(pm.market(id).spec_volume() + amount, pm.market(id).house_edge as int)
            && pm.bets_of(id).len() < u32::MAX
            ==> pm.place_bet_error(now, user, id, amount, prediction).is_none(),
        pm.market(id).is_resolved ==> pm.place_bet_error(now, user, id, amount, prediction).is_some(),
{
}

/// Resolving a market a second time fails with `MarketAlreadyResolved` and
/// leaves the book, and so the final price and winning side, as the first
/// resolution left them, whichever reference each call used.
pub proof fn lemma_resolve_twice(
    s0: PredictionMarket,
    s1: PredictionMarket,
    s2: PredictionMarket,
    id: u64,
    price1: i128,
    price2: i128,
    by_target1: bool,
    by_target2: bool,
    o1: Outcome,
    r2: Result<Outcome, Error>,
)
    requires
        s0.wf(),
        PredictionMarket::resolve_post(s0, s1, id, price1, by_target1, Ok(o1)),
        PredictionMarket::resolve_post(s1, s2, id, price2, by_target2, r2),
    ensures
        r2 == Err::<Outcome, Error>(Error::MarketAlreadyResolved),
        s2 == s1,
        s2.market(id).final_price == Some(price1),
        s2.market(id).winning_side == Some(o1),
{
    assert(s0.resolve_error(id, price1, by_target1).is_none());
    assert(s1.markets()[id - 1].is_resolved);
}

/// After a claim that paid a user, a further claim by that user on the same
/// market fails with `UserAlreadyPaidOut` and changes nothing, whatever the
/// transfer would do: no bet is paid twice.
pub proof fn lemma_claim_twice(
    s0: PredictionMarket,
    s1: PredictionMarket,
    s2: PredictionMarket,
    user: Seq<char>,
    id: u64,
    ok1: bool,
    ok2: bool,
    paid: i128,
    r2: Result<i128, Error>,
)
    requires
        s0.wf(),
        paid > 0,
        PredictionMarket::claim_post(s0, s1, user, id, ok1, Ok(paid)),
        PredictionMarket::claim_post(s1, s2, user, id, ok2, r2),
    ensures
        r2 == Err::<i128, Error>(Error::UserAlreadyPaidOut),
        s2 == s1,
{
    assert(s0.claim_error(user, id).is_none());
    assert(s0.claim_wins(user, id));
    let m = s0.market(id);
    let b0 = s0.bets_of(id);
    let b1 = s1.bets_of(id);
    assert(b1 == bets_after_claim(m, b0, user));
    let j = choose|j: int| 0 <= j < b0.len() && (#[trigger] b0[j]).user@ == user;
    assert(b1[j] == paid_bet(m, b0[j]));
    assert(user_has_bet(b1, user));
    let k = choose|k: int| 0 <= k < b1.len() && (#[trigger] b1[k]).user@ == user;
    assert(b1[k] == paid_bet(m, b0[k]));
    assert(bet_of(b1, user).is_paid_out);
    assert(s1.markets() == s0.markets());
}

/// A bet marked paid, whether by the payout pass or by a claim, holds
/// exactly its winnings and is owed nothing more: no payout pass lists it
/// and a claim on it fails with `UserAlreadyPaidOut`.
pub proof fn lemma_paid_bet_settled(pm: PredictionMarket, user: Seq<char>, id: u64)
    requires
        pm.wf(),
        pm.has_market(id),
        pm.market(id).is_resolved,
        user_has_bet(pm.bets_of(id), user),
        bet_of(pm.bets_of(id), user).is_paid_out,
    ensures
        bet_of(pm.bets_of(id), user).winnings == settled_winnings(
            pm.market(id),
            bet_of(pm.bets_of(id), user).amount as int,
        ),
        !owed(pm.market(id), bet_of(pm.bets_of(id), user)),
        pm.claim_error(user, id) == Some(Error::UserAlreadyPaidOut),
{
    let i = id - 1;
    assert(crate::model::market_consistent(pm.markets()[i], pm.all_bets()[i], i + 1));
    let bets = pm.bets_of(id);
    let j = choose|j: int| 0 <= j < bets.len() && (#[trigger] bets[j]).user@ == user;
    assert(crate::model::bet_consistent(pm.market(id), bets[j]));
}

/// The plan of a prefix of the bets is no longer than the plan of all.
proof fn lemma_plan_prefix(m: Market, bets: Seq<crate::types::UserBet>, j: int)
    requires
        0 <= j <= bets.len(),
    ensures
        payout_plan_of(m, bets.take(j)).len() <= payout_plan_of(m, bets).len(),
    decreases bets.len(),
{
    if j < bets.len() {
        let rest = bets.drop_last();
        lemma_plan_prefix(m, rest, j);
        assert(rest.take(j) =~= bets.take(j));
    } else {
        assert(bets.take(j) =~= bets);
    }
}

/// When every transfer of a plan went through, each one did.
proof fn lemma_all_paid(plan: Seq<Payment>, oks: Seq<bool>, k: int)
    requires
        0 <= k < plan.len(),
        !transfer_ok(oks, k),
    ensures
        paid_count(plan, oks) < plan.len(),
    decreases plan.len(),
{
    let rest = plan.drop_last();
    if k < plan.len() - 1 {
        lemma_all_paid(rest, oks, k);
    } else {
        lemma_paid_count_le(rest, oks);
    }
}

proof fn lemma_paid_count_le(plan: Seq<Payment>, oks: Seq<bool>)
    ensures
        paid_count(plan, oks) <= plan.len(),
    decreases plan.len(),
{
    if plan.len() > 0 {
        lemma_paid_count_le(plan.drop_last(), oks);
    }
}

/// A winner whose transfer failed during a payout pass keeps an unpaid
/// bet: the pass leaves the market partially paid, and a later claim by
/// that winner is accepted for the same winnings.
pub proof fn lemma_failed_transfer_stays_claimable(
    s0: PredictionMarket,
    s1: PredictionMarket,
    id: u64,
    oks: Seq<bool>,
    summary: PayoutSummary,
    j: int,
)
    requires
        s0.wf(),
        s1.wf(),
        PredictionMarket::payout_post(s0, s1, id, oks, Ok(summary)),
        0 <= j < s0.bets_of(id).len(),
        owed(s0.market(id), s0.bets_of(id)[j]),
        !transfer_ok(oks, payout_plan_of(s0.market(id), s0.bets_of(id).take(j)).len() as int),
    ensures
        s1.bets_of(id)[j] == s0.bets_of(id)[j],
        s1.market(id).payout_status == PayoutStatus::PaidPartial,
        s1.claim_error(s0.bets_of(id)[j].user@, id).is_none(),
        s1.claim_wins(s0.bets_of(id)[j].user@, id),
        s1.claim_amount(s0.bets_of(id)[j].user@, id) == settled_winnings(
            s0.market(id),
            s0.bets_of(id)[j].amount as int,
        ),
{
    let m = s0.market(id);
    let bets = s0.bets_of(id);
    let user = bets[j].user@;
    assert(s0.payout_error(id).is_none());
    let b1 = s1.bets_of(id);
    assert(b1 == crate::model::settled_bets(m, bets, oks));
    assert(b1[j] == bets[j]);
    let rank = payout_plan_of(m, bets.take(j)).len() as int;
    crate::model::lemma_take_step(bets, j);
    let plan1 = payout_plan_of(m, bets.take(j + 1));
    assert(plan1.len() == rank + 1);
    lemma_plan_prefix(m, bets, j + 1);
    lemma_all_paid(payout_plan_of(m, bets), oks, rank);
    assert(s1.market(id) == crate::model::market_after_payout(
        m,
        crate::model::status_after(m, bets, oks),
    ));
    let i = id - 1;
    assert(crate::model::market_consistent(s1.markets()[i], s1.all_bets()[i], i + 1));
    assert(user_has_bet(b1, user));
    let k = choose|k: int| 0 <= k < b1.len() && (#[trigger] b1[k]).user@ == user;
    if k != j {
        assert(b1[k].user@ != b1[j].user@);
    }
}

/// A claim on a losing bet returns 0 and leaves the book unchanged, so the
/// bet stays unpaid.
pub proof fn lemma_losing_claim(
    s0: PredictionMarket,
    s1: PredictionMarket,
    user: Seq<char>,
    id: u64,
    ok: bool,
    r: Result<i128, Error>,
)
    requires
        s0.wf(),
        s0.claim_error(user, id).is_none(),
        !s0.claim_wins(user, id),
        PredictionMarket::claim_post(s0, s1, user, id, ok, r),
    ensures
        r == Ok::<i128, Error>(0),
        s1 == s0,
        !bet_of(s1.bets_of(id), user).is_paid_out,
{
}

/// The active markets are exactly the unresolved markets whose window
/// `[start_time, end_time)` holds `now`: every listed market is one, and
/// every such market is listed.
pub proof fn lemma_active_markets(ms: Seq<Market>, now: u64)
    ensures
        forall|x: int|
            0 <= x < active_markets(ms, now).len() ==> (#[trigger] active_markets(ms, now)[x]).spec_is_active(now),
        forall|x: int|
            0 <= x < active_markets(ms, now).len() ==> ms.contains(
                #[trigger] active_markets(ms, now)[x],
            ),
        forall|i: int|
            0 <= i < ms.len() && (#[trigger] ms[i]).spec_is_active(now) ==> active_markets(
                ms,
                now,
            ).contains(ms[i]),
    decreases ms.len(),
{
    if ms.len() > 0 {
        let rest = ms.drop_last();
        lemma_active_markets(rest, now);
        let a = active_markets(ms, now);
        let ar = active_markets(rest, now);
        assert forall|x: int| 0 <= x < a.len() implies ms.contains(#[trigger] a[x]) by {
            if x < ar.len() {
                assert(a[x] == ar[x]);
                let y = choose|y: int| 0 <= y < rest.len() && rest[y] == ar[x];
                assert(ms[y] == rest[y]);
            } else {
                assert(a[x] == ms.last());
                assert(ms[ms.len() - 1] == ms.last());
            }
        }
        assert forall|x: int| 0 <= x < a.len() implies (#[trigger] a[x]).spec_is_active(now) by {
            if x < ar.len() {
                assert(a[x] == ar[x]);
            }
        }
        assert forall|i: int| 0 <= i < ms.len() && (#[trigger] ms[i]).spec_is_active(now)
            implies a.contains(ms[i]) by {
            if i < ms.len() - 1 {
                assert(rest[i] == ms[i]);
                assert(ar.contains(rest[i]));
                let y = choose|y: int| 0 <= y < ar.len() && ar[y] == rest[i];
                assert(a[y] == ar[y]);
            } else {
                assert(a[a.len() - 1] == ms.last());
            }
        }
    }
}

} // verus!
