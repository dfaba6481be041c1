use prediction_market::{
    Error, Outcome, PayoutStatus, PredictionMarket, PriceData,
};

const UP: u32 = 0;
const DOWN: u32 = 1;
const STABLE: u32 = 2;

fn s(text: &str) -> String {
    text.to_string()
}

/// A book with one market opened at time 1000 for `hours` hours.
fn book_with_market(target: i128, hours: u64, house_edge: i128, auto_restart: bool) -> PredictionMarket {
    let mut pm = PredictionMarket::new();
    let id = pm
        .create_market(1000, s("Test Market"), s("ASSET"), s("XLM"), 1_000_000, target, 500, hours, auto_restart, house_edge)
        .unwrap();
    assert_eq!(id, 1);
    pm
}

#[test]
fn test_create_market() {
    let mut pm = PredictionMarket::new();
    let market_id = pm
        .create_market(0, s("KALE $1 Test"), s("KALE"), s("XLM"), 0, 1_000_000i128, 500, 168u64, false, 50)
        .unwrap();
    assert_eq!(market_id, 1);

    let market = pm.get_market(1u64).unwrap();
    assert_eq!(market.id, 1);
    assert_eq!(market.target_price, 1_000_000i128);
    assert_eq!(market.is_resolved, false);
}

#[test]
fn test_place_bet() {
    let mut pm = PredictionMarket::new();
    let market_id = pm
        .create_market(0, s("Test Market"), s("KALE"), s("XLM"), 0, 1_000_000i128, 500, 168u64, false, 50)
        .unwrap();

    pm.place_bet(0, s("user"), market_id, 100_000i128, UP).unwrap();
    let market = pm.get_market(market_id).unwrap();
    assert_eq!(market.total_up_bets, 100_000i128);
    assert_eq!(market.total_down_bets, 0i128);

    pm.place_bet(0, s("user2"), market_id, 50_000i128, DOWN).unwrap();
    let updated_market = pm.get_market(market_id).unwrap();
    assert_eq!(updated_market.total_up_bets, 100_000i128);
    assert_eq!(updated_market.total_down_bets, 50_000i128);
}

#[test]
fn test_get_active_markets() {
    let mut pm = PredictionMarket::new();
    let _market_id1 = pm
        .create_market(0, s("Market 1"), s("KALE"), s("XLM"), 0, 1_000_000i128, 500, 168u64, false, 50)
        .unwrap();
    let _market_id2 = pm
        .create_market(0, s("Market 2"), s("KALE"), s("XLM"), 0, 2_000_000i128, 500, 336u64, false, 50)
        .unwrap();

    let active_markets = pm.get_active_markets(0);
    assert_eq!(active_markets.len(), 2);
    assert_eq!(active_markets[0].target_price, 1_000_000i128);
    assert_eq!(active_markets[1].target_price, 2_000_000i128);
}

#[test]
fn test_oracle_functions_safe() {
    let price = PredictionMarket::get_price(None);
    assert_eq!(price, 0i128);

    let volatility = PredictionMarket::analyze_market_volatility(None);
    assert_eq!(volatility, None);
}

#[test]
fn market_ids_are_sequential_and_times_follow_duration() {
    let mut pm = PredictionMarket::new();
    assert_eq!(pm.get_total_markets(), 0);
    let a = pm.create_market(500, s("A"), s("X"), s("Y"), 10, 10, 0, 2, false, 0).unwrap();
    let b = pm.create_market(600, s("B"), s("X"), s("Y"), 10, 10, 0, 1, false, 0).unwrap();
    assert_eq!((a, b), (1, 2));
    assert_eq!(pm.get_total_markets(), 2);
    let m = pm.get_market(1).unwrap();
    assert_eq!(m.start_time, 500);
    assert_eq!(m.end_time, 500 + 2 * 3600);
    assert_eq!(m.payout_status, PayoutStatus::Pending);
    assert!(pm.get_market(3).is_none());
    assert!(pm.get_market(0).is_none());
}

#[test]
fn create_market_accepts_any_house_edge_and_refuses_overflowing_end() {
    let mut pm = PredictionMarket::new();
    assert_eq!(pm.create_market(0, s("A"), s("X"), s("Y"), 1, 1, 0, 1, false, 20_000), Ok(1));
    assert_eq!(pm.create_market(0, s("B"), s("X"), s("Y"), 1, 1, 0, 1, false, -100), Ok(2));
    assert_eq!(pm.create_market(0, s("C"), s("X"), s("Y"), 1, 1, 0, 1, false, i128::MAX), Ok(3));
    assert_eq!(pm.get_market(1).unwrap().house_edge, 20_000);
    assert_eq!(pm.create_market(u64::MAX - 10, s("D"), s("X"), s("Y"), 1, 1, 0, 1, false, 0), Err(Error::CalculationError));
    assert_eq!(pm.get_total_markets(), 3);
}

#[test]
fn house_edge_outside_basis_points_settles_exactly() {
    // Edge 20000 bps: commission 2000 on a pool of 1000, prize pool -1000;
    // winners get their stake back and odds sit at the floor.
    let mut pm = book_with_market(1_000_000, 24, 20_000, false);
    pm.place_bet(1000, s("a"), 1, 700, UP).unwrap();
    pm.place_bet(1000, s("b"), 1, 300, DOWN).unwrap();
    let st = pm.get_market_stats(1).unwrap();
    assert_eq!((st.house_commission, st.prize_pool), (2000, -1000));
    let odds = pm.calculate_improved_odds(1).unwrap();
    assert_eq!((odds.up_odds, odds.down_odds), (1100, 1100));
    pm.resolve_market(1, 1_100_000).unwrap();
    assert_eq!(pm.claim_winnings(&s("a"), 1, true), Ok(700));

    // Edge -100 bps: commission floor(-100000 / 10000) = -10, prize pool 1010;
    // a 700 Up stake: share 1000, payout 1010.
    let mut pm = book_with_market(1_000_000, 24, -100, false);
    pm.place_bet(1000, s("a"), 1, 700, UP).unwrap();
    pm.place_bet(1000, s("b"), 1, 300, DOWN).unwrap();
    let st = pm.get_market_stats(1).unwrap();
    assert_eq!((st.house_commission, st.prize_pool), (-10, 1010));
    pm.resolve_market(1, 1_100_000).unwrap();
    let summary = pm.process_payouts(1, &vec![true]).unwrap();
    assert_eq!(summary.total_paid_amount, 1010);
    assert_eq!(summary.remaining_balance, 1000 - 1010 + 10);
}

#[test]
fn pool_capacity_follows_the_house_edge() {
    // With the largest edge only a pool of 1 keeps volume * edge in range.
    let mut pm = book_with_market(1_000_000, 24, i128::MAX, false);
    assert_eq!(pm.place_bet(1000, s("a"), 1, 2, UP), Err(Error::CalculationError));
    assert_eq!(pm.place_bet(1000, s("a"), 1, 1, UP), Ok(()));
    assert_eq!(pm.place_bet(1000, s("b"), 1, 1, DOWN), Err(Error::CalculationError));
}

#[test]
fn totals_equal_sum_of_bets() {
    let mut pm = book_with_market(1_000_000, 24, 50, false);
    pm.place_bet(1000, s("a"), 1, 100, UP).unwrap();
    pm.place_bet(1001, s("b"), 1, 250, DOWN).unwrap();
    pm.place_bet(1002, s("c"), 1, 75, STABLE).unwrap();
    pm.place_bet(1003, s("d"), 1, 25, UP).unwrap();
    let m = pm.get_market(1).unwrap();
    assert_eq!(m.total_up_bets, 125);
    assert_eq!(m.total_down_bets, 250);
    assert_eq!(m.total_stable_bets, 75);
    assert_eq!(m.total_up_bets + m.total_down_bets + m.total_stable_bets, 100 + 250 + 75 + 25);
    assert_eq!((m.up_betters_count, m.down_betters_count, m.stable_betters_count), (2, 1, 1));
    let bet = pm.get_user_bet(1, &s("b")).unwrap();
    assert_eq!(bet.amount, 250);
    assert_eq!(bet.prediction, Outcome::Down);
    assert_eq!(bet.timestamp, 1001);
    assert!(pm.get_user_bet(1, &s("zed")).is_none());
}

#[test]
fn second_bet_by_same_user_is_refused() {
    let mut pm = book_with_market(1_000_000, 24, 50, false);
    pm.place_bet(1000, s("a"), 1, 100, UP).unwrap();
    let before = pm.get_market(1).unwrap();
    assert_eq!(pm.place_bet(1001, s("a"), 1, 40, DOWN), Err(Error::UserAlreadyBet));
    assert_eq!(pm.place_bet(1001, s("a"), 1, 100, UP), Err(Error::UserAlreadyBet));
    assert_eq!(pm.get_market(1).unwrap(), before);
}

#[test]
fn bets_follow_the_market_window() {
    let mut pm = book_with_market(1_000_000, 1, 50, false);
    assert_eq!(pm.place_bet(999, s("early"), 1, 10, UP), Err(Error::MarketNotStarted));
    assert_eq!(pm.place_bet(1000, s("start"), 1, 10, UP), Ok(()));
    assert_eq!(pm.place_bet(4600, s("end"), 1, 10, UP), Ok(()));
    assert_eq!(pm.place_bet(4601, s("late"), 1, 10, UP), Err(Error::MarketExpired));
    pm.resolve_market(1, 1_000_000).unwrap();
    assert_eq!(pm.place_bet(2000, s("after"), 1, 10, UP), Err(Error::MarketAlreadyResolved));
}

#[test]
fn place_bet_validation_errors() {
    let mut pm = book_with_market(1_000_000, 24, 50, false);
    assert_eq!(pm.place_bet(1000, s("a"), 1, 0, UP), Err(Error::InvalidAmount));
    assert_eq!(pm.place_bet(1000, s("a"), 1, -5, UP), Err(Error::InvalidAmount));
    assert_eq!(pm.place_bet(1000, s("a"), 1, 5, 3), Err(Error::InvalidPrediction));
    assert_eq!(pm.place_bet(1000, s("a"), 2, 5, UP), Err(Error::MarketNotFound));
    let cap: i128 = 10_000_000_000_000_000_000_000_000_000;
    assert_eq!(pm.place_bet(1000, s("a"), 1, cap, UP), Ok(()));
    assert_eq!(pm.place_bet(1000, s("b"), 1, 1, UP), Err(Error::CalculationError));
}

#[test]
fn odds_start_at_two_and_follow_the_pool() {
    let mut pm = book_with_market(1_000_000, 24, 50, false);
    let odds = pm.calculate_improved_odds(1).unwrap();
    assert_eq!((odds.up_odds, odds.down_odds, odds.stable_odds), (2000, 2000, 2000));
    pm.place_bet(1000, s("a"), 1, 700, UP).unwrap();
    pm.place_bet(1000, s("b"), 1, 300, DOWN).unwrap();
    let odds = pm.calculate_improved_odds(1).unwrap();
    // prize pool 995: 995000 / 700 = 1421, 995000 / 300 = 3316.
    assert_eq!((odds.up_odds, odds.down_odds, odds.stable_odds), (1421, 3316, 2000));
    // Each bettor gets the odds of the pool before their bet: Up was empty for a,
    // Down was empty for b (default 2.0x), and c saw Down at 3316.
    assert_eq!(pm.get_user_bet(1, &s("a")).unwrap().odds_when_placed, 2000);
    assert_eq!(pm.get_user_bet(1, &s("b")).unwrap().odds_when_placed, 2000);
    pm.place_bet(1000, s("c"), 1, 9000, DOWN).unwrap();
    assert_eq!(pm.get_user_bet(1, &s("c")).unwrap().odds_when_placed, 3316);
    let odds = pm.calculate_improved_odds(1).unwrap();
    // volume 10000, prize 9950: Up 9950000 / 700 clamps to 5000, Down 9950000 / 9300 = 1069 clamps to 1100.
    assert_eq!((odds.up_odds, odds.down_odds), (5000, 1100));
    assert_eq!(pm.calculate_improved_odds(9), Err(Error::MarketNotFound));
}

#[test]
fn market_stats_give_shares_and_commission() {
    let mut pm = book_with_market(1_000_000, 24, 50, false);
    pm.place_bet(1000, s("a"), 1, 700, UP).unwrap();
    pm.place_bet(1000, s("b"), 1, 300, DOWN).unwrap();
    let st = pm.get_market_stats(1).unwrap();
    assert_eq!(st.total_volume, 1000);
    assert_eq!(st.total_betters, 2);
    assert_eq!((st.up_percentage, st.down_percentage, st.stable_percentage), (7000, 3000, 0));
    assert_eq!(st.house_commission, 5);
    assert_eq!(st.prize_pool, 995);
    assert_eq!(pm.get_market_stats(2), Err(Error::MarketNotFound));
}

#[test]
fn worked_payout_example() {
    // houseEdge 50 bps, Up 700, Down 300: commission 5, prize pool 995;
    // a 100 Up stake: share 142, fair 141, payout max(141, 100) = 141.
    let mut pm = book_with_market(1_000_000, 24, 50, false);
    pm.place_bet(1000, s("a"), 1, 100, UP).unwrap();
    pm.place_bet(1000, s("b"), 1, 600, UP).unwrap();
    pm.place_bet(1000, s("c"), 1, 300, DOWN).unwrap();
    assert_eq!(pm.resolve_market(1, 1_100_000), Ok(Outcome::Up));
    assert_eq!(pm.calculate_user_winnings(1, &s("a")), 141);
    assert_eq!(pm.pending_claim(&s("a"), 1), Ok(141));
    assert_eq!(pm.claim_winnings(&s("a"), 1, true), Ok(141));
    let bet = pm.get_user_bet(1, &s("a")).unwrap();
    assert!(bet.is_paid_out);
    assert_eq!(bet.winnings, 141);
}

#[test]
fn stake_back_guarantee_applies() {
    // Edge 10000 bps: the whole pool is commission, so winners get their stake back.
    let mut pm = book_with_market(1_000_000, 24, 10_000, false);
    pm.place_bet(1000, s("a"), 1, 100, UP).unwrap();
    pm.place_bet(1000, s("b"), 1, 300, DOWN).unwrap();
    pm.resolve_market(1, 2_000_000).unwrap();
    assert_eq!(pm.calculate_user_winnings(1, &s("a")), 100);
}

#[test]
fn resolve_twice_is_refused() {
    let mut pm = book_with_market(1_000_000, 24, 50, false);
    assert_eq!(pm.resolve_market(1, 1_100_000), Ok(Outcome::Up));
    let first = pm.get_market(1).unwrap();
    assert_eq!(pm.resolve_market(1, 500_000), Err(Error::MarketAlreadyResolved));
    assert_eq!(pm.resolve_market_manual(1, 500_000), Err(Error::MarketAlreadyResolved));
    let second = pm.get_market(1).unwrap();
    assert_eq!(second.final_price, Some(1_100_000));
    assert_eq!(second.winning_side, Some(Outcome::Up));
    assert_eq!(first, second);
}

#[test]
fn resolution_classifies_moves_in_basis_points() {
    // initial 1_000_000, tolerance 500 bps.
    let cases: [(i128, Outcome); 5] = [
        (1_060_000, Outcome::Up),     // +600 bps
        (1_050_000, Outcome::Stable), // +500 bps, on the band
        (960_000, Outcome::Stable),   // -400 bps
        (950_000, Outcome::Stable),   // -500 bps
        (940_000, Outcome::Down),     // -600 bps
    ];
    for (price, want) in cases {
        let mut pm = book_with_market(2_000_000, 24, 50, false);
        assert_eq!(pm.resolve_market(1, price), Ok(want));
    }
    // Against the target price 2_000_000 instead: 2_200_000 is +1000 bps.
    let mut pm = book_with_market(2_000_000, 24, 50, false);
    assert_eq!(pm.resolve_market_manual(1, 2_200_000), Ok(Outcome::Up));
    let mut pm = book_with_market(2_000_000, 24, 50, false);
    assert_eq!(pm.resolve_market_manual(1, 1_000_000), Ok(Outcome::Down));
}

#[test]
fn resolution_against_a_zero_reference_is_refused() {
    let mut pm = PredictionMarket::new();
    pm.create_market(0, s("A"), s("X"), s("Y"), 0, 100, 0, 1, false, 0).unwrap();
    assert_eq!(pm.resolve_market(1, 100), Err(Error::CalculationError));
    assert!(!pm.get_market(1).unwrap().is_resolved);
    assert_eq!(pm.resolve_market(7, 100), Err(Error::MarketNotFound));
}

#[test]
fn claim_twice_never_pays_twice() {
    let mut pm = book_with_market(1_000_000, 24, 50, false);
    pm.place_bet(1000, s("a"), 1, 100, UP).unwrap();
    pm.place_bet(1000, s("c"), 1, 300, DOWN).unwrap();
    pm.resolve_market(1, 1_100_000).unwrap();
    let first = pm.claim_winnings(&s("a"), 1, true).unwrap();
    // volume 400, commission 2, prize 398; share 1000; payout 398.
    assert_eq!(first, 398);
    assert_eq!(pm.claim_winnings(&s("a"), 1, true), Err(Error::UserAlreadyPaidOut));
    assert_eq!(pm.pending_claim(&s("a"), 1), Err(Error::UserAlreadyPaidOut));
}

#[test]
fn winner_and_loser_claim_on_the_same_market() {
    let mut pm = book_with_market(1_000_000, 24, 50, false);
    pm.place_bet(1000, s("win"), 1, 100, UP).unwrap();
    pm.place_bet(1000, s("lose"), 1, 300, DOWN).unwrap();
    pm.resolve_market(1, 1_100_000).unwrap();
    assert_eq!(pm.claim_winnings(&s("lose"), 1, true), Ok(0));
    assert!(!pm.get_user_bet(1, &s("lose")).unwrap().is_paid_out);
    assert_eq!(pm.claim_winnings(&s("lose"), 1, true), Ok(0));
    assert_eq!(pm.calculate_user_winnings(1, &s("lose")), 0);
    assert_eq!(pm.claim_winnings(&s("win"), 1, true), Ok(398));
}

#[test]
fn claim_errors() {
    let mut pm = book_with_market(1_000_000, 24, 50, false);
    pm.place_bet(1000, s("a"), 1, 100, UP).unwrap();
    assert_eq!(pm.claim_winnings(&s("a"), 1, true), Err(Error::MarketNotStarted));
    assert_eq!(pm.claim_winnings(&s("a"), 2, true), Err(Error::MarketNotFound));
    pm.resolve_market(1, 1_100_000).unwrap();
    assert_eq!(pm.claim_winnings(&s("nobody"), 1, true), Err(Error::MarketNotFound));
    assert_eq!(pm.claim_winnings(&s("a"), 1, false), Err(Error::PaymentFailed));
    assert!(!pm.get_user_bet(1, &s("a")).unwrap().is_paid_out);
    assert_eq!(pm.claim_winnings(&s("a"), 1, true), Ok(100));
}

#[test]
fn active_markets_exclude_resolved_and_out_of_window() {
    let mut pm = PredictionMarket::new();
    pm.create_market(1000, s("A"), s("X"), s("Y"), 10, 10, 0, 1, false, 0).unwrap();
    pm.create_market(1000, s("B"), s("X"), s("Y"), 10, 10, 0, 2, false, 0).unwrap();
    pm.create_market(2000, s("C"), s("X"), s("Y"), 10, 10, 0, 1, false, 0).unwrap();
    let ids = |v: Vec<prediction_market::Market>| v.iter().map(|m| m.id).collect::<Vec<u64>>();
    assert_eq!(ids(pm.get_active_markets(999)), Vec::<u64>::new());
    assert_eq!(ids(pm.get_active_markets(1500)), vec![1, 2]);
    // Market 1 ends at 4600: excluded at its end time.
    assert_eq!(ids(pm.get_active_markets(4600)), vec![2, 3]);
    pm.resolve_market(2, 10).unwrap();
    assert_eq!(ids(pm.get_active_markets(4600)), vec![3]);
}

#[test]
fn batch_payout_continues_past_failed_transfers() {
    let mut pm = book_with_market(1_000_000, 24, 50, false);
    pm.place_bet(1000, s("a"), 1, 100, UP).unwrap();
    pm.place_bet(1000, s("loser"), 1, 300, DOWN).unwrap();
    pm.place_bet(1000, s("b"), 1, 600, UP).unwrap();
    pm.resolve_market(1, 1_100_000).unwrap();
    let plan = pm.payout_plan(1).unwrap();
    assert_eq!(plan.len(), 2);
    assert_eq!((plan[0].user.as_str(), plan[0].amount), ("a", 141));
    // b: share 857, fair floor(995 * 857 / 1000) = 852.
    assert_eq!((plan[1].user.as_str(), plan[1].amount), ("b", 852));
    let summary = pm.process_payouts(1, &vec![false, true]).unwrap();
    assert_eq!(summary.total_winners, 1);
    assert_eq!(summary.total_paid_amount, 852);
    assert_eq!(summary.house_commission, 5);
    assert_eq!(summary.remaining_balance, 1000 - 852 - 5);
    let m = pm.get_market(1).unwrap();
    assert_eq!(m.payout_status, PayoutStatus::PaidPartial);
    assert!(m.is_paid_out());
    assert!(pm.get_user_bet(1, &s("b")).unwrap().is_paid_out);
    assert!(!pm.get_user_bet(1, &s("a")).unwrap().is_paid_out);
    assert_eq!(pm.process_payouts(1, &vec![true, true]), Err(Error::MarketAlreadyPaidOut));
    assert_eq!(pm.payout_plan(1), Err(Error::MarketAlreadyPaidOut));
    // The skipped winner recovers through a manual claim.
    assert_eq!(pm.claim_winnings(&s("a"), 1, true), Ok(141));
    assert_eq!(pm.claim_winnings(&s("b"), 1, true), Err(Error::UserAlreadyPaidOut));
}

#[test]
fn batch_payout_complete_and_errors() {
    let mut pm = book_with_market(1_000_000, 24, 50, false);
    pm.place_bet(1000, s("a"), 1, 100, UP).unwrap();
    assert_eq!(pm.payout_plan(1), Err(Error::MarketNotStarted));
    assert_eq!(pm.process_payouts(1, &vec![]), Err(Error::MarketNotStarted));
    assert_eq!(pm.process_payouts(5, &vec![]), Err(Error::MarketNotFound));
    pm.resolve_market(1, 1_100_000).unwrap();
    let summary = pm.process_payouts(1, &vec![true]).unwrap();
    assert_eq!(summary.total_winners, 1);
    assert_eq!(summary.total_paid_amount, 100);
    assert_eq!(pm.get_market(1).unwrap().payout_status, PayoutStatus::PaidComplete);
}

#[test]
fn stake_back_guarantee_can_pay_out_more_than_the_prize_pool() {
    // Many small winners against a skewed pool: each gets the stake back
    // while the truncated shares would give less.
    let mut pm = book_with_market(1_000_000, 24, 1_000, false);
    pm.place_bet(1000, s("w1"), 1, 1, UP).unwrap();
    pm.place_bet(1000, s("w2"), 1, 1, UP).unwrap();
    pm.place_bet(1000, s("w3"), 1, 1, UP).unwrap();
    pm.resolve_market(1, 1_100_000).unwrap();
    let summary = pm.process_payouts(1, &vec![true, true, true]).unwrap();
    // volume 3, commission 0, each share 333, fair floor(3 * 333 / 1000) = 0, payout 1.
    assert_eq!(summary.total_paid_amount, 3);
    assert_eq!(summary.remaining_balance, 0);
}

#[test]
fn payout_and_restart_opens_a_successor() {
    let mut pm = book_with_market(1_000_000, 24, 50, true);
    pm.place_bet(1000, s("a"), 1, 100, UP).unwrap();
    pm.resolve_market(1, 1_100_000).unwrap();
    let (summary, next) = pm.payout_and_restart(1, 90_000, &vec![true]).unwrap();
    assert_eq!(summary.total_paid_amount, 100);
    assert_eq!(next, Some(2));
    let m = pm.get_market(2).unwrap();
    assert_eq!(m.title, "Test Market");
    assert_eq!(m.initial_price, 1_100_000);
    assert_eq!(m.start_time, 90_000);
    assert_eq!(m.end_time, 90_000 + 24 * 3600);
    assert!(m.auto_restart);
    assert_eq!(m.house_edge, 50);
    assert_eq!(pm.payout_and_restart(1, 90_000, &vec![true]), Err(Error::MarketAlreadyPaidOut));

    let mut pm = book_with_market(1_000_000, 24, 50, false);
    pm.resolve_market(1, 1_100_000).unwrap();
    let (_, next) = pm.payout_and_restart(1, 90_000, &vec![]).unwrap();
    assert_eq!(next, None);
    assert_eq!(pm.get_total_markets(), 1);
}

#[test]
fn oracle_price_fallback_and_volatility() {
    let d = |price: i128| PriceData { price, timestamp: 7 };
    assert_eq!(PredictionMarket::get_price(Some(d(1234))), 1234);
    assert_eq!(PredictionMarket::analyze_market_volatility(Some(vec![d(100)])), None);
    // first 100, last 120: spread 20, average 110, 200000 / 110 = 1818 bps.
    assert_eq!(PredictionMarket::analyze_market_volatility(Some(vec![d(100), d(90), d(120)])), Some(1818));
    assert_eq!(PredictionMarket::analyze_market_volatility(Some(vec![d(-100), d(50)])), None);
}

#[test]
fn stored_book_round_trips_and_corruption_is_refused() {
    let mut pm = book_with_market(1_000_000, 24, 50, false);
    pm.place_bet(1000, s("a"), 1, 100, UP).unwrap();
    pm.place_bet(1000, s("b"), 1, 300, DOWN).unwrap();
    pm.resolve_market(1, 1_100_000).unwrap();
    pm.claim_winnings(&s("a"), 1, true).unwrap();
    let (markets, bets) = pm.into_parts();
    assert_eq!(markets.len(), 1);
    assert_eq!(bets[0].len(), 2);

    let back = PredictionMarket::restore(markets.clone(), bets.clone()).unwrap();
    assert_eq!(back.get_market(1).unwrap(), markets[0]);
    assert_eq!(back.get_user_bet(1, &s("a")).unwrap().winnings, 398);

    let mut wrong_total = markets.clone();
    wrong_total[0].total_up_bets = 101;
    assert!(PredictionMarket::restore(wrong_total, bets.clone()).is_none());

    let mut twice = bets.clone();
    twice[0][1].user = s("a");
    assert!(PredictionMarket::restore(markets.clone(), twice).is_none());

    let mut overpaid = bets.clone();
    overpaid[0][0].winnings = 399;
    assert!(PredictionMarket::restore(markets.clone(), overpaid).is_none());

    let mut loser_paid = bets.clone();
    loser_paid[0][1].is_paid_out = true;
    assert!(PredictionMarket::restore(markets.clone(), loser_paid).is_none());

    assert!(PredictionMarket::restore(markets.clone(), vec![]).is_none());
    let mut renumbered = markets.clone();
    renumbered[0].id = 2;
    assert!(PredictionMarket::restore(renumbered, bets.clone()).is_none());
}

#[test]
fn test_twap_market() {
    let mut pm = PredictionMarket::new();
    let result = pm.create_twap_market(0, s("TWAP Test"), s("KALE"), s("XLM"), None, 1_000_000i128, 500, 168u64, false, 50);
    println!("TWAP market creation result: {:?}", result);
    assert_eq!(result, Err(Error::InvalidAmount));
    assert_eq!(pm.get_total_markets(), 0);
}

#[test]
fn twap_market_uses_the_average_as_reference() {
    let mut pm = PredictionMarket::new();
    let id = pm.create_twap_market(0, s("TWAP Test"), s("KALE"), s("XLM"), Some(500), 500, 100, 24, false, 50).unwrap();
    assert_eq!(pm.get_market(id).unwrap().initial_price, 500);
    // The average wins over the latest price: 520 is +400 bps over the target 500.
    let last = Some(PriceData { price: 400, timestamp: 9 });
    assert_eq!(pm.resolve_market_with_twap(id, Some(520), last), Ok(Outcome::Up));
    assert_eq!(pm.get_market(id).unwrap().final_price, Some(520));

    // Without an average the latest price 400 is -2000 bps against 500.
    let id = pm.create_twap_market(0, s("B"), s("KALE"), s("XLM"), Some(500), 500, 100, 24, false, 50).unwrap();
    assert_eq!(pm.resolve_market_with_twap(id, None, last), Ok(Outcome::Down));
    assert_eq!(pm.get_market(id).unwrap().final_price, Some(400));
}

#[test]
fn twap_resolution_measures_against_the_target() {
    // Initial 1000, target 2000, tolerance 100: an average of 1100 is
    // -4500 bps against the target, so Down (it would be Up against 1000).
    let mut pm = PredictionMarket::new();
    let id = pm.create_twap_market(0, s("T"), s("KALE"), s("XLM"), Some(1000), 2000, 100, 24, false, 50).unwrap();
    assert_eq!(pm.resolve_market_with_twap(id, Some(1100), None), Ok(Outcome::Down));
}
