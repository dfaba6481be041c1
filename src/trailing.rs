//! Trailing stop-loss orders: a deposit that follows an asset's price up
//! and is paid out, with its profit or loss, once the price falls back to a
//! stop a fixed percentage below the highest price seen.
//!
//! The host supplies prices, the contract's token balance and the ledger
//! time, and makes the transfers that the book decides.
use vstd::prelude::*;
use crate::types::ContractError;
use crate::payout::{trunc_div, trunc_div_exec};

verus! {

/// Fee kept on every deposit, in basis points.
pub const DEPOSIT_FEE_BPS: i128 = 200;

/// Widest trail accepted, in basis points.
pub const MAX_TRAIL_BPS: u32 = 5_000;

/// Largest gain and loss paid out, in basis points of the deposit.
pub const MAX_GAIN_BPS: i128 = 20_000;

pub const MAX_LOSS_BPS: i128 = 5_000;

/// Highest commission on the profit of an emergency sale, in basis points.
pub const MAX_EMERGENCY_RATE_BPS: u32 = 1_000;

#[derive(Clone, Copy, Debug, PartialEq, Eq, Structural)]
pub enum OrderStatus {
    Active,
    Executed,
    Cancelled,
    Paused,
}

#[derive(Clone, Debug, PartialEq, Eq)]
pub struct TrailingOrder {
    pub id: u64,
    pub user: String,
    /// Asset whose price the order follows.
    pub asset: String,
    /// Token deposited and paid out.
    pub token: String,
    /// Deposit net of the fee.
    pub amount: i128,
    /// Distance of the stop below the highest price, in basis points.
    pub trail_percentage: u32,
    pub initial_price: i128,
    pub highest_price: i128,
    pub current_stop_price: i128,
    pub status: OrderStatus,
    pub created_at: u64,
    pub updated_at: u64,
    pub executed_at: Option<u64>,
    pub execution_price: Option<i128>,
}

impl TrailingOrder {
    /// A field-for-field copy.
    pub fn duplicate(&self) -> (r: TrailingOrder)
        ensures
            r == *self,
    {
        TrailingOrder {
            id: self.id,
            user: self.user.clone(),
            asset: self.asset.clone(),
            token: self.token.clone(),
            amount: self.amount,
            trail_percentage: self.trail_percentage,
            initial_price: self.initial_price,
            highest_price: self.highest_price,
            current_stop_price: self.current_stop_price,
            status: self.status,
            created_at: self.created_at,
            updated_at: self.updated_at,
            executed_at: self.executed_at,
            execution_price: self.execution_price,
        }
    }
}

/// Stop `trail` basis points below `price`, the cut truncated toward zero.
pub open spec fn stop_for(price: int, trail: int) -> int {
    price - trunc_div(price * trail, 10_000)
}

/// Move from `initial` to `exec` in basis points, truncated, clamped to
/// `[-MAX_LOSS_BPS, MAX_GAIN_BPS]`; no move when `initial` is not positive.
pub open spec fn clamped_change(initial: int, exec: int) -> int {
    let change = if initial > 0 {
        trunc_div((exec - initial) * 10_000, initial)
    } else {
        0
    };
    if change > MAX_GAIN_BPS {
        MAX_GAIN_BPS as int
    } else if change < -MAX_LOSS_BPS {
        -MAX_LOSS_BPS as int
    } else {
        change
    }
}

/// What is paid for a position worth `worth`: at most the contract's
/// `balance`; a twentieth of the deposit when nothing is left; never less
/// than 1.
pub open spec fn settle_amount(worth: int, amount: int, balance: int) -> int {
    let paid = if worth > 0 {
        if worth <= balance {
            worth
        } else {
            balance
        }
    } else {
        amount / 20
    };
    if paid > 0 {
        paid
    } else {
        1
    }
}

/// Payout of an order of `amount`, opened at `initial`, executed at `exec`.
pub open spec fn exit_amount(amount: int, initial: int, exec: int, balance: int) -> int {
    settle_amount(
        amount + trunc_div(amount * clamped_change(initial, exec), 10_000),
        amount,
        balance,
    )
}

/// Payout of an emergency sale: as `exit_amount`, less `rate` basis points
/// of the profit when there is one.
pub open spec fn emergency_exit_amount(
    amount: int,
    initial: int,
    exec: int,
    balance: int,
    rate: int,
) -> int {
    let change = clamped_change(initial, exec);
    let worth = if change > 0 && rate > 0 {
        let profit = trunc_div(amount * change, 10_000);
        amount + profit - trunc_div(profit * rate, 10_000)
    } else {
        amount + trunc_div(amount * change, 10_000)
    };
    settle_amount(worth, amount, balance)
}

/// Inputs whose payout the arithmetic can compute in `i128`.
pub open spec fn exit_computable(amount: int, initial: int, exec: int) -> bool {
    &&& 0 < amount <= i128::MAX / 40_000
    &&& initial > 0 ==> i128::MIN <= (exec - initial) * 10_000 <= i128::MAX
}

/// Prices whose stop the arithmetic can compute in `i128`.
pub open spec fn stop_computable(price: int, trail: int) -> bool {
    i128::MIN <= price * trail <= i128::MAX
}

fn stop_exec(price: i128, trail: u32) -> (r: Option<i128>)
    requires
        trail <= MAX_TRAIL_BPS,
    ensures
        stop_computable(price as int, trail as int) ==> r == Some(
            stop_for(price as int, trail as int) as i128,
        ),
        !stop_computable(price as int, trail as int) ==> r.is_none(),
        r.is_some() ==> i128::MIN <= stop_for(price as int, trail as int) <= i128::MAX,
{
    let cut = match price.checked_mul(trail as i128) {
        Some(v) => v,
        None => {
            return None;
        },
    };
    let q = trunc_div_exec(cut, 10_000);
    proof {
        let c = cut as int;
        if c >= 0 {
            assert(c / 10_000 <= c / 2) by (nonlinear_arith)
                requires
                    c >= 0,
            ;
        } else {
            assert((-c) / 10_000 <= (-c) / 2) by (nonlinear_arith)
                requires
                    c < 0,
            ;
        }
        if price >= 0 {
            assert(cut <= price * 5000) by (nonlinear_arith)
                requires
                    price >= 0,
                    cut == price * trail,
                    0 <= trail <= 5000,
            ;
            assert(cut >= 0) by (nonlinear_arith)
                requires
                    price >= 0,
                    cut == price * trail,
                    0 <= trail,
            ;
        } else {
            assert(cut >= price * 5000) by (nonlinear_arith)
                requires
                    price < 0,
                    cut == price * trail,
                    0 <= trail <= 5000,
            ;
            assert(cut <= 0) by (nonlinear_arith)
                requires
                    price < 0,
                    cut == price * trail,
                    0 <= trail,
            ;
        }
    }
    Some(price - q)
}

fn clamped_change_exec(initial: i128, exec: i128) -> (r: i128)
    requires
        initial > 0 ==> i128::MIN <= (exec - initial) * 10_000 <= i128::MAX,
    ensures
        r == clamped_change(initial as int, exec as int),
        -MAX_LOSS_BPS <= r <= MAX_GAIN_BPS,
{
    let change = if initial > 0 {
        proof {
            assert(i128::MIN <= exec - initial <= i128::MAX) by (nonlinear_arith)
                requires
                    i128::MIN <= (exec - initial) * 10_000 <= i128::MAX,
            ;
            assert((exec - initial) * 10_000 != i128::MIN);
        }
        trunc_div_exec((exec - initial) * 10_000, initial)
    } else {
        0
    };
    if change > MAX_GAIN_BPS {
        MAX_GAIN_BPS
    } else if change < -MAX_LOSS_BPS {
        -MAX_LOSS_BPS
    } else {
        change
    }
}

fn settle_exec(worth: i128, amount: i128, balance: i128) -> (r: i128)
    requires
        amount > 0,
    ensures
        r == settle_amount(worth as int, amount as int, balance as int),
{
    let paid = if worth > 0 {
        if worth <= balance {
            worth
        } else {
            balance
        }
    } else {
        amount / 20
    };
    if paid > 0 {
        paid
    } else {
        1
    }
}

/// Scaled part `amount * bps / 10000`, truncated, of a bounded amount.
fn part_exec(amount: i128, bps: i128) -> (r: i128)
    requires
        0 < amount <= i128::MAX / 40_000,
        -MAX_LOSS_BPS <= bps <= MAX_GAIN_BPS,
    ensures
        r == trunc_div(amount as int * bps as int, 10_000),
        -amount <= r <= 2 * amount,
{
    proof {
        assert(-amount * 5000 <= amount * bps <= amount * 20_000) by (nonlinear_arith)
            requires
                amount > 0,
                -5000 <= bps <= 20_000,
        ;
        let x = amount * bps;
        if x >= 0 {
            assert(x / 10_000 <= amount * 2) by (nonlinear_arith)
                requires
                    0 <= x <= amount * 20_000,
            ;
        } else {
            assert((-x) / 10_000 <= amount) by (nonlinear_arith)
                requires
                    0 < -x <= amount * 5000,
            ;
        }
    }
    trunc_div_exec(amount * bps, 10_000)
}

/// Payout of a plain execution.
pub fn exit_amount_exec(amount: i128, initial: i128, exec: i128, balance: i128) -> (r: i128)
    requires
        exit_computable(amount as int, initial as int, exec as int),
    ensures
        r == exit_amount(amount as int, initial as int, exec as int, balance as int),
{
    let change = clamped_change_exec(initial, exec);
    let part = part_exec(amount, change);
    settle_exec(amount + part, amount, balance)
}

/// Payout of an emergency sale at commission `rate`.
pub fn emergency_exit_amount_exec(
    amount: i128,
    initial: i128,
    exec: i128,
    balance: i128,
    rate: u32,
) -> (r: i128)
    requires
        exit_computable(amount as int, initial as int, exec as int),
        rate <= MAX_EMERGENCY_RATE_BPS,
    ensures
        r == emergency_exit_amount(
            amount as int,
            initial as int,
            exec as int,
            balance as int,
            rate as int,
        ),
{
    let change = clamped_change_exec(initial, exec);
    let profit = part_exec(amount, change);
    let worth = if change > 0 && rate > 0 {
        proof {
            assert(0 <= profit * rate <= 2 * amount * 1000) by (nonlinear_arith)
                requires
                    0 <= profit <= 2 * amount,
                    0 <= rate <= 1000,
            ;
            lemma_div_nonneg_le(profit * rate, 10_000);
        }
        let commission = trunc_div_exec(profit * (rate as i128), 10_000);
        amount + profit - commission
    } else {
        amount + profit
    };
    settle_exec(worth, amount, balance)
}

proof fn lemma_div_nonneg_le(x: int, d: int)
    requires
        0 <= x,
        0 < d,
    ensures
        0 <= x / d <= x,
        trunc_div(x, d) == x / d,
{
    crate::payout::lemma_div_le(x, d);
}

/// A stored order that the book can act on.
pub open spec fn order_consistent(o: TrailingOrder, id: int) -> bool {
    &&& o.id == id
    &&& o.amount > 0
    &&& 0 < o.trail_percentage <= MAX_TRAIL_BPS
}

/// Deposit kept once the fee is taken.
pub open spec fn net_deposit(amount: int) -> int {
    amount - amount * DEPOSIT_FEE_BPS / 10_000
}

/// A new order as `create_order` records it.
pub open spec fn opened_order(
    id: u64,
    user: String,
    asset: String,
    token: String,
    amount: i128,
    trail: u32,
    price: i128,
    now: u64,
) -> TrailingOrder {
    TrailingOrder {
        id,
        user,
        asset,
        token,
        amount: net_deposit(amount as int) as i128,
        trail_percentage: trail,
        initial_price: price,
        highest_price: price,
        current_stop_price: stop_for(price as int, trail as int) as i128,
        status: OrderStatus::Active,
        created_at: now,
        updated_at: now,
        executed_at: None,
        execution_price: None,
    }
}

/// The order once `price` has been seen at `now`: a new high lifts the
/// highest price, and the stop with it when the stop rises.
pub open spec fn tracked_order(o: TrailingOrder, price: i128, now: u64) -> TrailingOrder {
    if price > o.highest_price {
        let stop = stop_for(price as int, o.trail_percentage as int);
        if stop > o.current_stop_price {
            TrailingOrder {
                highest_price: price,
                current_stop_price: stop as i128,
                updated_at: now,
                ..o
            }
        } else {
            TrailingOrder { highest_price: price, ..o }
        }
    } else {
        o
    }
}

/// The order once executed at `price` at `now`.
pub open spec fn executed_order(o: TrailingOrder, price: i128, now: u64) -> TrailingOrder {
    TrailingOrder {
        status: OrderStatus::Executed,
        executed_at: Some(now),
        execution_price: Some(price),
        updated_at: now,
        ..o
    }
}

/// Ids of the active orders, in id order.
pub open spec fn active_order_ids(orders: Seq<TrailingOrder>) -> Seq<u64>
    decreases orders.len(),
{
    if orders.len() == 0 {
        Seq::empty()
    } else if orders.last().status == OrderStatus::Active {
        active_order_ids(orders.drop_last()).push(orders.last().id)
    } else {
        active_order_ids(orders.drop_last())
    }
}

/// The orders of `user`, all statuses, in id order; with `only_active`,
/// only those still active.
pub open spec fn orders_of(orders: Seq<TrailingOrder>, user: Seq<char>, only_active: bool) -> Seq<
    TrailingOrder,
>
    decreases orders.len(),
{
    if orders.len() == 0 {
        Seq::empty()
    } else if orders.last().user@ == user && (!only_active || orders.last().status
        == OrderStatus::Active) {
        orders_of(orders.drop_last(), user, only_active).push(orders.last())
    } else {
        orders_of(orders.drop_last(), user, only_active)
    }
}

/// Most that the active orders could claim: three times each deposit, for
/// the deposit and the largest gain.
pub open spec fn potential_payout(orders: Seq<TrailingOrder>) -> int
    decreases orders.len(),
{
    if orders.len() == 0 {
        0
    } else {
        potential_payout(orders.drop_last()) + if orders.last().status == OrderStatus::Active {
            3 * orders.last().amount
        } else {
            0
        }
    }
}

/// Shortfall of `balance` against the most the active orders could claim.
pub open spec fn liquidity_needed(orders: Seq<TrailingOrder>, balance: int) -> int {
    if potential_payout(orders) > balance {
        potential_payout(orders) - balance
    } else {
        0
    }
}

/// Figures that fit in an `i128`.
pub open spec fn liquidity_computable(orders: Seq<TrailingOrder>, balance: int) -> bool {
    potential_payout(orders) <= i128::MAX && liquidity_needed(orders, balance) <= i128::MAX
}

/// Part of `balance` beyond what the active orders could claim.
pub open spec fn withdrawable(orders: Seq<TrailingOrder>, balance: int) -> int {
    let needed = liquidity_needed(orders, balance);
    if balance > needed {
        balance - needed
    } else {
        0
    }
}

proof fn lemma_potential_prefix(orders: Seq<TrailingOrder>, j: int)
    requires
        0 <= j <= orders.len(),
        forall|x: int| 0 <= x < orders.len() ==> (#[trigger] orders[x]).amount > 0,
    ensures
        0 <= potential_payout(orders.take(j)) <= potential_payout(orders),
    decreases orders.len(),
{
    if j < orders.len() {
        let rest = orders.drop_last();
        assert forall|x: int| 0 <= x < rest.len() implies (#[trigger] rest[x]).amount > 0 by {
            assert(rest[x] == orders[x]);
        }
        lemma_potential_prefix(rest, j);
        assert(rest.take(j) =~= orders.take(j));
        assert(orders.last() == orders[orders.len() - 1]);
    } else {
        assert(orders.take(j) =~= orders);
        if orders.len() > 0 {
            let rest = orders.drop_last();
            assert forall|x: int| 0 <= x < rest.len() implies (#[trigger] rest[x]).amount > 0 by {
                assert(rest[x] == orders[x]);
            }
            lemma_potential_prefix(rest, rest.len() as int);
            assert(rest.take(rest.len() as int) =~= rest);
            assert(orders.last() == orders[orders.len() - 1]);
        }
    }
}

proof fn lemma_take_step<T>(s: Seq<T>, j: int)
    requires
        0 <= j < s.len(),
    ensures
        s.take(j + 1).drop_last() == s.take(j),
        s.take(j + 1).last() == s[j],
{
    assert(s.take(j + 1).drop_last() =~= s.take(j));
}

/// The book of trailing stop-loss orders; order `id` sits at index `id - 1`.
pub struct TrailingStopContract {
    orders: Vec<TrailingOrder>,
    emergency_commission_rate: u32,
}

impl TrailingStopContract {
    pub closed spec fn orders(&self) -> Seq<TrailingOrder> {
        self.orders@
    }

    /// Commission on the profit of an emergency sale, in basis points.
    pub closed spec fn commission_rate(&self) -> u32 {
        self.emergency_commission_rate
    }

    pub open spec fn has_order(&self, id: u64) -> bool {
        1 <= id <= self.orders().len()
    }

    pub open spec fn order(&self, id: u64) -> TrailingOrder {
        self.orders()[id - 1]
    }

    pub open spec fn wf(&self) -> bool {
        &&& self.orders().len() < u64::MAX
        &&& self.commission_rate() <= MAX_EMERGENCY_RATE_BPS
        &&& forall|i: int|
            0 <= i < self.orders().len() ==> order_consistent(#[trigger] self.orders()[i], i + 1)
    }

    /// An empty book with no emergency commission.
    pub fn new() -> (r: TrailingStopContract)
        ensures
            r.wf(),
            r.orders().len() == 0,
            r.commission_rate() == 0,
    {
        TrailingStopContract { orders: Vec::new(), emergency_commission_rate: 0 }
    }

    fn slot(&self, order_id: u64) -> (r: Option<usize>)
        requires
            self.wf(),
        ensures
            self.has_order(order_id) <==> r.is_some(),
            r.is_some() ==> r.unwrap() == order_id - 1 && r.unwrap() < self.orders@.len(),
    {
        if order_id == 0 || order_id > self.orders.len() as u64 {
            None
        } else {
            Some((order_id - 1) as usize)
        }
    }

    /// Number of orders created so far.
    pub fn get_total_orders(&self) -> (r: u64)
        requires
            self.wf(),
        ensures
            r == self.orders().len(),
    {
        self.orders.len() as u64
    }

    pub fn get_order_by_id(&self, order_id: u64) -> (r: Option<TrailingOrder>)
        requires
            self.wf(),
        ensures
            self.has_order(order_id) ==> r == Some(self.order(order_id)),
            !self.has_order(order_id) ==> r.is_none(),
    {
        match self.slot(order_id) {
            Some(i) => Some(self.orders[i].duplicate()),
            None => None,
        }
    }

    /// Why `create_order` refuses, if it does.
    pub open spec fn create_order_error(&self, amount: i128, trail: u32, price: Option<i128>) -> Option<
        ContractError,
    > {
        if amount <= 0 {
            Some(ContractError::InvalidAmount)
        } else if trail == 0 || trail > MAX_TRAIL_BPS {
            Some(ContractError::InvalidTrailPercentage)
        } else if price.is_none() {
            Some(ContractError::PriceNotAvailable)
        } else if amount * DEPOSIT_FEE_BPS > i128::MAX || !stop_computable(
            price.unwrap() as int,
            trail as int,
        ) || self.orders().len() + 1 >= u64::MAX {
            Some(ContractError::InternalError)
        } else {
            None
        }
    }

    /// Opens an order of `user` on `asset` with a deposit of `amount` of
    /// `token`, trailing `trail_percentage` basis points below the highest
    /// price; `price` is the oracle's current price of `asset`. The fee is
    /// kept from the deposit; the host pulls the whole deposit.
    pub fn create_order(
        &mut self,
        now: u64,
        user: String,
        asset: String,
        token: String,
        amount: i128,
        trail_percentage: u32,
        price: Option<i128>,
    ) -> (r: Result<u64, ContractError>)
        requires
            old(self).wf(),
        ensures
            final(self).wf(),
            final(self).commission_rate() == old(self).commission_rate(),
            match old(self).create_order_error(amount, trail_percentage, price) {
                Some(e) => r == Err::<u64, ContractError>(e) && *final(self) == *old(self),
                None => {
                    let id = (old(self).orders().len() + 1) as u64;
                    &&& r == Ok::<u64, ContractError>(id)
                    &&& final(self).orders() == old(self).orders().push(
                        opened_order(
                            id,
                            user,
                            asset,
                            token,
                            amount,
                            trail_percentage,
                            price.unwrap(),
                            now,
                        ),
                    )
                },
            },
    {
        if amount <= 0 {
            return Err(ContractError::InvalidAmount);
        }
        if trail_percentage == 0 || trail_percentage > MAX_TRAIL_BPS {
            return Err(ContractError::InvalidTrailPercentage);
        }
        let p = match price {
            Some(p) => p,
            None => {
                return Err(ContractError::PriceNotAvailable);
            },
        };
        if amount > i128::MAX / DEPOSIT_FEE_BPS || self.orders.len() as u64 >= u64::MAX - 1 {
            return Err(ContractError::InternalError);
        }
        let stop = match stop_exec(p, trail_percentage) {
            Some(s) => s,
            None => {
                return Err(ContractError::InternalError);
            },
        };
        proof {
            assert(amount * 200 / 10_000 < amount) by (nonlinear_arith)
                requires
                    amount > 0,
            ;
            assert(0 <= amount * 200 / 10_000) by (nonlinear_arith)
                requires
                    amount > 0,
            ;
        }
        let net = amount - amount * DEPOSIT_FEE_BPS / 10_000;
        let id = self.orders.len() as u64 + 1;
        self.orders.push(
            TrailingOrder {
                id,
                user,
                asset,
                token,
                amount: net,
                trail_percentage,
                initial_price: p,
                highest_price: p,
                current_stop_price: stop,
                status: OrderStatus::Active,
                created_at: now,
                updated_at: now,
                executed_at: None,
                execution_price: None,
            },
        );
        proof {
            assert forall|i: int| 0 <= i < self.orders().len() implies order_consistent(
                #[trigger] self.orders()[i],
                i + 1,
            ) by {
                if i < old(self).orders().len() {
                    assert(self.orders()[i] == old(self).orders()[i]);
                }
            }
        }
        Ok(id)
    }

    /// The effect of seeing `price` for order `order_id` at `now`, with
    /// result `r`: the transfer to make when the order executes.
    pub open spec fn check_post(
        old: TrailingStopContract,
        new: TrailingStopContract,
        now: u64,
        order_id: u64,
        price: Option<i128>,
        balance: i128,
        r: Result<Option<i128>, ContractError>,
    ) -> bool {
        let o = old.order(order_id);
        if !old.has_order(order_id) {
            r == Err::<Option<i128>, ContractError>(ContractError::OrderNotFound) && new == old
        } else if o.status != OrderStatus::Active {
            r == Err::<Option<i128>, ContractError>(ContractError::OrderNotActive) && new == old
        } else if price.is_none() {
            r == Ok::<Option<i128>, ContractError>(None) && new == old
        } else {
            let p = price.unwrap();
            let t = tracked_order(o, p, now);
            if p > o.highest_price && !stop_computable(p as int, o.trail_percentage as int) {
                r == Err::<Option<i128>, ContractError>(ContractError::InternalError) && new == old
            } else if p <= t.current_stop_price {
                if !exit_computable(o.amount as int, o.initial_price as int, p as int) {
                    r == Err::<Option<i128>, ContractError>(ContractError::InternalError) && new
                        == old
                } else {
                    &&& r == Ok::<Option<i128>, ContractError>(
                        Some(
                            exit_amount(
                                o.amount as int,
                                o.initial_price as int,
                                p as int,
                                balance as int,
                            ) as i128,
                        ),
                    )
                    &&& new.orders() == old.orders().update(
                        order_id - 1,
                        executed_order(t, p, now),
                    )
                    &&& new.commission_rate() == old.commission_rate()
                }
            } else {
                &&& r == Ok::<Option<i128>, ContractError>(None)
                &&& new.orders() == old.orders().update(order_id - 1, t)
                &&& new.commission_rate() == old.commission_rate()
            }
        }
    }

    /// Feeds the oracle's current `price` to active order `order_id` at
    /// `now`: a new high lifts the stop, and a price at or below the stop
    /// executes the order. `balance` is the contract's balance of the
    /// order's token; on execution the result is the amount to transfer to
    /// the user.
    pub fn check_order(
        &mut self,
        now: u64,
        order_id: u64,
        price: Option<i128>,
        balance: i128,
    ) -> (r: Result<Option<i128>, ContractError>)
        requires
            old(self).wf(),
        ensures
            final(self).wf(),
            Self::check_post(*old(self), *final(self), now, order_id, price, balance, r),
    {
        let i = match self.slot(order_id) {
            Some(i) => i,
            None => {
                return Err(ContractError::OrderNotFound);
            },
        };
        proof {
            assert(order_consistent(self.orders()[i as int], i + 1));
        }
        if self.orders[i].status != OrderStatus::Active {
            return Err(ContractError::OrderNotActive);
        }
        let p = match price {
            Some(p) => p,
            None => {
                return Ok(None);
            },
        };
        let mut o = self.orders[i].duplicate();
        let ghost o0 = o;
        if p > o.highest_price {
            let stop = match stop_exec(p, o.trail_percentage) {
                Some(s) => s,
                None => {
                    return Err(ContractError::InternalError);
                },
            };
            o.highest_price = p;
            if stop > o.current_stop_price {
                o.current_stop_price = stop;
                o.updated_at = now;
            }
        }
        assert(o == tracked_order(o0, p, now));
        let mut transfer: Option<i128> = None;
        if p <= o.current_stop_price {
            if o.amount > i128::MAX / 40_000 || (o.initial_price > 0 && p.checked_sub(
                o.initial_price,
            ).is_none()) {
                return Err(ContractError::InternalError);
            }
            if o.initial_price > 0 && (p - o.initial_price).checked_mul(10_000).is_none() {
                return Err(ContractError::InternalError);
            }
            transfer = Some(exit_amount_exec(o.amount, o.initial_price, p, balance));
            o.status = OrderStatus::Executed;
            o.executed_at = Some(now);
            o.execution_price = Some(p);
            o.updated_at = now;
        }
        self.orders.set(i, o);
        proof {
            assert forall|x: int| 0 <= x < self.orders().len() implies order_consistent(
                #[trigger] self.orders()[x],
                x + 1,
            ) by {
                if x != i {
                    assert(self.orders()[x] == old(self).orders()[x]);
                }
            }
        }
        Ok(transfer)
    }

    /// The effect of an emergency sale of order `order_id` by `user` at
    /// the oracle's `price`, with result `r`: the amount to transfer.
    pub open spec fn emergency_post(
        old: TrailingStopContract,
        new: TrailingStopContract,
        now: u64,
        user: Seq<char>,
        order_id: u64,
        price: Option<i128>,
        balance: i128,
        r: Result<i128, ContractError>,
    ) -> bool {
        let o = old.order(order_id);
        if !old.has_order(order_id) {
            r == Err::<i128, ContractError>(ContractError::OrderNotFound) && new == old
        } else if o.user@ != user {
            r == Err::<i128, ContractError>(ContractError::Unauthorized) && new == old
        } else if o.status != OrderStatus::Active {
            r == Err::<i128, ContractError>(ContractError::OrderNotActive) && new == old
        } else if price.is_none() {
            r == Err::<i128, ContractError>(ContractError::PriceNotAvailable) && new == old
        } else if !exit_computable(o.amount as int, o.initial_price as int, price.unwrap() as int) {
            r == Err::<i128, ContractError>(ContractError::InternalError) && new == old
        } else {
            &&& r == Ok::<i128, ContractError>(
                emergency_exit_amount(
                    o.amount as int,
                    o.initial_price as int,
                    price.unwrap() as int,
                    balance as int,
                    old.commission_rate() as int,
                ) as i128,
            )
            &&& new.orders() == old.orders().update(
                order_id - 1,
                executed_order(o, price.unwrap(), now),
            )
            &&& new.commission_rate() == old.commission_rate()
        }
    }

    /// Executes `user`'s active order `order_id` at once at the oracle's
    /// `price`, less the emergency commission on any profit. `balance` is
    /// the contract's balance of the order's token; the result is the
    /// amount to transfer to the user.
    pub fn emergency_sell_order(
        &mut self,
        now: u64,
        user: &String,
        order_id: u64,
        price: Option<i128>,
        balance: i128,
    ) -> (r: Result<i128, ContractError>)
        requires
            old(self).wf(),
        ensures
            final(self).wf(),
            Self::emergency_post(*old(self), *final(self), now, user@, order_id, price, balance, r),
    {
        let i = match self.slot(order_id) {
            Some(i) => i,
            None => {
                return Err(ContractError::OrderNotFound);
            },
        };
        proof {
            assert(order_consistent(self.orders()[i as int], i + 1));
        }
        if self.orders[i].user != *user {
            return Err(ContractError::Unauthorized);
        }
        if self.orders[i].status != OrderStatus::Active {
            return Err(ContractError::OrderNotActive);
        }
        let p = match price {
            Some(p) => p,
            None => {
                return Err(ContractError::PriceNotAvailable);
            },
        };
        let mut o = self.orders[i].duplicate();
        if o.amount > i128::MAX / 40_000 || (o.initial_price > 0 && p.checked_sub(
            o.initial_price,
        ).is_none()) {
            return Err(ContractError::InternalError);
        }
        if o.initial_price > 0 && (p - o.initial_price).checked_mul(10_000).is_none() {
            return Err(ContractError::InternalError);
        }
        let amount = emergency_exit_amount_exec(
            o.amount,
            o.initial_price,
            p,
            balance,
            self.emergency_commission_rate,
        );
        o.status = OrderStatus::Executed;
        o.executed_at = Some(now);
        o.execution_price = Some(p);
        o.updated_at = now;
        self.orders.set(i, o);
        proof {
            assert forall|x: int| 0 <= x < self.orders().len() implies order_consistent(
                #[trigger] self.orders()[x],
                x + 1,
            ) by {
                if x != i {
                    assert(self.orders()[x] == old(self).orders()[x]);
                }
            }
        }
        Ok(amount)
    }

    /// The effect of `user` cancelling order `order_id` at `now`, with
    /// result `r`: the deposit to return.
    pub open spec fn cancel_post(
        old: TrailingStopContract,
        new: TrailingStopContract,
        now: u64,
        user: Seq<char>,
        order_id: u64,
        r: Result<i128, ContractError>,
    ) -> bool {
        let o = old.order(order_id);
        if !old.has_order(order_id) {
            r == Err::<i128, ContractError>(ContractError::OrderNotFound) && new == old
        } else if o.user@ != user {
            r == Err::<i128, ContractError>(ContractError::Unauthorized) && new == old
        } else if o.status != OrderStatus::Active {
            r == Err::<i128, ContractError>(ContractError::OrderNotActive) && new == old
        } else {
            &&& r == Ok::<i128, ContractError>(o.amount)
            &&& new.orders() == old.orders().update(
                order_id - 1,
                TrailingOrder { status: OrderStatus::Cancelled, updated_at: now, ..o },
            )
            &&& new.commission_rate() == old.commission_rate()
        }
    }

    /// Cancels `user`'s active order `order_id`; the result is the net
    /// deposit that the host returns to the user.
    pub fn cancel_order(&mut self, now: u64, user: &String, order_id: u64) -> (r: Result<
        i128,
        ContractError,
    >)
        requires
            old(self).wf(),
        ensures
            final(self).wf(),
            Self::cancel_post(*old(self), *final(self), now, user@, order_id, r),
    {
        let i = match self.slot(order_id) {
            Some(i) => i,
            None => {
                return Err(ContractError::OrderNotFound);
            },
        };
        proof {
            assert(order_consistent(self.orders()[i as int], i + 1));
        }
        if self.orders[i].user != *user {
            return Err(ContractError::Unauthorized);
        }
        if self.orders[i].status != OrderStatus::Active {
            return Err(ContractError::OrderNotActive);
        }
        let mut o = self.orders[i].duplicate();
        o.status = OrderStatus::Cancelled;
        o.updated_at = now;
        let refund = o.amount;
        self.orders.set(i, o);
        proof {
            assert forall|x: int| 0 <= x < self.orders().len() implies order_consistent(
                #[trigger] self.orders()[x],
                x + 1,
            ) by {
                if x != i {
                    assert(self.orders()[x] == old(self).orders()[x]);
                }
            }
        }
        Ok(refund)
    }

    /// Sets the emergency commission; at most `MAX_EMERGENCY_RATE_BPS`.
    pub fn set_emergency_commission_rate(&mut self, rate: u32) -> (r: Result<(), ContractError>)
        requires
            old(self).wf(),
        ensures
            final(self).wf(),
            final(self).orders() == old(self).orders(),
            rate > MAX_EMERGENCY_RATE_BPS ==> r == Err::<(), ContractError>(
                ContractError::InvalidTrailPercentage,
            ) && final(self).commission_rate() == old(self).commission_rate(),
            rate <= MAX_EMERGENCY_RATE_BPS ==> r == Ok::<(), ContractError>(())
                && final(self).commission_rate() == rate,
    {
        if rate > MAX_EMERGENCY_RATE_BPS {
            return Err(ContractError::InvalidTrailPercentage);
        }
        self.emergency_commission_rate = rate;
        Ok(())
    }

    pub fn get_emergency_commission_rate(&self) -> (r: u32)
        ensures
            r == self.commission_rate(),
    {
        self.emergency_commission_rate
    }

    /// Ids of the active orders, in id order.
    pub fn get_all_active_orders(&self) -> (r: Vec<u64>)
        ensures
            r@ == active_order_ids(self.orders()),
    {
        let mut r: Vec<u64> = Vec::new();
        let mut i: usize = 0;
        while i < self.orders.len()
            invariant
                i <= self.orders@.len(),
                r@ == active_order_ids(self.orders@.take(i as int)),
            decreases self.orders@.len() - i,
        {
            proof {
                lemma_take_step(self.orders@, i as int);
            }
            if self.orders[i].status == OrderStatus::Active {
                r.push(self.orders[i].id);
            }
            i = i + 1;
        }
        proof {
            assert(self.orders@.take(self.orders@.len() as int) =~= self.orders@);
        }
        r
    }

    fn collect_user_orders(&self, user: &String, only_active: bool) -> (r: Vec<TrailingOrder>)
        ensures
            r@ == orders_of(self.orders(), user@, only_active),
    {
        let mut r: Vec<TrailingOrder> = Vec::new();
        let mut i: usize = 0;
        while i < self.orders.len()
            invariant
                i <= self.orders@.len(),
                r@ == orders_of(self.orders@.take(i as int), user@, only_active),
            decreases self.orders@.len() - i,
        {
            proof {
                lemma_take_step(self.orders@, i as int);
            }
            let o = &self.orders[i];
            if o.user == *user && (!only_active || o.status == OrderStatus::Active) {
                r.push(o.duplicate());
            }
            i = i + 1;
        }
        proof {
            assert(self.orders@.take(self.orders@.len() as int) =~= self.orders@);
        }
        r
    }

    /// The orders of `user`, all statuses, in id order.
    pub fn get_user_orders(&self, user: &String) -> (r: Vec<TrailingOrder>)
        ensures
            r@ == orders_of(self.orders(), user@, false),
    {
        self.collect_user_orders(user, false)
    }

    /// The active orders of `user`, in id order.
    pub fn get_user_active_orders(&self, user: &String) -> (r: Vec<TrailingOrder>)
        ensures
            r@ == orders_of(self.orders(), user@, true),
    {
        self.collect_user_orders(user, true)
    }

    /// How much the contract's `balance` falls short of what the active
    /// orders could claim at most; none when that most does not fit in an
    /// `i128`.
    pub fn check_liquidity_needs(&self, balance: i128) -> (r: Option<i128>)
        requires
            self.wf(),
        ensures
            liquidity_computable(self.orders(), balance as int) ==> r == Some(
                liquidity_needed(self.orders(), balance as int) as i128,
            ),
            !liquidity_computable(self.orders(), balance as int) ==> r.is_none(),
    {
        let ghost os = self.orders@;
        proof {
            assert forall|x: int| 0 <= x < os.len() implies (#[trigger] os[x]).amount > 0 by {
                assert(order_consistent(self.orders()[x], x + 1));
            }
        }
        let mut total: i128 = 0;
        let mut i: usize = 0;
        while i < self.orders.len()
            invariant
                os == self.orders@,
                forall|x: int| 0 <= x < os.len() ==> (#[trigger] os[x]).amount > 0,
                i <= os.len(),
                total == potential_payout(os.take(i as int)),
                0 <= total,
            decreases os.len() - i,
        {
            proof {
                lemma_take_step(os, i as int);
                lemma_potential_prefix(os, i + 1);
            }
            let o = &self.orders[i];
            if o.status == OrderStatus::Active {
                if o.amount > (i128::MAX - total) / 3 {
                    return None;
                }
                total = total + 3 * o.amount;
            }
            i = i + 1;
        }
        proof {
            assert(os.take(os.len() as int) =~= os);
        }
        if total > balance {
            total.checked_sub(balance)
        } else {
            Some(0)
        }
    }

    /// The contract's `balance` and the part of it beyond what the active
    /// orders could claim, which the admin may withdraw as commission.
    pub fn get_commission_info(&self, balance: i128) -> (r: Option<(i128, i128)>)
        requires
            self.wf(),
        ensures
            liquidity_computable(self.orders(), balance as int) ==> r == Some(
                (balance, withdrawable(self.orders(), balance as int) as i128),
            ),
            !liquidity_computable(self.orders(), balance as int) ==> r.is_none(),
    {
        let needed = match self.check_liquidity_needs(balance) {
            Some(n) => n,
            None => {
                return None;
            },
        };
        if balance > needed {
            Some((balance, balance - needed))
        } else {
            Some((balance, 0))
        }
    }

    /// Rebuilds a book from stored orders, order `id` at index `id - 1`,
    /// and the emergency commission; none when they do not form a valid
    /// book.
    pub fn restore(orders: Vec<TrailingOrder>, emergency_commission_rate: u32) -> (r: Option<
        TrailingStopContract,
    >)
        ensures
            match r {
                Some(book) => book.wf() && book.orders() == orders@ && book.commission_rate()
                    == emergency_commission_rate,
                None => !({
                    &&& orders@.len() < u64::MAX
                    &&& emergency_commission_rate <= MAX_EMERGENCY_RATE_BPS
                    &&& forall|i: int|
                        0 <= i < orders@.len() ==> order_consistent(#[trigger] orders@[i], i + 1)
                }),
            },
    {
        if orders.len() as u64 >= u64::MAX || emergency_commission_rate > MAX_EMERGENCY_RATE_BPS {
            return None;
        }
        let mut i: usize = 0;
        while i < orders.len()
            invariant
                orders@.len() < u64::MAX,
                i <= orders@.len(),
                forall|x: int| 0 <= x < i ==> order_consistent(#[trigger] orders@[x], x + 1),
            decreases orders@.len() - i,
        {
            let o = &orders[i];
            if o.id != (i + 1) as u64 || o.amount <= 0 || o.trail_percentage == 0
                || o.trail_percentage > MAX_TRAIL_BPS {
                return None;
            }
            i = i + 1;
        }
        Some(TrailingStopContract { orders, emergency_commission_rate })
    }

    /// The stored form of the book: its orders and the emergency commission.
    pub fn into_parts(self) -> (r: (Vec<TrailingOrder>, u32))
        ensures
            r.0@ == self.orders(),
            r.1 == self.commission_rate(),
    {
        (self.orders, self.emergency_commission_rate)
    }
}

} // verus!
