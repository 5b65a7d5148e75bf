//! Deterministic exchange core: fees, a price-time ordered book, crossing-order
//! matching, a constant-product pool, and trade settlement. All values are integer
//! base units.
use crate::ordmap::{str_equal, str_lt, KeyOrder, MapKey};
use vstd::prelude::*;

verus! {

// ---------------------------------------------------------------------------
// Fees
// ---------------------------------------------------------------------------

#[derive(Debug, Clone, Copy, PartialEq, Eq)]
pub struct FeeCalculator {
    rate_bps: u64,
}

/// Fee on `amount` at `rate_bps` basis points: the saturating product, divided down.
pub open spec fn fee_of(amount: u128, rate_bps: u64) -> u128 {
    if amount * rate_bps > u128::MAX {
        (u128::MAX / 10_000) as u128
    } else {
        ((amount * rate_bps) / 10_000) as u128
    }
}

impl FeeCalculator {
    /// The usual fee rate, in basis points.
    pub const DEFAULT_RATE_BPS: u64 = 30;

    pub closed spec fn rate(&self) -> u64 {
        self.rate_bps
    }

    pub fn new(rate_bps: u64) -> (f: Self)
        ensures
            f.rate() == rate_bps,
    {
        FeeCalculator { rate_bps }
    }

    /// The fee on an amount, rounded down.
    pub fn calculate_fee(&self, amount: u128) -> (r: u128)
        ensures
            r == fee_of(amount, self.rate()),
    {
        crate::codec::sat_mul_u128(amount, self.rate_bps as u128) / 10_000
    }

    /// What remains of an amount after its fee (never below zero).
    pub fn calculate_net(&self, amount: u128) -> (r: u128)
        ensures
            r == if fee_of(amount, self.rate()) > amount {
                0
            } else {
                amount - fee_of(amount, self.rate())
            },
    {
        amount.saturating_sub(self.calculate_fee(amount))
    }

    pub fn rate_bps(&self) -> (r: u64)
        ensures
            r == self.rate(),
    {
        self.rate_bps
    }
}

// ---------------------------------------------------------------------------
// The order book
// ---------------------------------------------------------------------------

#[derive(Debug, Clone, Copy, PartialEq, Eq, Structural)]
pub enum Side {
    Buy,
    Sell,
}

#[derive(Debug, Clone, PartialEq, Eq)]
pub struct Order {
    pub id: String,
    pub price: u128,
    pub amount: u128,
    pub side: Side,
    pub timestamp: u64,
}

/// Content of an order, its identifier by its characters.
pub struct OrderModel {
    pub id: Seq<char>,
    pub price: u128,
    pub amount: u128,
    pub side: Side,
    pub timestamp: u64,
}

impl View for Order {
    type V = OrderModel;

    open spec fn view(&self) -> OrderModel {
        OrderModel {
            id: self.id@,
            price: self.price,
            amount: self.amount,
            side: self.side,
            timestamp: self.timestamp,
        }
    }
}

pub open spec fn orders_view(v: Seq<Order>) -> Seq<OrderModel> {
    v.map_values(|o: Order| o@)
}

/// Whether `a` comes strictly before `b` on one side of the book: bids by higher
/// price, asks by lower price, then earlier timestamp, then smaller identifier.
pub open spec fn ranks_before(a: OrderModel, b: OrderModel, bids: bool) -> bool {
    if a.price != b.price {
        if bids {
            a.price > b.price
        } else {
            a.price < b.price
        }
    } else if a.timestamp != b.timestamp {
        a.timestamp < b.timestamp
    } else {
        str_lt(a.id, b.id)
    }
}

/// Orders in book order: no order ranks before one ahead of it.
pub open spec fn book_sorted(s: Seq<OrderModel>, bids: bool) -> bool {
    forall|i: int, j: int| 0 <= i < j < s.len() ==> !ranks_before(#[trigger] s[j], #[trigger] s[i], bids)
}

/// Where a new order goes among ordered orders: before the first that it ranks
/// before, else at the end, so that equal orders keep their arrival order.
pub open spec fn insert_pos(s: Seq<OrderModel>, o: OrderModel, bids: bool, i: nat) -> nat
    decreases s.len() - i,
{
    if i >= s.len() {
        s.len()
    } else if ranks_before(o, s[i as int], bids) {
        i
    } else {
        insert_pos(s, o, bids, i + 1)
    }
}

/// The orders other than those with identifier `id`.
pub open spec fn without_id(s: Seq<OrderModel>, id: Seq<char>) -> Seq<OrderModel> {
    s.filter(|o: OrderModel| o.id != id)
}

#[derive(Debug, Clone)]
pub struct OrderBook {
    bids: Vec<Order>,
    asks: Vec<Order>,
}

fn copy_order(o: &Order) -> (c: Order)
    ensures
        c@ == o@,
{
    Order { id: o.id.clone(), price: o.price, amount: o.amount, side: o.side, timestamp: o.timestamp }
}

/// Whether `a` ranks before `b` on one side of the book.
fn order_ranks_before(a: &Order, b: &Order, bids: bool) -> (r: bool)
    ensures
        r == ranks_before(a@, b@, bids),
{
    if a.price != b.price {
        if bids {
            a.price > b.price
        } else {
            a.price < b.price
        }
    } else if a.timestamp != b.timestamp {
        a.timestamp < b.timestamp
    } else {
        a.id.compare_key(&b.id) == KeyOrder::Before
    }
}

proof fn lemma_insert_pos_bounds(s: Seq<OrderModel>, o: OrderModel, bids: bool, i: nat)
    requires
        i <= s.len(),
    ensures
        i <= insert_pos(s, o, bids, i) <= s.len(),
        forall|k: int| i <= k < insert_pos(s, o, bids, i) ==> !ranks_before(o, #[trigger] s[k], bids),
        insert_pos(s, o, bids, i) < s.len() ==> ranks_before(o, s[insert_pos(s, o, bids, i) as int], bids),
    decreases s.len() - i,
{
    if i < s.len() && !ranks_before(o, s[i as int], bids) {
        lemma_insert_pos_bounds(s, o, bids, i + 1);
    }
}

/// Book order is a strict total order on orders with distinct content.
proof fn lemma_ranks_order(a: OrderModel, b: OrderModel, c: OrderModel, bids: bool)
    ensures
        !ranks_before(a, a, bids),
        ranks_before(a, b, bids) && ranks_before(b, c, bids) ==> ranks_before(a, c, bids),
        !ranks_before(a, b, bids) && !ranks_before(b, a, bids) ==> a.price == b.price
            && a.timestamp == b.timestamp && a.id == b.id,
{
    crate::ordmap::lemma_str_order(a.id, b.id, c.id);
    crate::ordmap::lemma_str_order(a.id, a.id, c.id);
}

/// Price-time priority: bids rank by higher price and asks by lower price; at equal
/// price, on either side, the earlier order ranks first; and of two orders at most one
/// ranks before the other.
pub proof fn law_price_time_priority(a: OrderModel, b: OrderModel, bids: bool)
    ensures
        bids && a.price > b.price ==> ranks_before(a, b, true),
        !bids && a.price < b.price ==> ranks_before(a, b, false),
        a.price == b.price && a.timestamp < b.timestamp ==> ranks_before(a, b, bids),
        ranks_before(a, b, bids) ==> !ranks_before(b, a, bids),
{
    lemma_ranks_order(a, b, a, bids);
}

impl OrderBook {
    /// The best bid has the highest price of all bids and, among bids at that price,
    /// the earliest timestamp; the best ask has the lowest price of all asks and,
    /// among asks at that price, the earliest timestamp.
    pub proof fn law_best_orders_lead(&self)
        requires
            self.wf(),
        ensures
            forall|i: int|
                0 <= i < self.bid_list().len() ==> self.bid_list()[0].price >= (
                #[trigger] self.bid_list()[i]).price && (self.bid_list()[0].price
                == self.bid_list()[i].price ==> self.bid_list()[0].timestamp
                <= self.bid_list()[i].timestamp),
            forall|i: int|
                0 <= i < self.ask_list().len() ==> self.ask_list()[0].price <= (
                #[trigger] self.ask_list()[i]).price && (self.ask_list()[0].price
                == self.ask_list()[i].price ==> self.ask_list()[0].timestamp
                <= self.ask_list()[i].timestamp),
    {
        assert forall|i: int| 0 <= i < self.bid_list().len() implies self.bid_list()[0].price >= (
        #[trigger] self.bid_list()[i]).price && (self.bid_list()[0].price == self.bid_list()[i].price
            ==> self.bid_list()[0].timestamp <= self.bid_list()[i].timestamp) by {
            if i > 0 {
                assert(!ranks_before(self.bid_list()[i], self.bid_list()[0], true));
            }
        }
        assert forall|i: int| 0 <= i < self.ask_list().len() implies self.ask_list()[0].price <= (
        #[trigger] self.ask_list()[i]).price && (self.ask_list()[0].price == self.ask_list()[i].price
            ==> self.ask_list()[0].timestamp <= self.ask_list()[i].timestamp) by {
            if i > 0 {
                assert(!ranks_before(self.ask_list()[i], self.ask_list()[0], false));
            }
        }
    }
}

/// Putting an order where `insert_pos` says keeps ordered orders ordered.
proof fn lemma_insert_keeps_sorted(s: Seq<OrderModel>, o: OrderModel, bids: bool)
    requires
        book_sorted(s, bids),
    ensures
        book_sorted(s.insert(insert_pos(s, o, bids, 0) as int, o), bids),
{
    let p = insert_pos(s, o, bids, 0) as int;
    lemma_insert_pos_bounds(s, o, bids, 0);
    let t = s.insert(p, o);
    assert forall|i: int, j: int| 0 <= i < j < t.len() implies !ranks_before(
        #[trigger] t[j],
        #[trigger] t[i],
        bids,
    ) by {
        if i < p && j == p {
            assert(!ranks_before(o, s[i], bids));
        } else if i == p && j > p {
            let k = j - 1;
            assert(t[j] == s[k]);
            assert(p < s.len());
            let first = s[p];
            assert(ranks_before(o, first, bids));
            if ranks_before(s[k], o, bids) {
                lemma_ranks_order(s[k], o, first, bids);
                if k > p {
                    assert(!ranks_before(s[k], s[p], bids));
                } else {
                    lemma_ranks_order(first, first, first, bids);
                }
            }
        } else if i < p && j > p {
            assert(t[j] == s[j - 1]);
            assert(t[i] == s[i]);
        } else if j < p {
            assert(t[i] == s[i] && t[j] == s[j]);
        } else {
            assert(t[i] == s[i - 1] && t[j] == s[j - 1]);
        }
    }
}

proof fn lemma_filter_keeps_sorted(s: Seq<OrderModel>, id: Seq<char>, bids: bool)
    requires
        book_sorted(s, bids),
    ensures
        book_sorted(without_id(s, id), bids),
    decreases s.len(),
{
    let f = |o: OrderModel| o.id != id;
    if s.len() > 0 {
        let init = s.drop_last();
        lemma_filter_keeps_sorted(init, id, bids);
        assert(s.filter(f) == if f(s.last()) { init.filter(f).push(s.last()) } else { init.filter(f) }) by {
            assert(s =~= init.push(s.last()));
            init.lemma_filter_push(s.last(), f);
        }
        let t = without_id(s, id);
        if f(s.last()) {
            assert forall|i: int, j: int| 0 <= i < j < t.len() implies !ranks_before(
                #[trigger] t[j],
                #[trigger] t[i],
                bids,
            ) by {
                if j == t.len() - 1 {
                    let ti = t[i];
                    assert(init.filter(f).contains(ti));
                    init.lemma_filter_contains_rev(f, ti);
                    let k = choose|k: int| 0 <= k < init.len() && init[k] == ti;
                    assert(s[k] == init[k]);
                    assert(s[s.len() - 1] == s.last());
                } else {
                    assert(t[i] == init.filter(f)[i] && t[j] == init.filter(f)[j]);
                }
            }
        }
    }
}

impl OrderBook {
    pub closed spec fn bid_list(&self) -> Seq<OrderModel> {
        orders_view(self.bids@)
    }

    pub closed spec fn ask_list(&self) -> Seq<OrderModel> {
        orders_view(self.asks@)
    }

    /// Bids are best first and asks are best first.
    pub open spec fn wf(&self) -> bool {
        book_sorted(self.bid_list(), true) && book_sorted(self.ask_list(), false)
    }

    pub fn new() -> (b: Self)
        ensures
            b.wf(),
            b.bid_list() == Seq::<OrderModel>::empty(),
            b.ask_list() == Seq::<OrderModel>::empty(),
    {
        let b = OrderBook { bids: Vec::new(), asks: Vec::new() };
        assert(b.bid_list() =~= Seq::<OrderModel>::empty());
        assert(b.ask_list() =~= Seq::<OrderModel>::empty());
        b
    }

    fn insert_sorted(v: &mut Vec<Order>, order: Order, bids: bool)
        ensures
            orders_view(final(v)@) == orders_view(old(v)@).insert(
                insert_pos(orders_view(old(v)@), order@, bids, 0) as int,
                order@,
            ),
    {
        let ghost s = orders_view(v@);
        let mut i: usize = 0;
        while i < v.len()
            invariant_except_break
                s == orders_view(v@),
                i <= v@.len(),
                insert_pos(s, order@, bids, 0) == insert_pos(s, order@, bids, i as nat),
            ensures
                s == orders_view(v@),
                i <= v@.len(),
                insert_pos(s, order@, bids, 0) == i,
            decreases v@.len() - i,
        {
            if order_ranks_before(&order, &v[i], bids) {
                break;
            }
            i = i + 1;
        }
        let ghost om = order@;
        v.insert(i, order);
        proof {
            assert(orders_view(v@) =~= s.insert(i as int, om));
        }
    }

    /// Adds an order to its side of the book, behind every order it does not rank
    /// before.
    pub fn add_order(&mut self, order: Order)
        requires
            old(self).wf(),
        ensures
            final(self).wf(),
            order.side == Side::Buy ==> final(self).bid_list() == old(self).bid_list().insert(
                insert_pos(old(self).bid_list(), order@, true, 0) as int,
                order@,
            ) && final(self).ask_list() == old(self).ask_list(),
            order.side == Side::Sell ==> final(self).ask_list() == old(self).ask_list().insert(
                insert_pos(old(self).ask_list(), order@, false, 0) as int,
                order@,
            ) && final(self).bid_list() == old(self).bid_list(),
    {
        let ghost om = order@;
        match order.side {
            Side::Buy => Self::insert_sorted(&mut self.bids, order, true),
            Side::Sell => Self::insert_sorted(&mut self.asks, order, false),
        }
        proof {
            lemma_insert_keeps_sorted(old(self).bid_list(), om, true);
            lemma_insert_keeps_sorted(old(self).ask_list(), om, false);
        }
    }

    fn retain_other(v: &mut Vec<Order>, id: &str)
        ensures
            orders_view(final(v)@) == without_id(orders_view(old(v)@), id@),
    {
        let ghost s = orders_view(v@);
        let mut out: Vec<Order> = Vec::new();
        let mut i: usize = 0;
        proof {
            reveal(Seq::filter);
        }
        assert(s.take(0).filter(|o: OrderModel| o.id != id@) =~= Seq::<OrderModel>::empty());
        while i < v.len()
            invariant
                s == orders_view(v@),
                i <= v@.len(),
                orders_view(out@) == s.take(i as int).filter(|o: OrderModel| o.id != id@),
            decreases v@.len() - i,
        {
            proof {
                assert(s.take(i + 1) =~= s.take(i as int).push(s[i as int]));
                s.take(i as int).lemma_filter_push(s[i as int], |o: OrderModel| o.id != id@);
            }
            if !str_equal(v[i].id.as_str(), id) {
                let ghost before = orders_view(out@);
                out.push(copy_order(&v[i]));
                assert(orders_view(out@) =~= before.push(s[i as int]));
            }
            i = i + 1;
        }
        assert(s.take(s.len() as int) =~= s);
        *v = out;
    }

    /// Removes every order with identifier `id`.
    pub fn remove_order(&mut self, id: &str)
        requires
            old(self).wf(),
        ensures
            final(self).wf(),
            final(self).bid_list() == without_id(old(self).bid_list(), id@),
            final(self).ask_list() == without_id(old(self).ask_list(), id@),
    {
        Self::retain_other(&mut self.bids, id);
        Self::retain_other(&mut self.asks, id);
        proof {
            lemma_filter_keeps_sorted(old(self).bid_list(), id@, true);
            lemma_filter_keeps_sorted(old(self).ask_list(), id@, false);
        }
    }

    /// The highest bid, earliest first among equal prices.
    pub fn best_bid(&self) -> (r: Option<&Order>)
        ensures
            match r {
                Some(o) => self.bid_list().len() > 0 && o@ == self.bid_list()[0],
                None => self.bid_list().len() == 0,
            },
    {
        if self.bids.len() > 0 {
            Some(&self.bids[0])
        } else {
            None
        }
    }

    /// The lowest ask, earliest first among equal prices.
    pub fn best_ask(&self) -> (r: Option<&Order>)
        ensures
            match r {
                Some(o) => self.ask_list().len() > 0 && o@ == self.ask_list()[0],
                None => self.ask_list().len() == 0,
            },
    {
        if self.asks.len() > 0 {
            Some(&self.asks[0])
        } else {
            None
        }
    }

    pub fn bids(&self) -> (r: &[Order])
        ensures
            orders_view(r@) == self.bid_list(),
    {
        self.bids.as_slice()
    }

    pub fn asks(&self) -> (r: &[Order])
        ensures
            orders_view(r@) == self.ask_list(),
    {
        self.asks.as_slice()
    }
}

impl Default for OrderBook {
    fn default() -> (b: Self)
        ensures
            b.wf(),
            b.bid_list() == Seq::<OrderModel>::empty(),
            b.ask_list() == Seq::<OrderModel>::empty(),
    {
        OrderBook::new()
    }
}

// ---------------------------------------------------------------------------
// Matching
// ---------------------------------------------------------------------------

#[derive(Debug)]
pub struct OrderMatcher;

/// Whether a resting order crosses an incoming one: asks at or below a buy's price,
/// bids at or above a sell's price.
pub open spec fn crosses(incoming: OrderModel, resting: OrderModel) -> bool {
    match incoming.side {
        Side::Buy => resting.price <= incoming.price,
        Side::Sell => resting.price >= incoming.price,
    }
}

/// The resting orders an incoming order meets, in book order.
pub open spec fn matches_of(incoming: OrderModel, book: OrderBook) -> Seq<OrderModel> {
    match incoming.side {
        Side::Buy => book.ask_list().filter(|o: OrderModel| crosses(incoming, o)),
        Side::Sell => book.bid_list().filter(|o: OrderModel| crosses(incoming, o)),
    }
}

/// A fee is the rate's share of the amount, in basis points, rounded down: where
/// `amount * rate_bps` fits, `fee * 10000 <= amount * rate_bps < (fee + 1) * 10000`;
/// and what remains after the fee is the amount less the fee.
pub proof fn law_fee_is_rate_share(amount: u128, rate_bps: u64)
    ensures
        amount * rate_bps <= u128::MAX ==> fee_of(amount, rate_bps) * 10000 <= amount * rate_bps
            < (fee_of(amount, rate_bps) + 1) * 10000,
        rate_bps <= 10000 ==> fee_of(amount, rate_bps) <= amount,
{
    let p = amount * rate_bps;
    assert(0 <= p) by (nonlinear_arith)
        requires
            p == amount * rate_bps,
            amount >= 0,
            rate_bps >= 0,
    ;
    if p <= u128::MAX {
        vstd::arithmetic::div_mod::lemma_fundamental_div_mod(p, 10000);
        vstd::arithmetic::div_mod::lemma_mod_bound(p, 10000);
    }
    if rate_bps <= 10000 {
        assert(p <= amount * 10000) by (nonlinear_arith)
            requires
                p == amount * rate_bps,
                rate_bps <= 10000,
                amount >= 0,
        ;
        if p <= u128::MAX {
            vstd::arithmetic::div_mod::lemma_div_is_ordered(p, amount * 10000, 10000);
            vstd::arithmetic::div_mod::lemma_div_multiples_vanish(amount as int, 10000);
        } else {
            assert(u128::MAX / 10000 <= amount);
        }
    }
}

/// An incoming order meets exactly the resting orders of the other side whose price
/// crosses its own: for a buy, the asks at or below its price; for a sell, the bids
/// at or above it.
pub proof fn law_matches_are_crossing_orders(incoming: OrderModel, book: OrderBook, o: OrderModel)
    ensures
        incoming.side == Side::Buy ==> (matches_of(incoming, book).contains(o) <==> book.ask_list().contains(o)
            && o.price <= incoming.price),
        incoming.side == Side::Sell ==> (matches_of(incoming, book).contains(o) <==> book.bid_list().contains(o)
            && o.price >= incoming.price),
{
    broadcast use vstd::seq_lib::group_filter_ensures;

    let f = |x: OrderModel| crosses(incoming, x);
    let s = if incoming.side == Side::Buy { book.ask_list() } else { book.bid_list() };
    if matches_of(incoming, book).contains(o) {
        s.lemma_filter_contains_rev(f, o);
        let i = choose|i: int| 0 <= i < s.filter(f).len() && s.filter(f)[i] == o;
        assert(f(s.filter(f)[i]));
    }
    if s.contains(o) && f(o) {
        let i = choose|i: int| 0 <= i < s.len() && s[i] == o;
        s.lemma_filter_contains(f, i);
    }
}

impl OrderMatcher {
    /// The orders on the other side of the book whose price crosses the incoming
    /// order's, in book order.
    pub fn match_orders(&self, incoming: &Order, book: &OrderBook) -> (r: Vec<Order>)
        ensures
            orders_view(r@) == matches_of(incoming@, *book),
    {
        let side = match incoming.side {
            Side::Buy => book.asks(),
            Side::Sell => book.bids(),
        };
        let ghost s = orders_view(side@);
        let ghost f = |o: OrderModel| crosses(incoming@, o);
        let mut out: Vec<Order> = Vec::new();
        let mut i: usize = 0;
        proof {
            reveal(Seq::filter);
        }
        assert(s.take(0).filter(f) =~= Seq::<OrderModel>::empty());
        while i < side.len()
            invariant
                s == orders_view(side@),
                f == (|o: OrderModel| crosses(incoming@, o)),
                i <= side@.len(),
                orders_view(out@) == s.take(i as int).filter(f),
            decreases side@.len() - i,
        {
            proof {
                assert(s.take(i + 1) =~= s.take(i as int).push(s[i as int]));
                s.take(i as int).lemma_filter_push(s[i as int], f);
            }
            let o = &side[i];
            let keep = match incoming.side {
                Side::Buy => o.price <= incoming.price,
                Side::Sell => o.price >= incoming.price,
            };
            if keep {
                let ghost before = orders_view(out@);
                out.push(copy_order(o));
                assert(orders_view(out@) =~= before.push(s[i as int]));
            }
            i = i + 1;
        }
        assert(s.take(s.len() as int) =~= s);
        out
    }
}

impl Default for OrderMatcher {
    fn default() -> (m: Self) {
        OrderMatcher
    }
}

// ---------------------------------------------------------------------------
// Constant-product pool
// ---------------------------------------------------------------------------

#[derive(Debug, Clone, Copy, PartialEq, Eq)]
pub struct LiquidityPool {
    reserve_a: u128,
    reserve_b: u128,
}

/// What swapping `amount_a` into a pool gives: the new reserves and the amount of B
/// paid out, or nothing where the input or a reserve is zero, the product or the new
/// reserve overflows, or nothing would be paid.
pub open spec fn swap_outcome(ra: u128, rb: u128, amount_a: u128) -> Option<(u128, u128, u128)> {
    if amount_a == 0 || ra == 0 || rb == 0 || ra * rb > u128::MAX || ra + amount_a > u128::MAX {
        None
    } else {
        let new_a = ra + amount_a;
        let new_b = (ra * rb) / new_a;
        if rb < new_b || rb - new_b == 0 {
            None
        } else {
            Some((new_a as u128, new_b as u128, (rb - new_b) as u128))
        }
    }
}

impl LiquidityPool {
    pub closed spec fn reserve_a(&self) -> u128 {
        self.reserve_a
    }

    pub closed spec fn reserve_b(&self) -> u128 {
        self.reserve_b
    }

    pub fn new(reserve_a: u128, reserve_b: u128) -> (p: Self)
        ensures
            p.reserve_a() == reserve_a && p.reserve_b() == reserve_b,
    {
        LiquidityPool { reserve_a, reserve_b }
    }

    pub fn reserves(&self) -> (r: (u128, u128))
        ensures
            r == (self.reserve_a(), self.reserve_b()),
    {
        (self.reserve_a, self.reserve_b)
    }

    /// Swaps `amount_a` of A for B at the constant product, rounding in the pool's
    /// favour; the pool is unchanged where the swap is refused.
    pub fn swap_a_for_b(&mut self, amount_a: u128) -> (r: Option<u128>)
        ensures
            match swap_outcome(old(self).reserve_a(), old(self).reserve_b(), amount_a) {
                None => r is None && *final(self) == *old(self),
                Some((a, b, out)) => r == Some(out) && final(self).reserve_a() == a
                    && final(self).reserve_b() == b,
            },
    {
        if amount_a == 0 || self.reserve_a == 0 || self.reserve_b == 0 {
            return None;
        }
        let k = self.reserve_a.checked_mul(self.reserve_b)?;
        let new_a = self.reserve_a.checked_add(amount_a)?;
        let new_b = k / new_a;
        let out = self.reserve_b.checked_sub(new_b)?;
        if out == 0 {
            return None;
        }
        self.reserve_a = new_a;
        self.reserve_b = new_b;
        Some(out)
    }
}

/// A swap adds exactly the input to the A reserve, pays out of the B reserve exactly
/// what leaves it, never raises the pool's product, and loses less than the new A
/// reserve of it to rounding, which always favours the pool.
pub proof fn law_swap_keeps_product(ra: u128, rb: u128, amount_a: u128)
    requires
        swap_outcome(ra, rb, amount_a) is Some,
    ensures
        ({
            let (a, b, out) = swap_outcome(ra, rb, amount_a)->Some_0;
            &&& a == ra + amount_a
            &&& out <= rb
            &&& b + out == rb
            &&& a * b <= ra * rb
            &&& ra * rb < a * b + a
        }),
{
    let new_a: int = ra + amount_a;
    let k: int = ra * rb;
    let new_b: int = k / new_a;
    assert(new_a > 0);
    assert(k == new_a * new_b + k % new_a && 0 <= k % new_a < new_a) by {
        vstd::arithmetic::div_mod::lemma_fundamental_div_mod(k, new_a);
        vstd::arithmetic::div_mod::lemma_mod_bound(k, new_a);
    }
    assert(new_b >= 0) by {
        vstd::arithmetic::div_mod::lemma_div_pos_is_pos(k, new_a);
    }
    assert(new_b <= rb) by (nonlinear_arith)
        requires
            new_a * new_b <= ra * rb,
            new_a >= ra,
            ra > 0,
            new_b >= 0,
    ;
    let (a, b, out) = swap_outcome(ra, rb, amount_a)->Some_0;
    assert(a == new_a && b == new_b);
    assert(a * b == new_a * new_b);
}

// ---------------------------------------------------------------------------
// Settlement
// ---------------------------------------------------------------------------

#[derive(Debug, Clone, PartialEq, Eq)]
pub struct Trade {
    pub id: u64,
    pub buyer: String,
    pub seller: String,
    pub price: u128,
    pub amount: u128,
    pub timestamp: u64,
}

/// Content of a trade, parties by their characters.
pub struct TradeModel {
    pub id: u64,
    pub buyer: Seq<char>,
    pub seller: Seq<char>,
    pub price: u128,
    pub amount: u128,
    pub timestamp: u64,
}

impl View for Trade {
    type V = TradeModel;

    open spec fn view(&self) -> TradeModel {
        TradeModel {
            id: self.id,
            buyer: self.buyer@,
            seller: self.seller@,
            price: self.price,
            amount: self.amount,
            timestamp: self.timestamp,
        }
    }
}

pub open spec fn trades_view(v: Seq<Trade>) -> Seq<TradeModel> {
    v.map_values(|t: Trade| t@)
}

/// Settled trades, numbered in order from zero.
#[derive(Debug)]
pub struct Settlement {
    trades: Vec<Trade>,
    next_id: u64,
}

impl Settlement {
    pub closed spec fn trade_list(&self) -> Seq<TradeModel> {
        trades_view(self.trades@)
    }

    /// The number the next trade gets.
    pub closed spec fn next_number(&self) -> u64 {
        self.next_id
    }

    pub fn new() -> (s: Self)
        ensures
            s.trade_list() == Seq::<TradeModel>::empty(),
            s.next_number() == 0,
    {
        let s = Settlement { trades: Vec::new(), next_id: 0 };
        assert(s.trade_list() =~= Seq::<TradeModel>::empty());
        s
    }

    /// Settles a trade under the next number and records it.
    pub fn settle(
        &mut self,
        buyer: String,
        seller: String,
        price: u128,
        amount: u128,
        timestamp: u64,
    ) -> (t: Trade)
        requires
            old(self).next_number() < u64::MAX,
        ensures
            t@ == (TradeModel {
                id: old(self).next_number(),
                buyer: buyer@,
                seller: seller@,
                price,
                amount,
                timestamp,
            }),
            final(self).next_number() == old(self).next_number() + 1,
            final(self).trade_list() == old(self).trade_list().push(t@),
    {
        let trade = Trade { id: self.next_id, buyer, seller, price, amount, timestamp };
        self.next_id = self.next_id + 1;
        let copy = Trade {
            id: trade.id,
            buyer: trade.buyer.clone(),
            seller: trade.seller.clone(),
            price: trade.price,
            amount: trade.amount,
            timestamp: trade.timestamp,
        };
        let ghost before = self.trade_list();
        self.trades.push(copy);
        assert(self.trade_list() =~= before.push(trade@));
        trade
    }

    pub fn trades(&self) -> (r: &[Trade])
        ensures
            trades_view(r@) == self.trade_list(),
    {
        self.trades.as_slice()
    }
}

impl Default for Settlement {
    fn default() -> (s: Self)
        ensures
            s.trade_list() == Seq::<TradeModel>::empty(),
            s.next_number() == 0,
    {
        Settlement::new()
    }
}

} // verus!
