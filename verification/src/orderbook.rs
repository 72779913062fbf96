//! Price levels and the order book: FIFO fills within a level, price-priority
//! walks across levels.

use vstd::prelude::*;

verus! {

/// The side of a trade intent: a `Bid` buys, an `Ask` sells.
#[derive(Clone, Copy, Debug, PartialEq, Eq, Structural)]
pub enum BidOrAsk {
    Bid,
    Ask,
}

/// A trade intent: a caller-assigned stable identifier, a side, and the
/// remaining quantity still to be traded, in integer size units.
///
/// The matching algorithm only ever decreases `size`; an order whose size
/// has reached exactly zero is filled and is never matched again.
#[derive(Clone, Copy, Debug, PartialEq, Eq, Structural)]
pub struct Order {
    pub id: u64,
    pub bid_or_ask: BidOrAsk,
    pub size: u64,
}

impl Order {
    /// True when nothing remains to trade.
    pub open spec fn spec_is_filled(self) -> bool {
        self.size == 0
    }

    pub fn new(id: u64, bid_or_ask: BidOrAsk, size: u64) -> (r: Order)
        ensures
            r == (Order { id, bid_or_ask, size }),
    {
        Order { id, bid_or_ask, size }
    }

    pub fn is_filled(&self) -> (r: bool)
        ensures
            r == self.spec_is_filled(),
    {
        self.size == 0
    }
}

/// An immutable record of one side of a fill event: which order traded,
/// how much, on which side, and at what price. Each fill event emits two
/// of these, one for the aggressing order and one for the resting order.
#[derive(Clone, Copy, Debug, PartialEq, Eq, Structural)]
pub struct Execution {
    pub id: u64,
    pub size: u64,
    pub bid_or_ask: BidOrAsk,
    pub price: u64,
}

impl Execution {
    pub fn new(order: &Order, size: u64, price: u64) -> (r: Execution)
        ensures
            r == (Execution { id: order.id, size, bid_or_ask: order.bid_or_ask, price }),
    {
        Execution { id: order.id, size, bid_or_ask: order.bid_or_ask, price }
    }
}

/// The mathematical value of a price level: its price and the sequence of
/// resident orders, oldest first.
#[verifier::ext_equal]
pub struct LimitView {
    pub price: u64,
    pub orders: Seq<Order>,
}

/// One price level: all orders resting at `price`, in arrival order
/// (oldest first). Arrival order is the time-priority queue.
#[derive(Debug)]
pub struct Limit {
    pub price: u64,
    pub orders: Vec<Order>,
}

impl View for Limit {
    type V = LimitView;

    open spec fn view(&self) -> LimitView {
        LimitView { price: self.price, orders: self.orders@ }
    }
}

/// The total resting quantity of a queue of orders.
pub open spec fn spec_volume(orders: Seq<Order>) -> int
    decreases orders.len(),
{
    if orders.len() == 0 {
        0
    } else {
        spec_volume(orders.drop_last()) + orders.last().size
    }
}

pub proof fn lemma_volume_nonneg(orders: Seq<Order>)
    ensures
        spec_volume(orders) >= 0,
    decreases orders.len(),
{
    if orders.len() > 0 {
        lemma_volume_nonneg(orders.drop_last());
    }
}

/// The volume of a prefix never exceeds the volume of the whole queue.
pub proof fn lemma_volume_take_le(orders: Seq<Order>, i: int)
    requires
        0 <= i <= orders.len(),
    ensures
        spec_volume(orders.take(i)) <= spec_volume(orders),
    decreases orders.len() - i,
{
    if i == orders.len() {
        assert(orders.take(i) =~= orders);
    } else {
        assert(orders.take(i + 1).drop_last() =~= orders.take(i));
        assert(orders.take(i + 1).last() == orders[i]);
        lemma_volume_take_le(orders, i + 1);
    }
}

/// The outcome of matching one incoming order against one price level:
/// the queue that remains, the incoming order as it stands afterwards,
/// and the executions emitted, in order.
pub struct LevelFillResult {
    pub orders: Seq<Order>,
    pub incoming: Order,
    pub execs: Seq<Execution>,
}

/// The two execution records of one fill event: first the aggressing
/// order's, then the resting order's, both for `shares` at `price`.
pub open spec fn spec_exec_pair(incoming: Order, resident: Order, shares: u64, price: u64) -> Seq<
    Execution,
> {
    seq![
        Execution { id: incoming.id, size: shares, bid_or_ask: incoming.bid_or_ask, price },
        Execution { id: resident.id, size: shares, bid_or_ask: resident.bid_or_ask, price },
    ]
}

/// Matching against one price level, oldest resident first: each step
/// trades `min(incoming.size, front.size)` shares at the level's price,
/// decrements both orders, evicts the front resident exactly when it
/// reaches zero, and stops once the incoming order is filled or the queue
/// is empty.
pub open spec fn spec_level_fill(orders: Seq<Order>, incoming: Order, price: u64) -> LevelFillResult
    decreases orders.len(),
{
    if incoming.size == 0 || orders.len() == 0 {
        LevelFillResult { orders, incoming, execs: Seq::empty() }
    } else {
        let front = orders[0];
        let shares = if incoming.size >= front.size {
            front.size
        } else {
            incoming.size
        };
        let step = spec_exec_pair(incoming, front, shares, price);
        let incoming2 = Order {
            id: incoming.id,
            bid_or_ask: incoming.bid_or_ask,
            size: (incoming.size - shares) as u64,
        };
        if front.size == shares {
            let rest = spec_level_fill(orders.drop_first(), incoming2, price);
            LevelFillResult {
                orders: rest.orders,
                incoming: rest.incoming,
                execs: step + rest.execs,
            }
        } else {
            let front2 = Order {
                id: front.id,
                bid_or_ask: front.bid_or_ask,
                size: (front.size - shares) as u64,
            };
            LevelFillResult { orders: orders.update(0, front2), incoming: incoming2, execs: step }
        }
    }
}

impl Limit {
    pub fn new(price: u64) -> (r: Limit)
        ensures
            r@.price == price,
            r@.orders == Seq::<Order>::empty(),
    {
        Limit { price, orders: Vec::new() }
    }

    /// Appends at the back of the queue, unconditionally: the newest order
    /// has the worst time priority.
    pub fn add_order(&mut self, order: Order)
        ensures
            final(self)@.price == old(self)@.price,
            final(self)@.orders == old(self)@.orders.push(order),
    {
        self.orders.push(order);
    }

    /// Consumes the incoming order against this level's queue, strictly
    /// oldest resident first, and returns the executions emitted. Both the
    /// incoming order and the touched residents are decremented; a resident
    /// that reaches zero is evicted at once. The outcome is exactly
    /// [`spec_level_fill`] of the starting state.
    pub fn fill_order(&mut self, market_order: &mut Order) -> (execs: Vec<Execution>)
        ensures
            ({
                let r = spec_level_fill(old(self)@.orders, *old(market_order), old(self)@.price);
                &&& final(self)@.price == old(self)@.price
                &&& final(self)@.orders == r.orders
                &&& *final(market_order) == r.incoming
                &&& execs@ == r.execs
            }),
    {
        let mut execs: Vec<Execution> = Vec::new();
        let ghost orig_orders = self.orders@;
        let ghost orig_incoming = *market_order;
        let ghost price0 = self.price;
        let ghost r = spec_level_fill(orig_orders, orig_incoming, price0);
        proof {
            assert(Seq::<Execution>::empty() + r.execs =~= r.execs);
        }
        while market_order.size != 0 && self.orders.len() != 0
            invariant
                self.price == price0,
                r == spec_level_fill(orig_orders, orig_incoming, price0),
                spec_level_fill(self.orders@, *market_order, price0).orders == r.orders,
                spec_level_fill(self.orders@, *market_order, price0).incoming == r.incoming,
                r.execs == execs@ + spec_level_fill(self.orders@, *market_order, price0).execs,
            decreases self.orders.len(), market_order.size,
        {
            let ghost pre_orders = self.orders@;
            let ghost pre_incoming = *market_order;
            let ghost pre_execs = execs@;
            let front = self.orders[0];
            let shares = if market_order.size >= front.size {
                front.size
            } else {
                market_order.size
            };
            execs.push(Execution::new(market_order, shares, self.price));
            execs.push(Execution::new(&front, shares, self.price));
            market_order.size = market_order.size - shares;
            if front.size == shares {
                self.orders.remove(0);
            } else {
                let front2 = Order {
                    id: front.id,
                    bid_or_ask: front.bid_or_ask,
                    size: front.size - shares,
                };
                self.orders[0] = front2;
            }
            proof {
                let cur = spec_level_fill(pre_orders, pre_incoming, price0);
                let step = spec_exec_pair(pre_incoming, pre_orders[0], shares, price0);
                if front.size == shares {
                    assert(pre_orders.remove(0) =~= pre_orders.drop_first());
                    let rest = spec_level_fill(self.orders@, *market_order, price0);
                    assert(cur.execs =~= step + rest.execs);
                    assert(pre_execs + (step + rest.execs) =~= execs@ + rest.execs);
                } else {
                    let rest = spec_level_fill(self.orders@, *market_order, price0);
                    assert(rest.execs =~= Seq::<Execution>::empty());
                    assert(pre_execs + (step + rest.execs) =~= execs@ + rest.execs);
                }
            }
        }
        execs
    }

    /// The sum of all resident orders' sizes; a pure query.
    pub fn total_volume(&self) -> (r: u64)
        requires
            spec_volume(self@.orders) <= u64::MAX,
        ensures
            r == spec_volume(self@.orders),
    {
        let mut sum: u64 = 0;
        let mut i: usize = 0;
        while i < self.orders.len()
            invariant
                0 <= i <= self.orders.len(),
                spec_volume(self@.orders) <= u64::MAX,
                sum == spec_volume(self@.orders.take(i as int)),
            decreases self.orders.len() - i,
        {
            proof {
                assert(self@.orders.take(i + 1).drop_last() =~= self@.orders.take(i as int));
                assert(self@.orders.take(i + 1).last() == self@.orders[i as int]);
                lemma_volume_take_le(self@.orders, i + 1);
                lemma_volume_nonneg(self@.orders.take(i as int));
            }
            sum = sum + self.orders[i].size;
            i = i + 1;
        }
        proof {
            assert(self@.orders.take(i as int) =~= self@.orders);
        }
        sum
    }
}

/// The mathematical value of an order book: each side's levels in the
/// order they are stored, which `OrderBook::wf` constrains to be the
/// side's price-priority order, best level first.
#[verifier::ext_equal]
pub struct BookView {
    pub asks: Seq<LimitView>,
    pub bids: Seq<LimitView>,
}

/// The value of a freshly created book: no levels on either side.
pub open spec fn spec_empty_book() -> BookView {
    BookView { asks: Seq::empty(), bids: Seq::empty() }
}

/// Price priority between two levels of one side: on the ask side the
/// cheaper level is better, on the bid side the higher one.
pub open spec fn spec_better_price(side: BidOrAsk, a: u64, b: u64) -> bool {
    match side {
        BidOrAsk::Ask => a < b,
        BidOrAsk::Bid => a > b,
    }
}

/// A well-formed book side: levels stand in strict price-priority order,
/// best first (so prices are unique), and every resident order is on that
/// side with strictly positive remaining size.
pub open spec fn spec_side_wf(levels: Seq<LimitView>, side: BidOrAsk) -> bool {
    &&& forall|i: int, j: int|
        0 <= i < j < levels.len() ==> #[trigger] spec_better_price(
            side,
            levels[i].price,
            levels[j].price,
        )
    &&& forall|i: int, j: int|
        0 <= i < levels.len() && 0 <= j < levels[i].orders.len() ==> (#[trigger] levels[i].orders[j]).bid_or_ask
            == side && levels[i].orders[j].size > 0
}

/// Adding a resting order to one side: joins the queue of the level with
/// its price if one exists, else a new level is created for it at its
/// price-priority position.
pub open spec fn spec_side_add(
    levels: Seq<LimitView>,
    side: BidOrAsk,
    price: u64,
    order: Order,
) -> Seq<LimitView>
    decreases levels.len(),
{
    if levels.len() == 0 {
        seq![LimitView { price, orders: seq![order] }]
    } else if levels[0].price == price {
        seq![LimitView { price, orders: levels[0].orders.push(order) }] + levels.drop_first()
    } else if spec_better_price(side, price, levels[0].price) {
        seq![LimitView { price, orders: seq![order] }] + levels
    } else {
        seq![levels[0]] + spec_side_add(levels.drop_first(), side, price, order)
    }
}

/// `spec_side_add` keeps a side well formed, when the order belongs to
/// that side and has positive size; and every level it leaves behind has
/// either the added price or a price the side already had.
pub proof fn lemma_side_add_wf(levels: Seq<LimitView>, side: BidOrAsk, price: u64, order: Order)
    requires
        spec_side_wf(levels, side),
        order.bid_or_ask == side,
        order.size > 0,
    ensures
        spec_side_wf(spec_side_add(levels, side, price, order), side),
        ({
            let r = spec_side_add(levels, side, price, order);
            forall|k: int|
                0 <= k < r.len() ==> (#[trigger] r[k]).price == price || exists|i: int|
                    0 <= i < levels.len() && r[k].price == levels[i].price
        }),
    decreases levels.len(),
{
    let r = spec_side_add(levels, side, price, order);
    if levels.len() == 0 {
        assert(r[0].orders[0] == order);
    } else if levels[0].price == price {
        assert(r =~= seq![
            LimitView { price, orders: levels[0].orders.push(order) },
        ] + levels.drop_first());
        assert forall|i: int, j: int| 0 <= i < j < r.len() implies #[trigger] spec_better_price(
            side,
            r[i].price,
            r[j].price,
        ) by {
            assert(spec_better_price(side, levels[i].price, levels[j].price));
        }
        assert forall|i: int, j: int|
            0 <= i < r.len() && 0 <= j < r[i].orders.len() implies (#[trigger] r[i].orders[j]).bid_or_ask
            == side && r[i].orders[j].size > 0 by {
            if i == 0 {
                if j < levels[0].orders.len() {
                    assert(levels[0].orders[j].bid_or_ask == side && levels[0].orders[j].size > 0);
                } else {
                    assert(r[0].orders[j] == order);
                }
            } else {
                assert(levels[i].orders[j].bid_or_ask == side && levels[i].orders[j].size > 0);
            }
        }
        assert forall|k: int| 0 <= k < r.len() implies (#[trigger] r[k]).price == price || exists|
            i: int,
        | 0 <= i < levels.len() && r[k].price == levels[i].price by {
            if k > 0 {
                assert(r[k].price == levels[k].price);
            }
        }
    } else if spec_better_price(side, price, levels[0].price) {
        assert(r =~= seq![LimitView { price, orders: seq![order] }] + levels);
        assert forall|i: int, j: int| 0 <= i < j < r.len() implies #[trigger] spec_better_price(
            side,
            r[i].price,
            r[j].price,
        ) by {
            if i == 0 {
                if j > 1 {
                    assert(spec_better_price(side, levels[0].price, levels[j - 1].price));
                }
            } else {
                assert(spec_better_price(side, levels[i - 1].price, levels[j - 1].price));
            }
        }
        assert forall|i: int, j: int|
            0 <= i < r.len() && 0 <= j < r[i].orders.len() implies (#[trigger] r[i].orders[j]).bid_or_ask
            == side && r[i].orders[j].size > 0 by {
            if i == 0 {
                assert(r[0].orders[0] == order);
            } else {
                assert(levels[i - 1].orders[j].bid_or_ask == side && levels[i - 1].orders[j].size
                    > 0);
            }
        }
        assert forall|k: int| 0 <= k < r.len() implies (#[trigger] r[k]).price == price || exists|
            i: int,
        | 0 <= i < levels.len() && r[k].price == levels[i].price by {
            if k > 0 {
                assert(r[k].price == levels[k - 1].price);
            }
        }
    } else {
        let tail = levels.drop_first();
        assert(spec_side_wf(tail, side)) by {
            assert forall|i: int, j: int| 0 <= i < j < tail.len() implies #[trigger] spec_better_price(
                side,
                tail[i].price,
                tail[j].price,
            ) by {
                assert(spec_better_price(side, levels[i + 1].price, levels[j + 1].price));
            }
            assert forall|i: int, j: int|
                0 <= i < tail.len() && 0 <= j < tail[i].orders.len() implies (#[trigger] tail[i].orders[j]).bid_or_ask
                == side && tail[i].orders[j].size > 0 by {
                assert(levels[i + 1].orders[j].bid_or_ask == side && levels[i + 1].orders[j].size
                    > 0);
            }
        }
        lemma_side_add_wf(tail, side, price, order);
        let rr = spec_side_add(tail, side, price, order);
        assert(r =~= seq![levels[0]] + rr);
        assert(spec_better_price(side, levels[0].price, price));
        assert forall|i: int, j: int| 0 <= i < j < r.len() implies #[trigger] spec_better_price(
            side,
            r[i].price,
            r[j].price,
        ) by {
            if i == 0 {
                assert(r[j] == rr[j - 1]);
                if rr[j - 1].price == price {
                } else {
                    let w = choose|w: int| 0 <= w < tail.len() && rr[j - 1].price == tail[w].price;
                    assert(spec_better_price(side, levels[0].price, levels[w + 1].price));
                }
            } else {
                assert(spec_better_price(side, rr[i - 1].price, rr[j - 1].price));
            }
        }
        assert forall|i: int, j: int|
            0 <= i < r.len() && 0 <= j < r[i].orders.len() implies (#[trigger] r[i].orders[j]).bid_or_ask
            == side && r[i].orders[j].size > 0 by {
            if i == 0 {
                assert(levels[0].orders[j].bid_or_ask == side && levels[0].orders[j].size > 0);
            } else {
                assert(rr[i - 1].orders[j].bid_or_ask == side && rr[i - 1].orders[j].size > 0);
            }
        }
        assert forall|k: int| 0 <= k < r.len() implies (#[trigger] r[k]).price == price || exists|
            i: int,
        | 0 <= i < levels.len() && r[k].price == levels[i].price by {
            if k == 0 {
                assert(r[k].price == levels[0].price);
            } else if rr[k - 1].price == price {
            } else {
                let w = choose|w: int| 0 <= w < tail.len() && rr[k - 1].price == tail[w].price;
                assert(r[k].price == levels[w + 1].price);
            }
        }
    }
}

/// On a sorted side, `spec_side_add` acts at the first position `i` whose
/// level is not better-priced than the new order: it joins that level's
/// queue when the prices are equal, and otherwise becomes a new level
/// inserted just before it.
proof fn lemma_side_add_at(
    levels: Seq<LimitView>,
    side: BidOrAsk,
    price: u64,
    order: Order,
    i: int,
)
    requires
        0 <= i <= levels.len(),
        forall|k: int| 0 <= k < i ==> spec_better_price(side, (#[trigger] levels[k]).price, price),
        i < levels.len() ==> !spec_better_price(side, levels[i].price, price),
    ensures
        i < levels.len() && levels[i].price == price ==> spec_side_add(levels, side, price, order)
            == levels.update(i, LimitView { price, orders: levels[i].orders.push(order) }),
        !(i < levels.len() && levels[i].price == price) ==> spec_side_add(levels, side, price, order)
            == levels.insert(i, LimitView { price, orders: seq![order] }),
    decreases i,
{
    if levels.len() == 0 {
        assert(spec_side_add(levels, side, price, order) =~= levels.insert(
            0,
            LimitView { price, orders: seq![order] },
        ));
    } else if i == 0 {
        if levels[0].price == price {
            assert(spec_side_add(levels, side, price, order) =~= levels.update(
                0,
                LimitView { price, orders: levels[0].orders.push(order) },
            ));
        } else {
            assert(spec_better_price(side, price, levels[0].price));
            assert(spec_side_add(levels, side, price, order) =~= levels.insert(
                0,
                LimitView { price, orders: seq![order] },
            ));
        }
    } else {
        assert(spec_better_price(side, levels[0].price, price));
        let tail = levels.drop_first();
        assert forall|k: int| 0 <= k < i - 1 implies spec_better_price(
            side,
            (#[trigger] tail[k]).price,
            price,
        ) by {
            assert(spec_better_price(side, levels[k + 1].price, price));
        }
        lemma_side_add_at(tail, side, price, order, i - 1);
        if i < levels.len() && levels[i].price == price {
            assert(seq![levels[0]] + tail.update(
                i - 1,
                LimitView { price, orders: tail[i - 1].orders.push(order) },
            ) =~= levels.update(i, LimitView { price, orders: levels[i].orders.push(order) }));
        } else {
            assert(seq![levels[0]] + tail.insert(i - 1, LimitView { price, orders: seq![order] })
                =~= levels.insert(i, LimitView { price, orders: seq![order] }));
        }
    }
}

/// Exact price-priority comparison between two level prices of one side.
pub fn better_price(side: BidOrAsk, a: u64, b: u64) -> (r: bool)
    ensures
        r == spec_better_price(side, a, b),
{
    match side {
        BidOrAsk::Ask => a < b,
        BidOrAsk::Bid => a > b,
    }
}

/// Routes a resting order into one side's level vector, keeping the side
/// sorted by price priority: the level with the order's price takes it at
/// the back of its queue, or a fresh level is inserted in position.
fn side_insert(levels: &mut Vec<Limit>, side: BidOrAsk, price: u64, order: Order)
    requires
        spec_side_wf(old(levels)@.map_values(|l: Limit| l@), side),
        order.bid_or_ask == side,
        order.size > 0,
    ensures
        final(levels)@.map_values(|l: Limit| l@) == spec_side_add(
            old(levels)@.map_values(|l: Limit| l@),
            side,
            price,
            order,
        ),
        spec_side_wf(final(levels)@.map_values(|l: Limit| l@), side),
{
    let ghost lv = old(levels)@.map_values(|l: Limit| l@);
    let mut i: usize = 0;
    while i < levels.len() && better_price(side, levels[i].price, price)
        invariant
            0 <= i <= levels.len(),
            lv == levels@.map_values(|l: Limit| l@),
            forall|k: int| 0 <= k < i ==> spec_better_price(side, (#[trigger] lv[k]).price, price),
        decreases levels.len() - i,
    {
        proof {
            assert(lv[i as int].price == levels@[i as int]@.price);
        }
        i = i + 1;
    }
    proof {
        lemma_side_add_at(lv, side, price, order, i as int);
        lemma_side_add_wf(lv, side, price, order);
    }
    if i < levels.len() && levels[i].price == price {
        let lvl = &mut levels[i];
        lvl.add_order(order);
        proof {
            assert(levels@.map_values(|l: Limit| l@) =~= lv.update(
                i as int,
                LimitView { price, orders: lv[i as int].orders.push(order) },
            ));
        }
    } else {
        let mut lvl = Limit::new(price);
        lvl.add_order(order);
        levels.insert(i, lvl);
        proof {
            assert(lvl@.orders =~= seq![order]);
            assert(levels@.map_values(|l: Limit| l@) =~= lv.insert(
                i as int,
                LimitView { price, orders: seq![order] },
            ));
        }
    }
}

/// Monotonic size, at one price level: a fill never increases any order's
/// remaining size (sizes are unsigned, so none goes negative), never
/// changes an order's identity or side, and touches residents strictly in
/// time priority: the survivors are a suffix of the queue, all of them
/// unchanged except possibly the front one, whose size may have shrunk.
pub proof fn lemma_level_fill_monotonic(orders: Seq<Order>, incoming: Order, price: u64)
    ensures
        ({
            let r = spec_level_fill(orders, incoming, price);
            let k = orders.len() - r.orders.len();
            &&& r.incoming.id == incoming.id
            &&& r.incoming.bid_or_ask == incoming.bid_or_ask
            &&& r.incoming.size <= incoming.size
            &&& 0 <= k <= orders.len()
            &&& forall|j: int|
                0 <= j < r.orders.len() ==> (#[trigger] r.orders[j]).id == orders[k + j].id
                    && r.orders[j].bid_or_ask == orders[k + j].bid_or_ask && r.orders[j].size
                    <= orders[k + j].size
            &&& forall|j: int| 1 <= j < r.orders.len() ==> #[trigger] r.orders[j] == orders[k + j]
        }),
    decreases orders.len(),
{
    let r = spec_level_fill(orders, incoming, price);
    if incoming.size == 0 || orders.len() == 0 {
    } else {
        let front = orders[0];
        let shares = if incoming.size >= front.size {
            front.size
        } else {
            incoming.size
        };
        let incoming2 = Order {
            id: incoming.id,
            bid_or_ask: incoming.bid_or_ask,
            size: (incoming.size - shares) as u64,
        };
        if front.size == shares {
            lemma_level_fill_monotonic(orders.drop_first(), incoming2, price);
            let rr = spec_level_fill(orders.drop_first(), incoming2, price);
            let k = orders.len() - r.orders.len();
            assert forall|j: int| 0 <= j < r.orders.len() implies (#[trigger] r.orders[j]).id
                == orders[k + j].id && r.orders[j].bid_or_ask == orders[k + j].bid_or_ask
                && r.orders[j].size <= orders[k + j].size by {
                assert(orders[k + j] == orders.drop_first()[k - 1 + j]);
            }
            assert forall|j: int| 1 <= j < r.orders.len() implies #[trigger] r.orders[j]
                == orders[k + j] by {
                assert(orders[k + j] == orders.drop_first()[k - 1 + j]);
            }
        }
    }
}

/// Whether a level's price is acceptable to an incoming order of side
/// `side` under `limit_price`: a market order (no limit) accepts every
/// price; a limit bid buys at or below its limit, a limit ask sells at or
/// above its limit.
pub open spec fn spec_price_ok(side: BidOrAsk, price: u64, limit_price: Option<u64>) -> bool {
    match limit_price {
        Option::None => true,
        Option::Some(lp) => match side {
            BidOrAsk::Bid => price <= lp,
            BidOrAsk::Ask => price >= lp,
        },
    }
}

/// The outcome of matching one incoming order against a whole side: the
/// side's levels afterwards (levels stay in place, emptied or not), the
/// incoming order as it stands, and all executions in the order they were
/// emitted.
pub struct BookFillResult {
    pub levels: Seq<LimitView>,
    pub incoming: Order,
    pub execs: Seq<Execution>,
}

/// Matching against a side's levels in their stored order, which a
/// well-formed book keeps in price priority (best first): each acceptable
/// level is consumed FIFO by [`spec_level_fill`]; the walk halts as soon
/// as the incoming order is filled or a level's price is unacceptable.
/// On a sorted side the levels beyond the first unacceptable one are all
/// unacceptable too, so they are excluded from the walk entirely.
pub open spec fn spec_book_fill(
    levels: Seq<LimitView>,
    incoming: Order,
    limit_price: Option<u64>,
) -> BookFillResult
    decreases levels.len(),
{
    if incoming.size == 0 || levels.len() == 0 || !spec_price_ok(
        incoming.bid_or_ask,
        levels[0].price,
        limit_price,
    ) {
        BookFillResult { levels, incoming, execs: Seq::empty() }
    } else {
        let l = spec_level_fill(levels[0].orders, incoming, levels[0].price);
        let rest = spec_book_fill(levels.drop_first(), l.incoming, limit_price);
        BookFillResult {
            levels: seq![LimitView { price: levels[0].price, orders: l.orders }] + rest.levels,
            incoming: rest.incoming,
            execs: l.execs + rest.execs,
        }
    }
}

/// A level fill leaves only residents of the level's own side with
/// strictly positive remaining size: a resident whose size reaches zero
/// is evicted on the spot.
pub proof fn lemma_level_fill_wf(orders: Seq<Order>, incoming: Order, price: u64, side: BidOrAsk)
    requires
        forall|j: int|
            0 <= j < orders.len() ==> (#[trigger] orders[j]).bid_or_ask == side && orders[j].size
                > 0,
    ensures
        ({
            let r = spec_level_fill(orders, incoming, price);
            forall|j: int|
                0 <= j < r.orders.len() ==> (#[trigger] r.orders[j]).bid_or_ask == side
                    && r.orders[j].size > 0
        }),
    decreases orders.len(),
{
    let r = spec_level_fill(orders, incoming, price);
    if incoming.size == 0 || orders.len() == 0 {
    } else {
        let front = orders[0];
        let shares = if incoming.size >= front.size {
            front.size
        } else {
            incoming.size
        };
        let incoming2 = Order {
            id: incoming.id,
            bid_or_ask: incoming.bid_or_ask,
            size: (incoming.size - shares) as u64,
        };
        if front.size == shares {
            assert forall|j: int| 0 <= j < orders.drop_first().len() implies (
            #[trigger] orders.drop_first()[j]).bid_or_ask == side && orders.drop_first()[j].size
                > 0 by {
                assert(orders[j + 1].bid_or_ask == side && orders[j + 1].size > 0);
            }
            lemma_level_fill_wf(orders.drop_first(), incoming2, price, side);
        }
    }
}

/// A book fill never creates or destroys levels, never moves or reprices
/// one, and never gives the incoming order a new identity, side, or a
/// larger size.
pub proof fn lemma_book_fill_shape(levels: Seq<LimitView>, incoming: Order, limit_price: Option<u64>)
    ensures
        ({
            let r = spec_book_fill(levels, incoming, limit_price);
            &&& r.levels.len() == levels.len()
            &&& forall|i: int|
                0 <= i < levels.len() ==> (#[trigger] r.levels[i]).price == levels[i].price
            &&& r.incoming.id == incoming.id
            &&& r.incoming.bid_or_ask == incoming.bid_or_ask
            &&& r.incoming.size <= incoming.size
        }),
    decreases levels.len(),
{
    let r = spec_book_fill(levels, incoming, limit_price);
    if incoming.size == 0 || levels.len() == 0 || !spec_price_ok(
        incoming.bid_or_ask,
        levels[0].price,
        limit_price,
    ) {
    } else {
        let l = spec_level_fill(levels[0].orders, incoming, levels[0].price);
        lemma_level_fill_monotonic(levels[0].orders, incoming, levels[0].price);
        lemma_book_fill_shape(levels.drop_first(), l.incoming, limit_price);
        assert forall|i: int| 0 <= i < levels.len() implies (#[trigger] r.levels[i]).price
            == levels[i].price by {
            if i > 0 {
                let rest = spec_book_fill(levels.drop_first(), l.incoming, limit_price);
                assert(r.levels[i] == rest.levels[i - 1]);
                assert(rest.levels[i - 1].price == levels.drop_first()[i - 1].price);
            }
        }
    }
}

/// A book fill keeps a well-formed side well formed: prices and their
/// order are untouched, and every level's queue is still uniform in side
/// with positive sizes.
pub proof fn lemma_book_fill_wf(
    levels: Seq<LimitView>,
    incoming: Order,
    limit_price: Option<u64>,
    side: BidOrAsk,
)
    requires
        spec_side_wf(levels, side),
    ensures
        spec_side_wf(spec_book_fill(levels, incoming, limit_price).levels, side),
    decreases levels.len(),
{
    let r = spec_book_fill(levels, incoming, limit_price);
    lemma_book_fill_shape(levels, incoming, limit_price);
    assert forall|i: int, j: int| 0 <= i < j < r.levels.len() implies #[trigger] spec_better_price(
        side,
        r.levels[i].price,
        r.levels[j].price,
    ) by {
        assert(spec_better_price(side, levels[i].price, levels[j].price));
    }
    if incoming.size == 0 || levels.len() == 0 || !spec_price_ok(
        incoming.bid_or_ask,
        levels[0].price,
        limit_price,
    ) {
    } else {
        let l = spec_level_fill(levels[0].orders, incoming, levels[0].price);
        let tail = levels.drop_first();
        assert(spec_side_wf(tail, side)) by {
            assert forall|i: int, j: int| 0 <= i < j < tail.len() implies #[trigger] spec_better_price(
                side,
                tail[i].price,
                tail[j].price,
            ) by {
                assert(spec_better_price(side, levels[i + 1].price, levels[j + 1].price));
            }
            assert forall|i: int, j: int|
                0 <= i < tail.len() && 0 <= j < tail[i].orders.len() implies (#[trigger] tail[i].orders[j]).bid_or_ask
                == side && tail[i].orders[j].size > 0 by {
                assert(levels[i + 1].orders[j].bid_or_ask == side && levels[i + 1].orders[j].size
                    > 0);
            }
        }
        assert forall|j: int| 0 <= j < levels[0].orders.len() implies (
        #[trigger] levels[0].orders[j]).bid_or_ask == side && levels[0].orders[j].size > 0 by {}
        lemma_level_fill_wf(levels[0].orders, incoming, levels[0].price, side);
        lemma_book_fill_wf(tail, l.incoming, limit_price, side);
        let rest = spec_book_fill(tail, l.incoming, limit_price);
        assert forall|i: int, j: int|
            0 <= i < r.levels.len() && 0 <= j < r.levels[i].orders.len() implies (#[trigger] r.levels[i].orders[j]).bid_or_ask
            == side && r.levels[i].orders[j].size > 0 by {
            if i == 0 {
                assert(r.levels[0].orders == l.orders);
            } else {
                assert(r.levels[i] == rest.levels[i - 1]);
                assert(rest.levels[i - 1].orders[j].bid_or_ask == side && rest.levels[i
                    - 1].orders[j].size > 0);
            }
        }
    }
}

/// The quantity a run of executions attributes to the aggressing order:
/// executions stand in pairs, the aggressor's record first in each pair.
pub open spec fn spec_aggressor_total(execs: Seq<Execution>) -> int
    decreases execs.len(),
{
    if execs.len() < 2 {
        0
    } else {
        execs[0].size + spec_aggressor_total(execs.skip(2))
    }
}

/// The quantity a run of executions attributes to the resting orders:
/// the second record of each pair.
pub open spec fn spec_resident_total(execs: Seq<Execution>) -> int
    decreases execs.len(),
{
    if execs.len() < 2 {
        0
    } else {
        execs[1].size + spec_resident_total(execs.skip(2))
    }
}

proof fn lemma_totals_nonneg(execs: Seq<Execution>)
    ensures
        spec_aggressor_total(execs) >= 0,
        spec_resident_total(execs) >= 0,
    decreases execs.len(),
{
    if execs.len() >= 2 {
        lemma_totals_nonneg(execs.skip(2));
    }
}

proof fn lemma_totals_concat(a: Seq<Execution>, b: Seq<Execution>)
    requires
        a.len() % 2 == 0,
    ensures
        spec_aggressor_total(a + b) == spec_aggressor_total(a) + spec_aggressor_total(b),
        spec_resident_total(a + b) == spec_resident_total(a) + spec_resident_total(b),
    decreases a.len(),
{
    if a.len() == 0 {
        assert(a + b =~= b);
    } else {
        assert((a + b).skip(2) =~= a.skip(2) + b);
        assert((a + b)[0] == a[0] && (a + b)[1] == a[1]);
        lemma_totals_concat(a.skip(2), b);
    }
}

/// A queue's volume seen from its front.
proof fn lemma_volume_drop_first(s: Seq<Order>)
    requires
        s.len() > 0,
    ensures
        spec_volume(s) == s[0].size + spec_volume(s.drop_first()),
    decreases s.len(),
{
    if s.len() == 1 {
        assert(s.drop_first() =~= Seq::<Order>::empty());
        assert(s.drop_last() =~= Seq::<Order>::empty());
    } else {
        lemma_volume_drop_first(s.drop_last());
        assert(s.drop_last().drop_first() =~= s.drop_first().drop_last());
        assert(s.drop_first().last() == s.last());
        assert(s.drop_last()[0] == s[0]);
    }
}

/// Conservation, at one price level: executions come in aggressor/resident
/// pairs; the quantity attributed to the incoming order is exactly its
/// size decrease, the quantity attributed to the residents is exactly the
/// level's volume decrease, and the two are equal.
pub proof fn lemma_level_fill_conservation(orders: Seq<Order>, incoming: Order, price: u64)
    ensures
        ({
            let r = spec_level_fill(orders, incoming, price);
            &&& r.execs.len() % 2 == 0
            &&& spec_aggressor_total(r.execs) == incoming.size - r.incoming.size
            &&& spec_resident_total(r.execs) == spec_volume(orders) - spec_volume(r.orders)
            &&& spec_aggressor_total(r.execs) == spec_resident_total(r.execs)
        }),
    decreases orders.len(),
{
    let r = spec_level_fill(orders, incoming, price);
    if incoming.size == 0 || orders.len() == 0 {
    } else {
        let front = orders[0];
        let shares = if incoming.size >= front.size {
            front.size
        } else {
            incoming.size
        };
        let step = spec_exec_pair(incoming, front, shares, price);
        let incoming2 = Order {
            id: incoming.id,
            bid_or_ask: incoming.bid_or_ask,
            size: (incoming.size - shares) as u64,
        };
        lemma_volume_drop_first(orders);
        assert(step.skip(2) =~= Seq::<Execution>::empty());
        assert(spec_aggressor_total(step.skip(2)) == 0);
        assert(spec_resident_total(step.skip(2)) == 0);
        assert(spec_aggressor_total(step) == shares);
        assert(spec_resident_total(step) == shares);
        if front.size == shares {
            lemma_level_fill_conservation(orders.drop_first(), incoming2, price);
            let rest = spec_level_fill(orders.drop_first(), incoming2, price);
            lemma_totals_concat(step, rest.execs);
        } else {
            let front2 = Order {
                id: front.id,
                bid_or_ask: front.bid_or_ask,
                size: (front.size - shares) as u64,
            };
            assert(orders.update(0, front2).drop_first() =~= orders.drop_first());
            lemma_volume_drop_first(orders.update(0, front2));
        }
    }
}

/// The sum of all resting quantity across a side's levels.
pub open spec fn spec_side_volume(levels: Seq<LimitView>) -> int
    decreases levels.len(),
{
    if levels.len() == 0 {
        0
    } else {
        spec_volume(levels[0].orders) + spec_side_volume(levels.drop_first())
    }
}

/// Conservation, across a whole fill: as at one level, but against the
/// side's total resting volume.
pub proof fn lemma_book_fill_conservation(
    levels: Seq<LimitView>,
    incoming: Order,
    limit_price: Option<u64>,
)
    ensures
        ({
            let r = spec_book_fill(levels, incoming, limit_price);
            &&& r.execs.len() % 2 == 0
            &&& spec_aggressor_total(r.execs) == incoming.size - r.incoming.size
            &&& spec_resident_total(r.execs) == spec_side_volume(levels) - spec_side_volume(
                r.levels,
            )
            &&& spec_aggressor_total(r.execs) == spec_resident_total(r.execs)
        }),
    decreases levels.len(),
{
    let r = spec_book_fill(levels, incoming, limit_price);
    if incoming.size == 0 || levels.len() == 0 || !spec_price_ok(
        incoming.bid_or_ask,
        levels[0].price,
        limit_price,
    ) {
    } else {
        let l = spec_level_fill(levels[0].orders, incoming, levels[0].price);
        let rest = spec_book_fill(levels.drop_first(), l.incoming, limit_price);
        lemma_level_fill_conservation(levels[0].orders, incoming, levels[0].price);
        lemma_book_fill_conservation(levels.drop_first(), l.incoming, limit_price);
        lemma_totals_concat(l.execs, rest.execs);
        let first = LimitView { price: levels[0].price, orders: l.orders };
        assert((seq![first] + rest.levels).drop_first() =~= rest.levels);
        assert(spec_side_volume(r.levels) == spec_volume(l.orders) + spec_side_volume(rest.levels));
    }
}

/// Monotonic size, across a whole fill: the incoming order's remaining
/// size never grows, and no level's resting volume does either; within
/// each touched level `lemma_level_fill_monotonic` already confines every
/// change to a decrease.
pub proof fn lemma_book_fill_monotonic(
    levels: Seq<LimitView>,
    incoming: Order,
    limit_price: Option<u64>,
)
    ensures
        ({
            let r = spec_book_fill(levels, incoming, limit_price);
            &&& r.incoming.size <= incoming.size
            &&& forall|i: int|
                0 <= i < levels.len() ==> spec_volume((#[trigger] r.levels[i]).orders)
                    <= spec_volume(levels[i].orders)
        }),
    decreases levels.len(),
{
    let r = spec_book_fill(levels, incoming, limit_price);
    lemma_book_fill_shape(levels, incoming, limit_price);
    if incoming.size == 0 || levels.len() == 0 || !spec_price_ok(
        incoming.bid_or_ask,
        levels[0].price,
        limit_price,
    ) {
    } else {
        let l = spec_level_fill(levels[0].orders, incoming, levels[0].price);
        let rest = spec_book_fill(levels.drop_first(), l.incoming, limit_price);
        lemma_level_fill_conservation(levels[0].orders, incoming, levels[0].price);
        lemma_totals_nonneg(l.execs);
        lemma_book_fill_monotonic(levels.drop_first(), l.incoming, limit_price);
        assert forall|i: int| 0 <= i < levels.len() implies spec_volume(
            (#[trigger] r.levels[i]).orders,
        ) <= spec_volume(levels[i].orders) by {
            if i > 0 {
                assert(r.levels[i] == rest.levels[i - 1]);
                assert(spec_volume(rest.levels[i - 1].orders) <= spec_volume(
                    levels.drop_first()[i - 1].orders,
                ));
            }
        }
    }
}

/// Idempotent no-op on a filled order: the fill path applied to an order
/// whose size is already zero emits no executions and changes nothing.
pub proof fn lemma_fill_filled_order_noop(
    levels: Seq<LimitView>,
    incoming: Order,
    limit_price: Option<u64>,
)
    requires
        incoming.size == 0,
    ensures
        ({
            let r = spec_book_fill(levels, incoming, limit_price);
            &&& r.levels == levels
            &&& r.incoming == incoming
            &&& r.execs == Seq::<Execution>::empty()
        }),
{
}

/// Limit price boundary: from the first level whose price is unacceptable
/// onwards, a fill leaves every level entirely untouched.
pub proof fn lemma_book_fill_untouched(
    levels: Seq<LimitView>,
    incoming: Order,
    limit_price: Option<u64>,
    i: int,
)
    requires
        0 <= i < levels.len(),
        !spec_price_ok(incoming.bid_or_ask, levels[i].price, limit_price),
    ensures
        ({
            let r = spec_book_fill(levels, incoming, limit_price);
            forall|j: int| i <= j < levels.len() ==> #[trigger] r.levels[j] == levels[j]
        }),
    decreases levels.len(),
{
    let r = spec_book_fill(levels, incoming, limit_price);
    if incoming.size == 0 || levels.len() == 0 || !spec_price_ok(
        incoming.bid_or_ask,
        levels[0].price,
        limit_price,
    ) {
    } else {
        let l = spec_level_fill(levels[0].orders, incoming, levels[0].price);
        let rest = spec_book_fill(levels.drop_first(), l.incoming, limit_price);
        lemma_level_fill_monotonic(levels[0].orders, incoming, levels[0].price);
        lemma_book_fill_shape(levels.drop_first(), l.incoming, limit_price);
        assert(levels.drop_first()[i - 1] == levels[i]);
        lemma_book_fill_untouched(levels.drop_first(), l.incoming, limit_price, i - 1);
        assert forall|j: int| i <= j < levels.len() implies #[trigger] r.levels[j] == levels[j] by {
            assert(r.levels[j] == rest.levels[j - 1]);
            assert(rest.levels[j - 1] == levels.drop_first()[j - 1]);
        }
    }
}

/// A level fill leaves a nonempty queue only when the incoming order came
/// out filled.
proof fn lemma_level_fill_exhausts(orders: Seq<Order>, incoming: Order, price: u64)
    ensures
        ({
            let r = spec_level_fill(orders, incoming, price);
            r.incoming.size > 0 ==> r.orders.len() == 0
        }),
    decreases orders.len(),
{
    if incoming.size == 0 || orders.len() == 0 {
    } else {
        let front = orders[0];
        let shares = if incoming.size >= front.size {
            front.size
        } else {
            incoming.size
        };
        let incoming2 = Order {
            id: incoming.id,
            bid_or_ask: incoming.bid_or_ask,
            size: (incoming.size - shares) as u64,
        };
        if front.size == shares {
            lemma_level_fill_exhausts(orders.drop_first(), incoming2, price);
        }
    }
}

/// Price priority: the walk consumes levels strictly in stored order —
/// which a well-formed book keeps best-priced first — so a level is
/// touched only after every level before it has been emptied.
pub proof fn lemma_book_fill_price_priority(
    levels: Seq<LimitView>,
    incoming: Order,
    limit_price: Option<u64>,
    i: int,
)
    requires
        0 <= i < levels.len(),
    ensures
        ({
            let r = spec_book_fill(levels, incoming, limit_price);
            r.levels[i] != levels[i] ==> forall|j: int|
                0 <= j < i ==> (#[trigger] r.levels[j]).orders.len() == 0
        }),
    decreases levels.len(),
{
    let r = spec_book_fill(levels, incoming, limit_price);
    if incoming.size == 0 || levels.len() == 0 || !spec_price_ok(
        incoming.bid_or_ask,
        levels[0].price,
        limit_price,
    ) {
    } else if i == 0 {
    } else {
        let l = spec_level_fill(levels[0].orders, incoming, levels[0].price);
        let rest = spec_book_fill(levels.drop_first(), l.incoming, limit_price);
        lemma_level_fill_exhausts(levels[0].orders, incoming, levels[0].price);
        lemma_book_fill_shape(levels.drop_first(), l.incoming, limit_price);
        lemma_book_fill_price_priority(levels.drop_first(), l.incoming, limit_price, i - 1);
        if r.levels[i] != levels[i] {
            assert(r.levels[i] == rest.levels[i - 1]);
            assert(levels.drop_first()[i - 1] == levels[i]);
            assert(rest.levels[i - 1] != levels.drop_first()[i - 1]);
            if l.incoming.size == 0 {
                assert(rest.levels[i - 1] == levels.drop_first()[i - 1]);
            }
            assert(l.orders.len() == 0);
            assert forall|j: int| 0 <= j < i implies (#[trigger] r.levels[j]).orders.len()
                == 0 by {
                if j == 0 {
                    assert(r.levels[0].orders == l.orders);
                } else {
                    assert(r.levels[j] == rest.levels[j - 1]);
                    assert(rest.levels[j - 1].orders.len() == 0);
                }
            }
        }
    }
}

/// Exact acceptability test of one level's price for an incoming order.
pub fn price_ok(side: BidOrAsk, price: u64, limit_price: Option<u64>) -> (r: bool)
    ensures
        r == spec_price_ok(side, price, limit_price),
{
    match limit_price {
        Option::None => true,
        Option::Some(lp) => match side {
            BidOrAsk::Bid => price <= lp,
            BidOrAsk::Ask => price >= lp,
        },
    }
}

/// Walks one side's levels in stored order, consuming the incoming order
/// level by level until it is filled, the side is exhausted, or the next
/// level's price is unacceptable. Emptied levels stay in place.
#[verifier::rlimit(50)]
fn side_fill(levels: &mut Vec<Limit>, order: &mut Order, limit_price: Option<u64>) -> (execs: Vec<
    Execution,
>)
    ensures
        ({
            let r = spec_book_fill(
                old(levels)@.map_values(|l: Limit| l@),
                *old(order),
                limit_price,
            );
            &&& final(levels)@.map_values(|l: Limit| l@) == r.levels
            &&& *final(order) == r.incoming
            &&& execs@ == r.execs
        }),
{
    let mut execs: Vec<Execution> = Vec::new();
    let mut i: usize = 0;
    let ghost lv0 = old(levels)@.map_values(|l: Limit| l@);
    let ghost orig_order = *order;
    let ghost r = spec_book_fill(lv0, orig_order, limit_price);
    proof {
        assert(lv0.skip(0) =~= lv0);
        assert(Seq::<LimitView>::empty() + r.levels =~= r.levels);
        assert(Seq::<Execution>::empty() + r.execs =~= r.execs);
    }
    while i < levels.len() && order.size != 0 && price_ok(
        order.bid_or_ask,
        levels[i].price,
        limit_price,
    )
        invariant
            0 <= i <= levels.len(),
            order.bid_or_ask == orig_order.bid_or_ask,
            r == spec_book_fill(lv0, orig_order, limit_price),
            ({
                let lv = levels@.map_values(|l: Limit| l@);
                let rest = spec_book_fill(lv.skip(i as int), *order, limit_price);
                &&& r.levels == lv.take(i as int) + rest.levels
                &&& r.incoming == rest.incoming
                &&& r.execs == execs@ + rest.execs
            }),
        decreases levels.len() - i,
    {
        let ghost pre_lv = levels@.map_values(|l: Limit| l@);
        let ghost pre_order = *order;
        let ghost pre_execs = execs@;
        let lvl = &mut levels[i];
        let mut step = lvl.fill_order(order);
        execs.append(&mut step);
        proof {
            let lv = levels@.map_values(|l: Limit| l@);
            let l = spec_level_fill(pre_lv[i as int].orders, pre_order, pre_lv[i as int].price);
            lemma_level_fill_monotonic(pre_lv[i as int].orders, pre_order, pre_lv[i as int].price);
            assert(lv =~= pre_lv.update(
                i as int,
                LimitView { price: pre_lv[i as int].price, orders: l.orders },
            ));
            assert(pre_lv.skip(i as int)[0] == pre_lv[i as int]);
            let rest_pre = spec_book_fill(pre_lv.skip(i as int), pre_order, limit_price);
            assert(pre_lv.skip(i as int).drop_first() =~= lv.skip(i + 1));
            let rest = spec_book_fill(lv.skip(i + 1), *order, limit_price);
            assert(rest_pre.levels =~= seq![
                LimitView { price: pre_lv[i as int].price, orders: l.orders },
            ] + rest.levels);
            assert(pre_lv.take(i as int) + rest_pre.levels =~= lv.take(i + 1) + rest.levels);
            assert(pre_execs + (l.execs + rest.execs) =~= execs@ + rest.execs);
        }
        i = i + 1;
    }
    proof {
        let lv = levels@.map_values(|l: Limit| l@);
        assert(spec_book_fill(lv.skip(i as int), *order, limit_price).levels == lv.skip(i as int));
        assert(lv.take(i as int) + lv.skip(i as int) =~= lv);
        assert(execs@ + Seq::<Execution>::empty() =~= execs@);
    }
    execs
}

/// The subsequence of a side's levels whose prices are acceptable to an
/// incoming order of side `side` under `limit_price`, in stored order.
pub open spec fn spec_acceptable(
    levels: Seq<LimitView>,
    side: BidOrAsk,
    limit_price: Option<u64>,
) -> Seq<LimitView>
    decreases levels.len(),
{
    if levels.len() == 0 {
        Seq::empty()
    } else if spec_price_ok(side, levels[0].price, limit_price) {
        seq![levels[0]] + spec_acceptable(levels.drop_first(), side, limit_price)
    } else {
        spec_acceptable(levels.drop_first(), side, limit_price)
    }
}

/// When the acceptable levels form a prefix, `spec_acceptable` is exactly
/// that prefix.
proof fn lemma_acceptable_prefix(
    levels: Seq<LimitView>,
    side: BidOrAsk,
    limit_price: Option<u64>,
    i: int,
)
    requires
        0 <= i <= levels.len(),
        forall|k: int|
            0 <= k < i ==> spec_price_ok(side, (#[trigger] levels[k]).price, limit_price),
        forall|k: int|
            i <= k < levels.len() ==> !spec_price_ok(side, (#[trigger] levels[k]).price, limit_price),
    ensures
        spec_acceptable(levels, side, limit_price) == levels.take(i),
    decreases levels.len(),
{
    if levels.len() == 0 {
        assert(levels.take(0) =~= levels);
    } else {
        let tail = levels.drop_first();
        if i == 0 {
            assert forall|k: int|
                0 <= k < tail.len() implies !spec_price_ok(
                side,
                (#[trigger] tail[k]).price,
                limit_price,
            ) by {
                assert(!spec_price_ok(side, levels[k + 1].price, limit_price));
            }
            lemma_acceptable_prefix(tail, side, limit_price, 0);
            assert(levels.take(0) =~= tail.take(0));
        } else {
            assert forall|k: int| 0 <= k < i - 1 implies spec_price_ok(
                side,
                (#[trigger] tail[k]).price,
                limit_price,
            ) by {
                assert(spec_price_ok(side, levels[k + 1].price, limit_price));
            }
            assert forall|k: int| i - 1 <= k < tail.len() implies !spec_price_ok(
                side,
                (#[trigger] tail[k]).price,
                limit_price,
            ) by {
                assert(!spec_price_ok(side, levels[k + 1].price, limit_price));
            }
            lemma_acceptable_prefix(tail, side, limit_price, i - 1);
            assert(seq![levels[0]] + tail.take(i - 1) =~= levels.take(i));
        }
    }
}

/// An exact copy of a price level.
fn clone_limit(l: &Limit) -> (r: Limit)
    ensures
        r@ == l@,
{
    let mut orders: Vec<Order> = Vec::new();
    let mut j: usize = 0;
    while j < l.orders.len()
        invariant
            0 <= j <= l.orders.len(),
            orders@ == l.orders@.take(j as int),
        decreases l.orders.len() - j,
    {
        orders.push(l.orders[j]);
        proof {
            assert(l.orders@.take(j as int).push(l.orders@[j as int]) =~= l.orders@.take(j + 1));
        }
        j = j + 1;
    }
    proof {
        assert(l.orders@.take(l.orders@.len() as int) =~= l.orders@);
    }
    Limit { price: l.price, orders }
}

/// Copies of one side's levels whose prices an incoming order of side
/// `incoming_side` may trade against, in the side's stored (price
/// priority) order.
fn side_limits(levels: &Vec<Limit>, incoming_side: BidOrAsk, limit_price: Option<u64>) -> (r: Vec<
    Limit,
>)
    requires
        spec_side_wf(levels@.map_values(|l: Limit| l@), spec_opposite(incoming_side)),
    ensures
        r@.map_values(|l: Limit| l@) == spec_acceptable(
            levels@.map_values(|l: Limit| l@),
            incoming_side,
            limit_price,
        ),
{
    let ghost lv = levels@.map_values(|l: Limit| l@);
    let mut r: Vec<Limit> = Vec::new();
    let mut i: usize = 0;
    while i < levels.len() && price_ok(incoming_side, levels[i].price, limit_price)
        invariant
            0 <= i <= levels.len(),
            lv == levels@.map_values(|l: Limit| l@),
            r@.map_values(|l: Limit| l@) == lv.take(i as int),
            forall|k: int|
                0 <= k < i ==> spec_price_ok(incoming_side, (#[trigger] lv[k]).price, limit_price),
        decreases levels.len() - i,
    {
        let c = clone_limit(&levels[i]);
        let ghost pre_map = r@.map_values(|l: Limit| l@);
        r.push(c);
        proof {
            assert(lv[i as int] == levels@[i as int]@);
            assert(c@ == lv[i as int]);
            assert(r@.map_values(|l: Limit| l@) =~= pre_map.push(c@));
            assert(pre_map.push(c@) =~= lv.take(i + 1));
        }
        i = i + 1;
    }
    proof {
        assert forall|k: int| i <= k < lv.len() implies !spec_price_ok(
            incoming_side,
            (#[trigger] lv[k]).price,
            limit_price,
        ) by {
            assert(!spec_price_ok(incoming_side, lv[i as int].price, limit_price));
            if k > i {
                assert(spec_better_price(
                    spec_opposite(incoming_side),
                    lv[i as int].price,
                    lv[k].price,
                ));
            }
        }
        lemma_acceptable_prefix(lv, incoming_side, limit_price, i as int);
    }
    r
}

/// The side that an incoming order trades against.
pub open spec fn spec_opposite(side: BidOrAsk) -> BidOrAsk {
    match side {
        BidOrAsk::Bid => BidOrAsk::Ask,
        BidOrAsk::Ask => BidOrAsk::Bid,
    }
}

/// A well-formed book value: both sides in strict price-priority order
/// with side-uniform, positive-size residents.
pub open spec fn spec_book_wf(b: BookView) -> bool {
    spec_side_wf(b.asks, BidOrAsk::Ask) && spec_side_wf(b.bids, BidOrAsk::Bid)
}

/// Adding a resting order to a book value: the order's own side gains it,
/// the other side is untouched.
pub open spec fn spec_book_add(b: BookView, price: u64, order: Order) -> BookView {
    match order.bid_or_ask {
        BidOrAsk::Bid => BookView {
            asks: b.asks,
            bids: spec_side_add(b.bids, BidOrAsk::Bid, price, order),
        },
        BidOrAsk::Ask => BookView {
            asks: spec_side_add(b.asks, BidOrAsk::Ask, price, order),
            bids: b.bids,
        },
    }
}

/// An order book: all resting liquidity of one market, as price levels
/// keyed by exact integer-tick prices, one collection per side, each kept
/// in price-priority order (asks cheapest first, bids highest first).
#[derive(Debug)]
pub struct OrderBook {
    pub asks: Vec<Limit>,
    pub bids: Vec<Limit>,
}

impl View for OrderBook {
    type V = BookView;

    open spec fn view(&self) -> BookView {
        BookView {
            asks: self.asks@.map_values(|l: Limit| l@),
            bids: self.bids@.map_values(|l: Limit| l@),
        }
    }
}

impl OrderBook {
    /// Both sides stand in price-priority order and hold only orders of
    /// their own side with positive remaining size.
    pub open spec fn wf(self) -> bool {
        spec_book_wf(self@)
    }

    pub fn new() -> (r: OrderBook)
        ensures
            r@ == spec_empty_book(),
            r.wf(),
    {
        let r = OrderBook { asks: Vec::new(), bids: Vec::new() };
        proof {
            assert(r@.asks =~= Seq::<LimitView>::empty());
            assert(r@.bids =~= Seq::<LimitView>::empty());
            assert(r@ =~= spec_empty_book());
        }
        r
    }

    /// Rests the order on its own side at `price`, with no matching: the
    /// level with that price takes it at the back of its queue, or a new
    /// level is created at its price-priority position. Always succeeds.
    pub fn add_limit_order(&mut self, price: u64, order: Order)
        requires
            old(self).wf(),
            order.size > 0,
        ensures
            final(self).wf(),
            final(self)@ == spec_book_add(old(self)@, price, order),
    {
        match order.bid_or_ask {
            BidOrAsk::Bid => {
                side_insert(&mut self.bids, BidOrAsk::Bid, price, order);
                proof {
                    assert(self@ =~= spec_book_add(old(self)@, price, order));
                }
            },
            BidOrAsk::Ask => {
                side_insert(&mut self.asks, BidOrAsk::Ask, price, order);
                proof {
                    assert(self@ =~= spec_book_add(old(self)@, price, order));
                }
            },
        }
    }

    /// Matches the incoming order against the opposite side in price
    /// priority — for a bid the asks cheapest first, for an ask the bids
    /// highest first, time priority within each level — consuming only
    /// levels whose prices are acceptable under `limit_price`, until the
    /// order is filled, the acceptable liquidity is exhausted. Emptied
    /// levels stay in place. Returns all executions, in order.
    pub fn fill_order(&mut self, order: &mut Order, limit_price: Option<u64>) -> (execs: Vec<
        Execution,
    >)
        requires
            old(self).wf(),
        ensures
            final(self).wf(),
            ({
                let r = match old(order).bid_or_ask {
                    BidOrAsk::Bid => spec_book_fill(old(self)@.asks, *old(order), limit_price),
                    BidOrAsk::Ask => spec_book_fill(old(self)@.bids, *old(order), limit_price),
                };
                &&& *final(order) == r.incoming
                &&& execs@ == r.execs
                &&& final(self)@ == match old(order).bid_or_ask {
                    BidOrAsk::Bid => BookView { asks: r.levels, bids: old(self)@.bids },
                    BidOrAsk::Ask => BookView { asks: old(self)@.asks, bids: r.levels },
                }
            }),
    {
        match order.bid_or_ask {
            BidOrAsk::Bid => {
                let execs = side_fill(&mut self.asks, order, limit_price);
                proof {
                    lemma_book_fill_wf(old(self)@.asks, *old(order), limit_price, BidOrAsk::Ask);
                    assert(self@ =~= (BookView {
                        asks: spec_book_fill(old(self)@.asks, *old(order), limit_price).levels,
                        bids: old(self)@.bids,
                    }));
                }
                execs
            },
            BidOrAsk::Ask => {
                let execs = side_fill(&mut self.bids, order, limit_price);
                proof {
                    lemma_book_fill_wf(old(self)@.bids, *old(order), limit_price, BidOrAsk::Bid);
                    assert(self@ =~= (BookView {
                        asks: old(self)@.asks,
                        bids: spec_book_fill(old(self)@.bids, *old(order), limit_price).levels,
                    }));
                }
                execs
            },
        }
    }

    /// Matches unconditionally, in full price priority, until the order
    /// is filled or the opposite side is exhausted.
    pub fn fill_market_order(&mut self, market_order: &mut Order) -> (execs: Vec<Execution>)
        requires
            old(self).wf(),
        ensures
            final(self).wf(),
            ({
                let r = match old(market_order).bid_or_ask {
                    BidOrAsk::Bid => spec_book_fill(old(self)@.asks, *old(market_order), None),
                    BidOrAsk::Ask => spec_book_fill(old(self)@.bids, *old(market_order), None),
                };
                &&& *final(market_order) == r.incoming
                &&& execs@ == r.execs
                &&& final(self)@ == match old(market_order).bid_or_ask {
                    BidOrAsk::Bid => BookView { asks: r.levels, bids: old(self)@.bids },
                    BidOrAsk::Ask => BookView { asks: old(self)@.asks, bids: r.levels },
                }
            }),
    {
        self.fill_order(market_order, None)
    }

    /// Matches only against opposing levels priced acceptably: for a bid,
    /// ask levels at or below `price`; for an ask, bid levels at or above
    /// it. Levels outside that range are left entirely untouched.
    pub fn fill_limit_order(&mut self, limit_order: &mut Order, price: u64) -> (execs: Vec<
        Execution,
    >)
        requires
            old(self).wf(),
        ensures
            final(self).wf(),
            ({
                let r = match old(limit_order).bid_or_ask {
                    BidOrAsk::Bid => spec_book_fill(old(self)@.asks, *old(limit_order), Some(price)),
                    BidOrAsk::Ask => spec_book_fill(old(self)@.bids, *old(limit_order), Some(price)),
                };
                &&& *final(limit_order) == r.incoming
                &&& execs@ == r.execs
                &&& final(self)@ == match old(limit_order).bid_or_ask {
                    BidOrAsk::Bid => BookView { asks: r.levels, bids: old(self)@.bids },
                    BidOrAsk::Ask => BookView { asks: old(self)@.asks, bids: r.levels },
                }
            }),
    {
        self.fill_order(limit_order, Some(price))
    }

    /// Copies of the ask levels an incoming bid bounded by `limit_price`
    /// may trade against, cheapest first; all of them when no bound is
    /// given.
    pub fn ask_limits(&self, limit_price: Option<u64>) -> (r: Vec<Limit>)
        requires
            self.wf(),
        ensures
            r@.map_values(|l: Limit| l@) == spec_acceptable(self@.asks, BidOrAsk::Bid, limit_price),
    {
        side_limits(&self.asks, BidOrAsk::Bid, limit_price)
    }

    /// Copies of the bid levels an incoming ask bounded by `limit_price`
    /// may trade against, highest first; all of them when no bound is
    /// given.
    pub fn bid_limits(&self, limit_price: Option<u64>) -> (r: Vec<Limit>)
        requires
            self.wf(),
        ensures
            r@.map_values(|l: Limit| l@) == spec_acceptable(self@.bids, BidOrAsk::Ask, limit_price),
    {
        side_limits(&self.bids, BidOrAsk::Ask, limit_price)
    }
}

} // verus!
