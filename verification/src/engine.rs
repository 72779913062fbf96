//! The market registry: routes submissions by trading pair to one order
//! book per registered market. This is the only layer that can fail, and
//! only with `MarketNotFound`.

use vstd::prelude::*;

use crate::orderbook::{
    spec_book_add, spec_book_wf, spec_empty_book, BookView, Order, OrderBook,
};

verus! {

/// A trading-pair key: two asset symbols, used only for routing.
#[derive(Clone, Debug)]
pub struct TradingPair {
    pub base: String,
    pub quote: String,
}

impl TradingPair {
    /// The pair as a mathematical key: the two symbols' character
    /// sequences.
    pub open spec fn key(self) -> (Seq<char>, Seq<char>) {
        (self.base@, self.quote@)
    }

    pub fn new(base: String, quote: String) -> (r: TradingPair)
        ensures
            r.base == base,
            r.quote == quote,
    {
        TradingPair { base, quote }
    }
}

impl PartialEq for TradingPair {
    fn eq(&self, other: &TradingPair) -> (r: bool) {
        self.base == other.base && self.quote == other.quote
    }
}

impl vstd::std_specs::cmp::PartialEqSpecImpl for TradingPair {
    open spec fn obeys_eq_spec() -> bool {
        true
    }

    open spec fn eq_spec(&self, other: &TradingPair) -> bool {
        self.key() == other.key()
    }
}

/// Why the registry refused a submission.
#[derive(Clone, Copy, Debug, PartialEq, Eq, Structural)]
pub enum EngineError {
    /// The submission was addressed to a trading pair with no registered
    /// market. Nothing was changed.
    MarketNotFound,
}

/// The mathematical value of one registered market: its key and its
/// book's value.
#[verifier::ext_equal]
pub struct MarketView {
    pub base: Seq<char>,
    pub quote: Seq<char>,
    pub book: BookView,
}

/// The matching engine: one order book per registered trading pair, in
/// registration order, keys unique.
#[derive(Debug)]
pub struct MatchingEngine {
    pub orderbooks: Vec<(TradingPair, OrderBook)>,
}

impl View for MatchingEngine {
    type V = Seq<MarketView>;

    open spec fn view(&self) -> Seq<MarketView> {
        self.orderbooks@.map_values(
            |m: (TradingPair, OrderBook)|
                MarketView { base: m.0.base@, quote: m.0.quote@, book: m.1@ },
        )
    }
}

impl MatchingEngine {
    /// Whether a market is registered under the key `(base, quote)`.
    pub open spec fn spec_contains_key(self, base: Seq<char>, quote: Seq<char>) -> bool {
        exists|i: int|
            0 <= i < self@.len() && (#[trigger] self@[i]).base == base && self@[i].quote == quote
    }

    /// Keys are unique and every registered book is well formed.
    pub open spec fn wf(self) -> bool {
        &&& forall|i: int, j: int|
            0 <= i < j < self@.len() ==> !((#[trigger] self@[i]).base == (
            #[trigger] self@[j]).base && self@[i].quote == self@[j].quote)
        &&& forall|i: int| 0 <= i < self@.len() ==> spec_book_wf((#[trigger] self@[i]).book)
    }

    pub fn new() -> (r: MatchingEngine)
        ensures
            r@ == Seq::<MarketView>::empty(),
            r.wf(),
    {
        let r = MatchingEngine { orderbooks: Vec::new() };
        proof {
            assert(r@ =~= Seq::<MarketView>::empty());
        }
        r
    }

    /// Registers an empty order book under `pair`. Registering a pair
    /// that already has a market is a no-op: the existing book is kept.
    pub fn add_new_market(&mut self, pair: TradingPair)
        requires
            old(self).wf(),
        ensures
            final(self).wf(),
            old(self).spec_contains_key(pair.base@, pair.quote@) ==> final(self)@ == old(self)@,
            !old(self).spec_contains_key(pair.base@, pair.quote@) ==> final(self)@ == old(
                self,
            )@.push(MarketView { base: pair.base@, quote: pair.quote@, book: spec_empty_book() }),
    {
        let ghost ev = self@;
        let mut i: usize = 0;
        while i < self.orderbooks.len()
            invariant
                0 <= i <= self.orderbooks.len(),
                ev == self@,
                ev == old(self)@,
                self.wf(),
                forall|k: int|
                    0 <= k < i ==> !((#[trigger] ev[k]).base == pair.base@ && ev[k].quote
                        == pair.quote@),
            decreases self.orderbooks.len() - i,
        {
            if self.orderbooks[i].0 == pair {
                proof {
                    assert(ev[i as int].base == pair.base@ && ev[i as int].quote == pair.quote@);
                }
                return ;
            }
            proof {
                assert(ev[i as int] == self@[i as int]);
            }
            i = i + 1;
        }
        let book = OrderBook::new();
        self.orderbooks.push((pair, book));
        proof {
            assert(self@ =~= ev.push(
                MarketView {
                    base: self.orderbooks@.last().0.base@,
                    quote: self.orderbooks@.last().0.quote@,
                    book: self.orderbooks@.last().1@,
                },
            ));
        }
    }

    /// Looks the pair's book up and rests the order there at `price`, as
    /// `OrderBook::add_limit_order` does; every other market is left
    /// untouched. Returns `Err(MarketNotFound)`, changing nothing, exactly
    /// when no market is registered under the pair.
    pub fn place_limit_order(&mut self, pair: TradingPair, price: u64, order: Order) -> (r: Result<
        (),
        EngineError,
    >)
        requires
            old(self).wf(),
            order.size > 0,
        ensures
            final(self).wf(),
            r is Ok <==> old(self).spec_contains_key(pair.base@, pair.quote@),
            r is Err ==> final(self)@ == old(self)@ && r == Result::<(), EngineError>::Err(
                EngineError::MarketNotFound,
            ),
            r is Ok ==> exists|i: int|
                0 <= i < old(self)@.len() && (#[trigger] old(self)@[i]).base == pair.base@ && old(
                    self,
                )@[i].quote == pair.quote@ && final(self)@ == old(self)@.update(
                    i,
                    MarketView {
                        base: old(self)@[i].base,
                        quote: old(self)@[i].quote,
                        book: spec_book_add(old(self)@[i].book, price, order),
                    },
                ),
    {
        let ghost ev = self@;
        let mut i: usize = 0;
        while i < self.orderbooks.len()
            invariant
                0 <= i <= self.orderbooks.len(),
                ev == self@,
                ev == old(self)@,
                self.wf(),
                order.size > 0,
                forall|k: int|
                    0 <= k < i ==> !((#[trigger] ev[k]).base == pair.base@ && ev[k].quote
                        == pair.quote@),
            decreases self.orderbooks.len() - i,
        {
            if self.orderbooks[i].0 == pair {
                proof {
                    assert(ev[i as int].base == pair.base@ && ev[i as int].quote == pair.quote@);
                    assert(spec_book_wf(ev[i as int].book));
                }
                let m = &mut self.orderbooks[i];
                m.1.add_limit_order(price, order);
                proof {
                    assert(self@ =~= ev.update(
                        i as int,
                        MarketView {
                            base: ev[i as int].base,
                            quote: ev[i as int].quote,
                            book: spec_book_add(ev[i as int].book, price, order),
                        },
                    ));
                    assert((i as int) < old(self)@.len() && old(self)@[i as int].base
                        == pair.base@ && old(self)@[i as int].quote == pair.quote@ && self@ == old(
                        self,
                    )@.update(
                        i as int,
                        MarketView {
                            base: old(self)@[i as int].base,
                            quote: old(self)@[i as int].quote,
                            book: spec_book_add(old(self)@[i as int].book, price, order),
                        },
                    ));
                }
                return Ok(());
            }
            proof {
                assert(ev[i as int] == self@[i as int]);
            }
            i = i + 1;
        }
        Err(EngineError::MarketNotFound)
    }
}

} // verus!
