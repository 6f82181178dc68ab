//! The abstract order book the engine is specified against: resting
//! orders, both sides in price-time priority, and what submitting or
//! canceling an order does to them.

use vstd::prelude::*;

use crate::order::{Event, Fill, OrderId, Owner, Price, Qty, Side};

verus! {

/// An order resting on the book.
#[derive(Clone, Copy, Debug)]
pub struct Resting {
    pub id: OrderId,
    pub price: Price,
    pub qty: Qty,
    pub owner: Owner,
}

/// For an order resting on `side`, price `a` is at least as good as `b`.
pub open spec fn at_least_as_good(side: Side, a: Price, b: Price) -> bool {
    match side {
        Side::Buy => a >= b,
        Side::Sell => a <= b,
    }
}

/// An incoming order on `taker_side` with limit `limit` can trade with a
/// resting order at `price`.
pub open spec fn crosses(taker_side: Side, limit: Price, price: Price) -> bool {
    match taker_side {
        Side::Buy => price <= limit,
        Side::Sell => price >= limit,
    }
}

/// `a` comes strictly before `b` in price-time priority on `side`: a better
/// price, or the same price and an earlier (smaller) id.
pub open spec fn ahead_of(side: Side, a: Resting, b: Resting) -> bool {
    if a.price == b.price {
        a.id < b.id
    } else {
        at_least_as_good(side, a.price, b.price)
    }
}

/// The orders of one side are listed in strict price-time priority.
pub open spec fn in_priority(s: Seq<Resting>, side: Side) -> bool {
    forall|i: int, j: int| 0 <= i < j < s.len() ==> ahead_of(side, #[trigger] s[i], #[trigger] s[j])
}

/// Some order in `s` has id `id`.
pub open spec fn holds(s: Seq<Resting>, id: OrderId) -> bool {
    exists|i: int| 0 <= i < s.len() && (#[trigger] s[i]).id == id
}

/// The position of the order with id `id` in `s` (meaningful when `holds`).
pub open spec fn pos_of(s: Seq<Resting>, id: OrderId) -> int {
    choose|i: int| 0 <= i < s.len() && (#[trigger] s[i]).id == id
}

/// No two orders of `s` share an id.
pub open spec fn distinct_ids(s: Seq<Resting>) -> bool {
    forall|i: int, j: int| 0 <= i < s.len() && 0 <= j < s.len() && i != j ==> (#[trigger] s[i]).id != (#[trigger] s[j]).id
}

/// `a` and `b` are the same order, possibly with a different remaining quantity.
pub open spec fn same_order(a: Resting, b: Resting) -> bool {
    a.id == b.id && a.price == b.price && a.owner == b.owner
}

/// The abstract state of a book: both sides in priority order, and the id
/// the next incoming order will get.
pub struct BookView {
    pub bids: Seq<Resting>,
    pub asks: Seq<Resting>,
    pub next_id: OrderId,
    /// Events produced and not yet drained.
    pub events: Seq<Event>,
}

impl BookView {
    pub open spec fn side(self, side: Side) -> Seq<Resting> {
        match side {
            Side::Buy => self.bids,
            Side::Sell => self.asks,
        }
    }

    pub open spec fn with_side(self, side: Side, s: Seq<Resting>) -> BookView {
        match side {
            Side::Buy => BookView { bids: s, ..self },
            Side::Sell => BookView { asks: s, ..self },
        }
    }

    /// An order with this id rests on the book.
    pub open spec fn is_live(self, id: OrderId) -> bool {
        holds(self.bids, id) || holds(self.asks, id)
    }

    /// Side, price and remaining quantity of the live order `id`.
    pub open spec fn resting(self, id: OrderId) -> Option<(Side, Price, Qty)> {
        if holds(self.bids, id) {
            let o = self.bids[pos_of(self.bids, id)];
            Some((Side::Buy, o.price, o.qty))
        } else if holds(self.asks, id) {
            let o = self.asks[pos_of(self.asks, id)];
            Some((Side::Sell, o.price, o.qty))
        } else {
            None
        }
    }

    pub open spec fn best(self, side: Side) -> Option<Price> {
        if self.side(side).len() > 0 {
            Some(self.side(side)[0].price)
        } else {
            None
        }
    }

    /// The well-formedness of the abstract state: both sides in priority
    /// order, every resting quantity positive, every id unique and already
    /// handed out, and the book not crossed.
    pub open spec fn valid(self) -> bool {
        &&& in_priority(self.bids, Side::Buy)
        &&& in_priority(self.asks, Side::Sell)
        &&& distinct_ids(self.bids)
        &&& distinct_ids(self.asks)
        &&& forall|i: int, j: int|
            0 <= i < self.bids.len() && 0 <= j < self.asks.len() ==> (#[trigger] self.bids[i]).id
                != (#[trigger] self.asks[j]).id
        &&& forall|i: int| 0 <= i < self.bids.len() ==> (#[trigger] self.bids[i]).qty > 0
        &&& forall|i: int| 0 <= i < self.asks.len() ==> (#[trigger] self.asks[i]).qty > 0
        &&& forall|i: int| 0 <= i < self.bids.len() ==> (#[trigger] self.bids[i]).id < self.next_id
        &&& forall|i: int| 0 <= i < self.asks.len() ==> (#[trigger] self.asks[i]).id < self.next_id
        &&& not_crossed(self.bids, self.asks)
    }
}

/// The best bid is strictly below the best ask whenever both sides are non-empty.
pub open spec fn not_crossed(bids: Seq<Resting>, asks: Seq<Resting>) -> bool {
    bids.len() > 0 && asks.len() > 0 ==> bids[0].price < asks[0].price
}

/// The fill an incoming order gets against the resting order `maker`.
pub open spec fn fill_event(maker: Resting, traded: Qty, taker: OrderId, owner: Owner, side: Side) -> Event {
    Event::Fill(
        Fill {
            price: maker.price,
            qty: traded,
            maker: maker.id,
            maker_owner: maker.owner,
            taker: taker,
            taker_owner: owner,
            taker_side: side,
        },
    )
}

/// Price-time matching of an incoming order against the opposite side
/// `opp` (listed best first). While quantity is left and the best resting
/// order crosses the limit: a resting order of the same owner is canceled
/// (self-match prevention); otherwise the two trade at the resting price,
/// for as much as both have. Gives the opposite side afterwards, the events
/// in order, and the incoming quantity left over.
pub open spec fn match_against(
    opp: Seq<Resting>,
    side: Side,
    limit: Price,
    qty: Qty,
    taker: OrderId,
    owner: Owner,
) -> (Seq<Resting>, Seq<Event>, Qty)
    decreases opp.len(),
{
    if qty == 0 || opp.len() == 0 || !crosses(side, limit, opp[0].price) {
        (opp, Seq::empty(), qty)
    } else {
        let head = opp[0];
        if head.owner == owner {
            let r = match_against(opp.drop_first(), side, limit, qty, taker, owner);
            (
                r.0,
                seq![Event::SelfMatch { canceled: head.id, owner: owner, lost_qty: head.qty }] + r.1,
                r.2,
            )
        } else if head.qty <= qty {
            let r = match_against(opp.drop_first(), side, limit, (qty - head.qty) as Qty, taker, owner);
            (r.0, seq![fill_event(head, head.qty, taker, owner, side)] + r.1, r.2)
        } else {
            (
                opp.update(0, Resting { qty: (head.qty - qty) as Qty, ..head }),
                seq![fill_event(head, qty, taker, owner, side)],
                0,
            )
        }
    }
}

/// Where an order at `price` joins side `s`: behind every order at that
/// price or better, ahead of every worse one.
pub open spec fn rest_pos(s: Seq<Resting>, side: Side, price: Price) -> int
    decreases s.len(),
{
    if s.len() == 0 {
        0
    } else if at_least_as_good(side, s.last().price, price) {
        s.len() as int
    } else {
        rest_pos(s.drop_last(), side, price)
    }
}

/// Side `s` with the order `o` joined at the back of its price level.
pub open spec fn join(s: Seq<Resting>, side: Side, o: Resting) -> Seq<Resting> {
    s.insert(rest_pos(s, side, o.price), o)
}

/// What submitting an order does to the book: it takes the next id, matches
/// against the opposite side, and, when `rests` is set, whatever is left
/// joins its own side. Gives the book afterwards, the events, and the
/// quantity left unmatched.
pub open spec fn submit(
    b: BookView,
    side: Side,
    limit: Price,
    qty: Qty,
    owner: Owner,
    rests: bool,
) -> (BookView, Seq<Event>, Qty) {
    let id = b.next_id;
    let m = match_against(b.side(side.opposite()), side, limit, qty, id, owner);
    let own = if rests && m.2 > 0 {
        join(b.side(side), side, Resting { id: id, price: limit, qty: m.2, owner: owner })
    } else {
        b.side(side)
    };
    let after = b.with_side(side.opposite(), m.0).with_side(side, own);
    (BookView { next_id: (b.next_id + 1) as OrderId, events: b.events + m.1, ..after }, m.1, m.2)
}

/// The price a market order on `side` is submitted at: the worst one.
pub open spec fn market_limit(side: Side) -> Price {
    match side {
        Side::Buy => u32::MAX,
        Side::Sell => 0,
    }
}

/// The book with the order `id` taken off, if it was resting.
pub open spec fn without(b: BookView, id: OrderId) -> BookView {
    if holds(b.bids, id) {
        BookView { bids: b.bids.remove(pos_of(b.bids, id)), ..b }
    } else if holds(b.asks, id) {
        BookView { asks: b.asks.remove(pos_of(b.asks, id)), ..b }
    } else {
        b
    }
}

/// `new` is what is left of side `old` after matching took orders off its
/// front: the same orders as the back of `old`, each with at most the
/// quantity it had.
pub open spec fn trimmed(old: Seq<Resting>, new: Seq<Resting>) -> bool {
    &&& new.len() <= old.len()
    &&& forall|i: int|
        0 <= i < new.len() ==> same_order(#[trigger] new[i], old[i + old.len() - new.len()])
            && new[i].qty <= old[i + old.len() - new.len()].qty
}

/// The price levels of side `s`, best first, each with the total quantity
/// resting there. Orders at one price sit next to each other on a side in
/// priority order, so a level is a run of consecutive orders at one price.
pub open spec fn levels(s: Seq<Resting>) -> Seq<(Price, nat)>
    decreases s.len(),
{
    if s.len() == 0 {
        Seq::empty()
    } else {
        let l = levels(s.drop_last());
        let o = s.last();
        if l.len() > 0 && l.last().0 == o.price {
            l.update(l.len() - 1, (o.price, (l.last().1 + o.qty) as nat))
        } else {
            l.push((o.price, o.qty as nat))
        }
    }
}

} // verus!
