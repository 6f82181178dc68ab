//! What holds of the book across all inputs: the promises of price-time
//! matching, stated over the abstract book and proved.

use vstd::prelude::*;

use crate::book::{lemma_rest_pos_bounds, lemma_wf_valid, Book};
use crate::model::{
    ahead_of, at_least_as_good, crosses, distinct_ids, fill_event, holds, in_priority, levels,
    market_limit, match_against, not_crossed, pos_of, rest_pos, same_order, submit, trimmed, without, BookView, Resting,
};
use crate::order::{Event, OrderId, Owner, Price, Qty, Side};

verus! {

/// Total quantity traded by the fills among `evs`.
pub open spec fn filled_qty(evs: Seq<Event>) -> int
    decreases evs.len(),
{
    if evs.len() == 0 {
        0
    } else {
        (match evs[0] {
            Event::Fill(f) => f.qty as int,
            Event::SelfMatch { .. } => 0,
        }) + filled_qty(evs.drop_first())
    }
}

/// Total resting quantity canceled by self-match prevention among `evs`.
pub open spec fn lost_qty(evs: Seq<Event>) -> int
    decreases evs.len(),
{
    if evs.len() == 0 {
        0
    } else {
        (match evs[0] {
            Event::Fill(_) => 0,
            Event::SelfMatch { lost_qty, .. } => lost_qty as int,
        }) + lost_qty(evs.drop_first())
    }
}

/// Total quantity resting on side `s`.
pub open spec fn total_qty(s: Seq<Resting>) -> int
    decreases s.len(),
{
    if s.len() == 0 {
        0
    } else {
        s[0].qty + total_qty(s.drop_first())
    }
}

proof fn lemma_sums_single(e: Event)
    ensures
        filled_qty(seq![e]) == (match e {
            Event::Fill(f) => f.qty as int,
            Event::SelfMatch { .. } => 0,
        }),
        lost_qty(seq![e]) == (match e {
            Event::Fill(_) => 0,
            Event::SelfMatch { lost_qty, .. } => lost_qty as int,
        }),
{
    assert(seq![e][0] == e);
    assert(seq![e].drop_first() =~= Seq::<Event>::empty());
    assert(filled_qty(Seq::<Event>::empty()) == 0);
    assert(lost_qty(Seq::<Event>::empty()) == 0);
}

proof fn lemma_sums_cons(e: Event, r: Seq<Event>)
    ensures
        filled_qty(seq![e] + r) == filled_qty(seq![e]) + filled_qty(r),
        lost_qty(seq![e] + r) == lost_qty(seq![e]) + lost_qty(r),
{
    assert((seq![e] + r).drop_first() =~= r);
    assert(seq![e].drop_first() =~= Seq::<Event>::empty());
    assert((seq![e] + r)[0] == e);
    assert(filled_qty(Seq::<Event>::empty()) == 0);
    assert(lost_qty(Seq::<Event>::empty()) == 0);
}

/// Matching conserves quantity: the incoming order's quantity splits into
/// what the fills traded and what is left over, and the opposite side loses
/// exactly what was traded plus what self-match prevention canceled.
pub proof fn law_matching_conserves_quantity(
    opp: Seq<Resting>,
    side: Side,
    limit: Price,
    qty: Qty,
    taker: OrderId,
    owner: Owner,
)
    ensures
        ({
            let m = match_against(opp, side, limit, qty, taker, owner);
            &&& filled_qty(m.1) == qty - m.2
            &&& total_qty(opp) == total_qty(m.0) + filled_qty(m.1) + lost_qty(m.1)
        }),
    decreases opp.len(),
{
    assert(filled_qty(Seq::<Event>::empty()) == 0);
    assert(lost_qty(Seq::<Event>::empty()) == 0);
    if !(qty == 0 || opp.len() == 0 || !crosses(side, limit, opp[0].price)) {
        let head = opp[0];
        let tail = opp.drop_first();
        assert(total_qty(opp) == head.qty + total_qty(tail));
        if head.owner == owner {
            let e = Event::SelfMatch { canceled: head.id, owner: owner, lost_qty: head.qty };
            law_matching_conserves_quantity(tail, side, limit, qty, taker, owner);
            let r = match_against(tail, side, limit, qty, taker, owner);
            lemma_sums_cons(e, r.1);
            lemma_sums_single(e);
            assert(filled_qty(seq![e]) == 0);
            assert(lost_qty(seq![e]) == head.qty);
        } else if head.qty <= qty {
            let e = fill_event(head, head.qty, taker, owner, side);
            law_matching_conserves_quantity(tail, side, limit, (qty - head.qty) as Qty, taker, owner);
            let r = match_against(tail, side, limit, (qty - head.qty) as Qty, taker, owner);
            lemma_sums_cons(e, r.1);
            lemma_sums_single(e);
            assert(filled_qty(seq![e]) == head.qty);
            assert(lost_qty(seq![e]) == 0);
        } else {
            let e = fill_event(head, qty, taker, owner, side);
            lemma_sums_single(e);
            assert(filled_qty(seq![e]) == qty);
            assert(lost_qty(seq![e]) == 0);
            let rest = opp.update(0, Resting { qty: (head.qty - qty) as Qty, ..head });
            assert(rest.drop_first() =~= tail);
            assert(total_qty(rest) == (head.qty - qty) + total_qty(tail));
        }
    }
}

/// Every trade happens at the resting order's price, which is within the
/// incoming order's limit (price improvement goes to the taker), for a
/// positive quantity, against a resting order of another owner; every
/// self-match cancel removes an order of the incoming order's own owner.
/// Each event names a maker that was on the opposite side.
pub proof fn law_fills_at_maker_price(
    opp: Seq<Resting>,
    side: Side,
    limit: Price,
    qty: Qty,
    taker: OrderId,
    owner: Owner,
)
    requires
        forall|i: int| 0 <= i < opp.len() ==> (#[trigger] opp[i]).qty > 0,
    ensures
        ({
            let evs = match_against(opp, side, limit, qty, taker, owner).1;
            forall|k: int| 0 <= k < evs.len() ==> match #[trigger] evs[k] {
                Event::Fill(f) => {
                    &&& crosses(side, limit, f.price)
                    &&& f.qty > 0
                    &&& f.maker_owner != owner
                    &&& f.taker == taker
                    &&& f.taker_owner == owner
                    &&& f.taker_side == side
                    &&& exists|i: int|
                        0 <= i < opp.len() && (#[trigger] opp[i]).id == f.maker && opp[i].price
                            == f.price && opp[i].owner == f.maker_owner
                },
                Event::SelfMatch { canceled, owner: o, lost_qty } => {
                    &&& o == owner
                    &&& exists|i: int|
                        0 <= i < opp.len() && (#[trigger] opp[i]).id == canceled && opp[i].owner
                            == owner && opp[i].qty == lost_qty
                },
            }
        }),
    decreases opp.len(),
{
    if !(qty == 0 || opp.len() == 0 || !crosses(side, limit, opp[0].price)) {
        let head = opp[0];
        let tail = opp.drop_first();
        assert forall|i: int| 0 <= i < tail.len() implies (#[trigger] tail[i]).qty > 0 by {
            assert(tail[i] == opp[i + 1]);
        }
        let q = if head.owner == owner || head.qty > qty { qty } else { (qty - head.qty) as Qty };
        if head.qty <= qty || head.owner == owner {
            law_fills_at_maker_price(tail, side, limit, q, taker, owner);
        }
        let evs = match_against(opp, side, limit, qty, taker, owner).1;
        assert forall|k: int| 0 <= k < evs.len() implies match #[trigger] evs[k] {
            Event::Fill(f) => {
                &&& crosses(side, limit, f.price)
                &&& f.qty > 0
                &&& f.maker_owner != owner
                &&& f.taker == taker
                &&& f.taker_owner == owner
                &&& f.taker_side == side
                &&& exists|i: int|
                    0 <= i < opp.len() && (#[trigger] opp[i]).id == f.maker && opp[i].price
                        == f.price && opp[i].owner == f.maker_owner
            },
            Event::SelfMatch { canceled, owner: o, lost_qty } => {
                &&& o == owner
                &&& exists|i: int|
                    0 <= i < opp.len() && (#[trigger] opp[i]).id == canceled && opp[i].owner
                        == owner && opp[i].qty == lost_qty
            },
        } by {
            if k == 0 {
                assert(opp[0] == head);
            } else {
                let r = match_against(tail, side, limit, q, taker, owner).1;
                assert(evs[k] == r[k - 1]);
                match r[k - 1] {
                    Event::Fill(f) => {
                        let i = choose|i: int|
                            0 <= i < tail.len() && (#[trigger] tail[i]).id == f.maker && tail[i].price
                                == f.price && tail[i].owner == f.maker_owner;
                        assert(opp[i + 1] == tail[i]);
                    },
                    Event::SelfMatch { canceled, owner: o, lost_qty } => {
                        let i = choose|i: int|
                            0 <= i < tail.len() && (#[trigger] tail[i]).id == canceled && tail[i].owner
                                == owner && tail[i].qty == lost_qty;
                        assert(opp[i + 1] == tail[i]);
                    },
                }
            }
        }
    }
}

/// The next order an incoming order meets is the best one it could meet:
/// on a side in priority order, the first order has the best price, and is
/// the oldest (smallest id) of the orders at that price.
pub proof fn law_front_is_best(s: Seq<Resting>, side: Side)
    requires
        in_priority(s, side),
        s.len() > 0,
    ensures
        forall|i: int| 0 < i < s.len() ==> at_least_as_good(side, s[0].price, #[trigger] s[i].price),
        forall|i: int| 0 < i < s.len() && s[i].price == s[0].price ==> s[0].id < #[trigger] s[i].id,
{
    assert forall|i: int| 0 < i < s.len() implies at_least_as_good(side, s[0].price, #[trigger] s[i].price) by {
        assert(ahead_of(side, s[0], s[i]));
    }
    assert forall|i: int| 0 < i < s.len() && s[i].price == s[0].price implies s[0].id < #[trigger] s[i].id by {
        assert(ahead_of(side, s[0], s[i]));
    }
}

/// A side has price levels exactly when it has orders, and its first level
/// is at the price of its front order.
proof fn lemma_first_level(s: Seq<Resting>)
    ensures
        levels(s).len() == 0 <==> s.len() == 0,
        s.len() > 0 ==> levels(s)[0].0 == s[0].price,
    decreases s.len(),
{
    if s.len() > 0 {
        lemma_first_level(s.drop_last());
        if s.len() > 1 {
            assert(s.drop_last()[0] == s[0]);
        }
    }
}

/// The best price of a side is the price of its top level: `best_bid` and
/// `best_ask` give exactly the price that `depth` reports first, and
/// nothing when `depth` reports no level. On a valid book that price is at
/// least as good as every resting order of the side.
pub proof fn law_best_is_top_level(b: BookView, side: Side)
    requires
        b.valid(),
    ensures
        b.best(side) == if levels(b.side(side)).len() > 0 {
            Some(levels(b.side(side))[0].0)
        } else {
            None::<Price>
        },
        b.best(side) matches Some(p) ==> forall|i: int|
            0 <= i < b.side(side).len() ==> at_least_as_good(side, p, #[trigger] b.side(side)[i].price),
{
    let s = b.side(side);
    lemma_first_level(s);
    if s.len() > 0 {
        law_front_is_best(s, side);
        assert(at_least_as_good(side, s[0].price, s[0].price));
    }
}

/// A market order is an immediate-or-cancel order at a price that every
/// resting order on the other side crosses: it takes whatever is offered.
pub proof fn law_market_crosses_everything(side: Side, price: Price)
    ensures
        crosses(side, market_limit(side), price),
{
}

/// An immediate-or-cancel order never rests: its own side is untouched and
/// it takes a fresh id all the same.
pub proof fn law_ioc_never_rests(b: BookView, side: Side, limit: Price, qty: Qty, owner: Owner)
    ensures
        submit(b, side, limit, qty, owner, false).0.side(side) == b.side(side),
        submit(b, side, limit, qty, owner, false).0.next_id == b.next_id + 1 || b.next_id == u64::MAX,
{
    match side {
        Side::Buy => {},
        Side::Sell => {},
    }
}

/// A limit order rests exactly when part of it is left unmatched, and then
/// under its own id, at its limit price, with the quantity left over.
pub proof fn law_limit_rests_remainder(b: BookView, side: Side, limit: Price, qty: Qty, owner: Owner)
    requires
        b.valid(),
        b.next_id < u64::MAX,
    ensures
        ({
            let r = submit(b, side, limit, qty, owner, true);
            &&& r.0.is_live(b.next_id) <==> r.2 > 0
            &&& r.2 > 0 ==> r.0.resting(b.next_id) == Some((side, limit, r.2))
        }),
{
    let r = submit(b, side, limit, qty, owner, true);
    let id = b.next_id;
    let m = match_against(b.side(side.opposite()), side, limit, qty, id, owner);
    lemma_match_trims(b.side(side.opposite()), side, limit, qty, id, owner);
    let opp = b.side(side.opposite());
    let d = opp.len() - m.0.len();
    assert forall|i: int| 0 <= i < m.0.len() implies (#[trigger] m.0[i]).id < id by {
        assert(same_order(m.0[i], opp[i + d]));
        match side {
            Side::Buy => assert(b.asks[i + d].id < id),
            Side::Sell => assert(b.bids[i + d].id < id),
        }
    }
    let own = b.side(side);
    assert forall|i: int| 0 <= i < own.len() implies (#[trigger] own[i]).id < id by {
        match side {
            Side::Buy => assert(b.bids[i].id < id),
            Side::Sell => assert(b.asks[i].id < id),
        }
    }
    let own1 = r.0.side(side);
    if m.2 > 0 {
        let o = Resting { id: id, price: limit, qty: m.2, owner: owner };
        let k = rest_pos(own, side, limit);
        lemma_rest_pos_bounds(own, side, limit);
        assert(own1 == own.insert(k, o));
        assert(own1[k].id == id);
        assert forall|i: int| 0 <= i < own1.len() && i != k implies (#[trigger] own1[i]).id < id by {
            if i < k {
                assert(own1[i] == own[i]);
            } else {
                assert(own1[i] == own[i - 1]);
            }
        }
        assert(pos_of(own1, id) == k);
    } else {
        assert(own1 == own);
    }
    match side {
        Side::Buy => {
            assert(r.0.bids == own1 && r.0.asks == m.0);
            if holds(m.0, id) {
                let i = choose|i: int| 0 <= i < m.0.len() && (#[trigger] m.0[i]).id == id;
            }
            if holds(own1, id) && m.2 == 0 {
                let i = choose|i: int| 0 <= i < own1.len() && (#[trigger] own1[i]).id == id;
            }
        },
        Side::Sell => {
            assert(r.0.asks == own1 && r.0.bids == m.0);
            if holds(m.0, id) {
                let i = choose|i: int| 0 <= i < m.0.len() && (#[trigger] m.0[i]).id == id;
            }
            if holds(own1, id) && m.2 == 0 {
                let i = choose|i: int| 0 <= i < own1.len() && (#[trigger] own1[i]).id == id;
            }
        },
    }
}

/// What matching leaves of the opposite side is what was there, less some
/// orders taken off its front and possibly less quantity on the new front.
pub proof fn lemma_match_trims(
    opp: Seq<Resting>,
    side: Side,
    limit: Price,
    qty: Qty,
    taker: OrderId,
    owner: Owner,
)
    ensures
        trimmed(opp, match_against(opp, side, limit, qty, taker, owner).0),
    decreases opp.len(),
{
    let m = match_against(opp, side, limit, qty, taker, owner);
    if !(qty == 0 || opp.len() == 0 || !crosses(side, limit, opp[0].price)) {
        let head = opp[0];
        let tail = opp.drop_first();
        if head.owner == owner || head.qty <= qty {
            let q = if head.owner == owner { qty } else { (qty - head.qty) as Qty };
            lemma_match_trims(tail, side, limit, q, taker, owner);
            assert forall|i: int| 0 <= i < m.0.len() implies same_order(#[trigger] m.0[i], opp[i + opp.len() - m.0.len()])
                && m.0[i].qty <= opp[i + opp.len() - m.0.len()].qty by {
                assert(opp[i + opp.len() - m.0.len()] == tail[i + tail.len() - m.0.len()]);
            }
        }
    }
}

/// A cancel takes exactly the named order off the book: afterwards it is
/// not live, and every other order is as live as it was.
pub proof fn law_cancel_removes_only_that_order(b: BookView, id: OrderId)
    requires
        b.valid(),
    ensures
        !without(b, id).is_live(id),
        forall|x: OrderId| x != id ==> (#[trigger] without(b, id).is_live(x) <==> b.is_live(x)),
{
    let nb = without(b, id);
    if holds(b.bids, id) {
        lemma_remove_at(b.bids, pos_of(b.bids, id), id);
        assert(nb.asks == b.asks);
        if holds(b.asks, id) {
            let i = choose|i: int| 0 <= i < b.bids.len() && (#[trigger] b.bids[i]).id == id;
            let j = choose|j: int| 0 <= j < b.asks.len() && (#[trigger] b.asks[j]).id == id;
            assert(b.bids[i].id != b.asks[j].id);
        }
    } else if holds(b.asks, id) {
        lemma_remove_at(b.asks, pos_of(b.asks, id), id);
        assert(nb.bids == b.bids);
    }
}

/// Removing the one order with id `id` from a side with distinct ids leaves
/// no order with that id and every other order.
proof fn lemma_remove_at(s: Seq<Resting>, p: int, id: OrderId)
    requires
        distinct_ids(s),
        holds(s, id),
        p == pos_of(s, id),
    ensures
        !holds(s.remove(p), id),
        forall|x: OrderId| x != id ==> (#[trigger] holds(s.remove(p), x) <==> holds(s, x)),
{
    let r = s.remove(p);
    assert(s[p].id == id);
    if holds(r, id) {
        let i = choose|i: int| 0 <= i < r.len() && (#[trigger] r[i]).id == id;
        if i < p {
            assert(r[i] == s[i]);
        } else {
            assert(r[i] == s[i + 1]);
        }
    }
    assert forall|x: OrderId| x != id implies (#[trigger] holds(r, x) <==> holds(s, x)) by {
        if holds(r, x) {
            let i = choose|i: int| 0 <= i < r.len() && (#[trigger] r[i]).id == x;
            if i < p {
                assert(s[i] == r[i]);
            } else {
                assert(s[i + 1] == r[i]);
            }
        }
        if holds(s, x) {
            let i = choose|i: int| 0 <= i < s.len() && (#[trigger] s[i]).id == x;
            assert(i != p);
            if i < p {
                assert(r[i] == s[i]);
            } else {
                assert(r[i - 1] == s[i]);
            }
        }
    }
}

/// A book that keeps its invariant is valid: both sides in price-time
/// priority, every resting quantity positive, every id unique and already
/// handed out, and the best bid strictly below the best ask.
pub proof fn law_book_never_crossed(b: &Book)
    requires
        b.wf(),
    ensures
        b@.valid(),
        not_crossed(b@.bids, b@.asks),
        in_priority(b@.bids, Side::Buy),
        in_priority(b@.asks, Side::Sell),
{
    lemma_wf_valid(b);
}

/// Every submitted order takes the next id, so ids are handed out in
/// arrival order and never twice; cancels leave the counter alone.
pub proof fn law_ids_in_arrival_order(b: BookView, side: Side, limit: Price, qty: Qty, owner: Owner, rests: bool, id: OrderId)
    requires
        b.next_id < u64::MAX,
    ensures
        submit(b, side, limit, qty, owner, rests).0.next_id == b.next_id + 1,
        without(b, id).next_id == b.next_id,
{
    match side {
        Side::Buy => {},
        Side::Sell => {},
    }
}

/// Matching meets orders exactly as a brute-force scan of the opposite
/// side would pick them: if the first order crosses, it is ahead of every
/// other crossing order (best price, then oldest); if it does not cross,
/// no order on that side does, so matching stops where the scan finds
/// nothing.
pub proof fn law_next_match_is_the_scan_choice(s: Seq<Resting>, side: Side, limit: Price)
    requires
        in_priority(s, side.opposite()),
    ensures
        s.len() > 0 && crosses(side, limit, s[0].price) ==> forall|j: int|
            0 < j < s.len() && crosses(side, limit, #[trigger] s[j].price) ==> ahead_of(
                side.opposite(),
                s[0],
                s[j],
            ),
        s.len() > 0 && !crosses(side, limit, s[0].price) ==> forall|j: int|
            0 <= j < s.len() ==> !crosses(side, limit, #[trigger] s[j].price),
{
    assert forall|j: int| 0 < j < s.len() implies ahead_of(side.opposite(), s[0], #[trigger] s[j]) by {
        assert(ahead_of(side.opposite(), s[0], s[j]));
    }
}

/// `new` holds no order that was not in `old` at the same price, other
/// than (possibly) the order with id `fresh`.
pub open spec fn carried(old: Seq<Resting>, new: Seq<Resting>, fresh: OrderId) -> bool {
    forall|j: int|
        0 <= j < new.len() && (#[trigger] new[j]).id != fresh ==> exists|i: int|
            0 <= i < old.len() && (#[trigger] old[i]).id == new[j].id && old[i].price == new[j].price
}

/// Where order `x` rests in `b2`, it rested in `b` too, on the same side
/// and at the same price.
pub open spec fn same_place(b: BookView, b2: BookView, x: OrderId) -> bool {
    b2.resting(x) matches Some(r) ==> (b.resting(x) matches Some(r0) && r0.0 == r.0 && r0.1 == r.1)
}

/// What `resting` reports for an order of a valid book is that order.
proof fn lemma_resting_is(b: BookView, side: Side, i: int)
    requires
        b.valid(),
        0 <= i < b.side(side).len(),
    ensures
        b.resting(b.side(side)[i].id) == Some((side, b.side(side)[i].price, b.side(side)[i].qty)),
{
    let s = b.side(side);
    let id = s[i].id;
    assert(holds(s, id));
    let p = pos_of(s, id);
    match side {
        Side::Buy => {
            assert(s == b.bids);
            assert(b.bids[p].id == id);
            assert(p == i);
        },
        Side::Sell => {
            assert(s == b.asks);
            assert(b.asks[p].id == id);
            assert(p == i);
            if holds(b.bids, id) {
                let j = choose|j: int| 0 <= j < b.bids.len() && (#[trigger] b.bids[j]).id == id;
                assert(b.bids[j].id != b.asks[i].id);
            }
        },
    }
}

/// Between two valid books whose sides carry their orders over, every
/// order but `fresh` keeps its side and price.
proof fn lemma_carried_places(b: BookView, b2: BookView, fresh: OrderId)
    requires
        b.valid(),
        b2.valid(),
        carried(b.bids, b2.bids, fresh),
        carried(b.asks, b2.asks, fresh),
    ensures
        forall|x: OrderId| x != fresh ==> #[trigger] same_place(b, b2, x),
{
    assert forall|x: OrderId| x != fresh implies #[trigger] same_place(b, b2, x) by {
        if holds(b2.bids, x) {
            let j = choose|j: int| 0 <= j < b2.bids.len() && (#[trigger] b2.bids[j]).id == x;
            lemma_resting_is(b2, Side::Buy, j);
            let i = choose|i: int|
                0 <= i < b.bids.len() && (#[trigger] b.bids[i]).id == b2.bids[j].id && b.bids[i].price
                    == b2.bids[j].price;
            lemma_resting_is(b, Side::Buy, i);
        } else if holds(b2.asks, x) {
            let j = choose|j: int| 0 <= j < b2.asks.len() && (#[trigger] b2.asks[j]).id == x;
            lemma_resting_is(b2, Side::Sell, j);
            let i = choose|i: int|
                0 <= i < b.asks.len() && (#[trigger] b.asks[i]).id == b2.asks[j].id && b.asks[i].price
                    == b2.asks[j].price;
            lemma_resting_is(b, Side::Sell, i);
        }
    }
}

proof fn lemma_carried_remove(s: Seq<Resting>, p: int, fresh: OrderId)
    requires
        0 <= p < s.len(),
    ensures
        carried(s, s.remove(p), fresh),
{
    let r = s.remove(p);
    assert forall|j: int| 0 <= j < r.len() && (#[trigger] r[j]).id != fresh implies exists|i: int|
        0 <= i < s.len() && (#[trigger] s[i]).id == r[j].id && s[i].price == r[j].price by {
        if j < p {
            assert(s[j] == r[j]);
        } else {
            assert(s[j + 1] == r[j]);
        }
    }
}

proof fn lemma_carried_same(s: Seq<Resting>, fresh: OrderId)
    ensures
        carried(s, s, fresh),
{
    assert forall|j: int| 0 <= j < s.len() && (#[trigger] s[j]).id != fresh implies exists|i: int|
        0 <= i < s.len() && (#[trigger] s[i]).id == s[j].id && s[i].price == s[j].price by {
        assert(s[j] == s[j]);
    }
}

proof fn lemma_carried_trimmed(old: Seq<Resting>, new: Seq<Resting>, fresh: OrderId)
    requires
        trimmed(old, new),
    ensures
        carried(old, new, fresh),
{
    let d = old.len() - new.len();
    assert forall|j: int| 0 <= j < new.len() && (#[trigger] new[j]).id != fresh implies exists|i: int|
        0 <= i < old.len() && (#[trigger] old[i]).id == new[j].id && old[i].price == new[j].price by {
        assert(same_order(new[j], old[j + d]));
    }
}

proof fn lemma_carried_insert(s: Seq<Resting>, k: int, o: Resting)
    requires
        0 <= k <= s.len(),
    ensures
        carried(s, s.insert(k, o), o.id),
{
    let r = s.insert(k, o);
    assert forall|j: int| 0 <= j < r.len() && (#[trigger] r[j]).id != o.id implies exists|i: int|
        0 <= i < s.len() && (#[trigger] s[i]).id == r[j].id && s[i].price == r[j].price by {
        if j < k {
            assert(s[j] == r[j]);
        } else {
            assert(j != k);
            assert(s[j - 1] == r[j]);
        }
    }
}

/// An order keeps its side and price for as long as it rests: after a
/// cancel, and after an order is submitted, every order resting (other
/// than the one just submitted) was resting before, on the same side and
/// at the same price.
pub proof fn law_orders_keep_side_and_price(
    b: BookView,
    side: Side,
    limit: Price,
    qty: Qty,
    owner: Owner,
    rests: bool,
    id: OrderId,
)
    requires
        b.valid(),
        b.next_id < u64::MAX,
    ensures
        forall|x: OrderId| x != b.next_id ==> #[trigger] same_place(b, submit(b, side, limit, qty, owner, rests).0, x),
        forall|x: OrderId| #[trigger] same_place(b, without(b, id), x),
{
    crate::book::law_submit_keeps_valid(b, side, limit, qty, owner, rests);
    crate::book::law_cancel_keeps_valid(b, id);
    let oside = side.opposite();
    let opp = b.side(oside);
    let own = b.side(side);
    let m = match_against(opp, side, limit, qty, b.next_id, owner);
    let b2 = submit(b, side, limit, qty, owner, rests).0;
    lemma_match_trims(opp, side, limit, qty, b.next_id, owner);
    lemma_carried_trimmed(opp, m.0, b.next_id);
    if rests && m.2 > 0 {
        let o = Resting { id: b.next_id, price: limit, qty: m.2, owner: owner };
        lemma_rest_pos_bounds(own, side, limit);
        lemma_carried_insert(own, rest_pos(own, side, limit), o);
    } else {
        lemma_carried_same(own, b.next_id);
    }
    match side {
        Side::Buy => {
            assert(b2.asks == m.0);
        },
        Side::Sell => {
            assert(b2.bids == m.0);
        },
    }
    lemma_carried_places(b, b2, b.next_id);
    let w = without(b, id);
    if holds(b.bids, id) {
        lemma_carried_remove(b.bids, pos_of(b.bids, id), id);
        lemma_carried_same(b.asks, id);
    } else if holds(b.asks, id) {
        lemma_carried_remove(b.asks, pos_of(b.asks, id), id);
        lemma_carried_same(b.bids, id);
    } else {
        lemma_carried_same(b.bids, id);
        lemma_carried_same(b.asks, id);
    }
    lemma_carried_places(b, w, id);
    assert forall|x: OrderId| #[trigger] same_place(b, w, x) by {
        if x == id {
            law_cancel_removes_only_that_order(b, id);
        }
    }
}

} // verus!
