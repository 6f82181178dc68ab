//! The order book. Each side is one list of resting orders in price-time
//! priority (best price first, oldest first within a price), so a price
//! level is a run of consecutive orders at one price; an index maps each
//! live order id to its side and price. Every operation is proved to do to
//! the abstract book what `crate::model` says.

use std::collections::HashMap;

use vstd::prelude::*;

use crate::model::{
    ahead_of, at_least_as_good, crosses, distinct_ids, holds, in_priority, join, levels,
    market_limit, match_against, not_crossed, pos_of, rest_pos, same_order, submit, trimmed,
    without, BookView, Resting,
};
use crate::order::{Event, Fill, OrderId, Owner, Price, Qty, Side};

verus! {

fn crosses_now(taker_side: Side, limit: Price, price: Price) -> (r: bool)
    ensures
        r == crosses(taker_side, limit, price),
{
    match taker_side {
        Side::Buy => price <= limit,
        Side::Sell => price >= limit,
    }
}

/// The matching loop: walks the opposite side `opp` from its best order
/// while the incoming order still crosses, emitting events and dropping
/// consumed orders from `index`. Returns the unfilled remainder.
fn take_from(
    opp: &mut Vec<Resting>,
    index: &mut HashMap<OrderId, (Side, Price)>,
    events: &mut Vec<Event>,
    side: Side,
    limit: Price,
    qty: Qty,
    taker: OrderId,
    owner: Owner,
) -> (left: Qty)
    requires
        in_priority(old(opp)@, side.opposite()),
        distinct_ids(old(opp)@),
        forall|i: int| 0 <= i < old(opp)@.len() ==> (#[trigger] old(opp)@[i]).qty > 0,
        indexed(old(index)@, old(opp)@, side.opposite()),
    ensures
        ({
            let m = match_against(old(opp)@, side, limit, qty, taker, owner);
            &&& final(opp)@ == m.0
            &&& final(events)@ == old(events)@ + m.1
            &&& left == m.2
        }),
        trimmed(old(opp)@, final(opp)@),
        in_priority(final(opp)@, side.opposite()),
        distinct_ids(final(opp)@),
        forall|i: int| 0 <= i < final(opp)@.len() ==> (#[trigger] final(opp)@[i]).qty > 0,
        left > 0 ==> final(opp)@.len() == 0 || !crosses(side, limit, final(opp)@[0].price),
        indexed(final(index)@, final(opp)@, side.opposite()),
        forall|id: OrderId| #[trigger]
            final(index)@.contains_key(id) ==> old(index)@.contains_key(id) && final(index)@[id]
                == old(index)@[id],
        forall|id: OrderId|
            old(index)@.contains_key(id) && !holds(old(opp)@, id) ==> #[trigger] final(index)@.contains_key(id),
        forall|id: OrderId|
            #[trigger] final(index)@.contains_key(id) && holds(old(opp)@, id) ==> holds(
                final(opp)@,
                id,
            ),
{
    let ghost opp0 = opp@;
    let ghost index0 = index@;
    let ghost events0 = events@;
    let ghost m0 = match_against(opp0, side, limit, qty, taker, owner);
    let ghost mut emitted: Seq<Event> = Seq::empty();
    let oside: Ghost<Side> = Ghost(side.opposite());
    let mut qty = qty;
    while qty > 0 && opp.len() > 0 && crosses_now(side, limit, opp[0].price)
        invariant
            ({
                let m = match_against(opp@, side, limit, qty, taker, owner);
                m0 == (m.0, emitted + m.1, m.2)
            }),
            events@ == events0 + emitted,
            trimmed(opp0, opp@),
            in_priority(opp@, oside@),
            distinct_ids(opp@),
            forall|i: int| 0 <= i < opp@.len() ==> (#[trigger] opp@[i]).qty > 0,
            indexed(index@, opp@, oside@),
            forall|id: OrderId| #[trigger]
                index@.contains_key(id) ==> index0.contains_key(id) && index@[id] == index0[id],
            forall|id: OrderId|
                index0.contains_key(id) && !holds(opp0, id) ==> #[trigger] index@.contains_key(id),
            forall|id: OrderId|
                #[trigger] index@.contains_key(id) && holds(opp0, id) ==> holds(opp@, id),
        decreases opp@.len() + qty,
    {
        let head = opp[0];
        let ghost cur = opp@;
        let ghost d = opp0.len() - cur.len();
        assert(same_order(cur[0], opp0[d]));
        assert(holds(opp0, head.id));
        if head.owner == owner {
            let ev = Event::SelfMatch { canceled: head.id, owner, lost_qty: head.qty };
            events.push(ev);
            index.remove(&head.id);
            opp.remove(0);
            proof {
                let r = match_against(cur.drop_first(), side, limit, qty, taker, owner);
                assert(opp@ =~= cur.drop_first());
                assert(emitted + (seq![ev] + r.1) =~= (emitted + seq![ev]) + r.1);
                emitted = emitted + seq![ev];
            }
        } else {
            let traded = if qty < head.qty { qty } else { head.qty };
            let ev = Event::Fill(
                Fill {
                    price: head.price,
                    qty: traded,
                    maker: head.id,
                    maker_owner: head.owner,
                    taker,
                    taker_owner: owner,
                    taker_side: side,
                },
            );
            events.push(ev);
            qty = qty - traded;
            if traded == head.qty {
                index.remove(&head.id);
                opp.remove(0);
                proof {
                    let r = match_against(cur.drop_first(), side, limit, qty, taker, owner);
                    assert(opp@ =~= cur.drop_first());
                    assert(emitted + (seq![ev] + r.1) =~= (emitted + seq![ev]) + r.1);
                    emitted = emitted + seq![ev];
                }
            } else {
                opp.set(0, Resting { qty: head.qty - traded, ..head });
                proof {
                    emitted = emitted + seq![ev];
                }
            }
        }
        proof {
            assert forall|i: int, j: int| 0 <= i < j < opp@.len() implies ahead_of(
                oside@,
                #[trigger] opp@[i],
                #[trigger] opp@[j],
            ) by {
                if opp@.len() < cur.len() {
                    assert(opp@[i] == cur[i + 1] && opp@[j] == cur[j + 1]);
                } else {
                    assert(same_order(opp@[i], cur[i]) && same_order(opp@[j], cur[j]));
                }
            }
            assert forall|i: int, j: int|
                0 <= i < opp@.len() && 0 <= j < opp@.len() && i != j implies (#[trigger] opp@[i]).id
                != (#[trigger] opp@[j]).id by {
                if opp@.len() < cur.len() {
                    assert(opp@[i] == cur[i + 1] && opp@[j] == cur[j + 1]);
                } else {
                    assert(same_order(opp@[i], cur[i]) && same_order(opp@[j], cur[j]));
                }
            }
            assert forall|i: int| 0 <= i < opp@.len() implies (#[trigger] opp@[i]).id != head.id
                || opp@.len() == cur.len() by {
                if opp@.len() < cur.len() {
                    assert(opp@[i] == cur[i + 1]);
                }
            }
            assert forall|id: OrderId|
                #[trigger] index@.contains_key(id) && holds(opp0, id) implies holds(opp@, id) by {
                let k = choose|k: int| 0 <= k < cur.len() && (#[trigger] cur[k]).id == id;
                if opp@.len() < cur.len() {
                    assert(k != 0);
                    assert(opp@[k - 1] == cur[k]);
                } else {
                    assert(opp@[k].id == cur[k].id);
                }
            }
        }
    }
    qty
}

/// Matching that only trims the opposite side from the front keeps a valid
/// book valid, with the index still listing exactly the live orders.
#[verifier::spinoff_prover]
#[verifier::rlimit(60)]
proof fn lemma_trim_keeps_valid(
    b: BookView,
    side: Side,
    opp1: Seq<Resting>,
    idx0: Map<OrderId, (Side, Price)>,
    idx1: Map<OrderId, (Side, Price)>,
)
    requires
        b.valid(),
        indexed(idx0, b.bids, Side::Buy),
        indexed(idx0, b.asks, Side::Sell),
        forall|id: OrderId| #[trigger] idx0.contains_key(id) ==> holds(b.bids, id) || holds(b.asks, id),
        trimmed(b.side(side.opposite()), opp1),
        in_priority(opp1, side.opposite()),
        distinct_ids(opp1),
        forall|i: int| 0 <= i < opp1.len() ==> (#[trigger] opp1[i]).qty > 0,
        indexed(idx1, opp1, side.opposite()),
        forall|id: OrderId| #[trigger]
            idx1.contains_key(id) ==> idx0.contains_key(id) && idx1[id] == idx0[id],
        forall|id: OrderId|
            idx0.contains_key(id) && !holds(b.side(side.opposite()), id) ==> #[trigger] idx1.contains_key(id),
        forall|id: OrderId|
            #[trigger] idx1.contains_key(id) && holds(b.side(side.opposite()), id) ==> holds(opp1, id),
    ensures
        ({
            let nb = b.with_side(side.opposite(), opp1);
            &&& nb.valid()
            &&& indexed(idx1, nb.bids, Side::Buy)
            &&& indexed(idx1, nb.asks, Side::Sell)
            &&& forall|id: OrderId| #[trigger]
                idx1.contains_key(id) ==> holds(nb.bids, id) || holds(nb.asks, id)
        }),
{
    let oside = side.opposite();
    let opp0 = b.side(oside);
    let own = b.side(side);
    let d = opp0.len() - opp1.len();
    let nb = b.with_side(oside, opp1);
    assert forall|i: int| 0 <= i < opp1.len() implies (#[trigger] opp1[i]).id == opp0[i + d].id
        && opp0[i + d].price <= opp1[i].price + 0 && opp1[i].price == opp0[i + d].price by {
        assert(same_order(opp1[i], opp0[i + d]));
    }
    assert forall|i: int, j: int| 0 <= i < own.len() && 0 <= j < opp1.len() implies (#[trigger] own[i]).id
        != (#[trigger] opp1[j]).id by {
        assert(opp1[j].id == opp0[j + d].id);
        match side {
            Side::Buy => assert(b.bids[i].id != b.asks[j + d].id),
            Side::Sell => assert(b.bids[j + d].id != b.asks[i].id),
        }
    }
    assert forall|i: int| 0 <= i < own.len() implies !holds(opp0, (#[trigger] own[i]).id) by {
        if holds(opp0, own[i].id) {
            let k = choose|k: int| 0 <= k < opp0.len() && (#[trigger] opp0[k]).id == own[i].id;
            match side {
                Side::Buy => assert(b.bids[i].id != b.asks[k].id),
                Side::Sell => assert(b.bids[k].id != b.asks[i].id),
            }
        }
    }
    assert forall|i: int| 0 <= i < own.len() implies idx1.contains_key((#[trigger] own[i]).id) && idx1[own[i].id] == (side, own[i].price) by {
        let id = own[i].id;
        assert(!holds(opp0, id));
        match side {
            Side::Buy => {
                assert(own[i] == b.bids[i]);
                assert(idx0.contains_key(id) && idx0[id] == (Side::Buy, own[i].price));
            },
            Side::Sell => {
                assert(own[i] == b.asks[i]);
                assert(idx0.contains_key(id) && idx0[id] == (Side::Sell, own[i].price));
            },
        }
        assert(idx1.contains_key(id));
        assert(idx1[id] == idx0[id]);
    }
    if own.len() > 0 && opp1.len() > 0 && d > 0 {
        assert(ahead_of(oside, opp0[0], opp0[d]));
    }
    match side {
        Side::Buy => {
            assert(nb.bids == b.bids && nb.asks == opp1);
            assert forall|i: int| 0 <= i < opp1.len() implies (#[trigger] opp1[i]).id < nb.next_id by {
                assert(b.asks[i + d].id < b.next_id);
            }
            assert forall|id: OrderId| #[trigger] idx1.contains_key(id) implies holds(nb.bids, id) || holds(nb.asks, id) by {
                assert(idx0.contains_key(id));
            }
        },
        Side::Sell => {
            assert(nb.asks == b.asks && nb.bids == opp1);
            assert forall|i: int| 0 <= i < opp1.len() implies (#[trigger] opp1[i]).id < nb.next_id by {
                assert(b.bids[i + d].id < b.next_id);
            }
            assert forall|id: OrderId| #[trigger] idx1.contains_key(id) implies holds(nb.bids, id) || holds(nb.asks, id) by {
                assert(idx0.contains_key(id));
            }
        },
    }
}

fn as_good_now(side: Side, a: Price, b: Price) -> (r: bool)
    ensures
        r == at_least_as_good(side, a, b),
{
    match side {
        Side::Buy => a >= b,
        Side::Sell => a <= b,
    }
}

/// Where `rest_pos` puts an order: behind the last order at least as good,
/// ahead of the orders after it, none of which is.
pub proof fn lemma_rest_pos_props(s: Seq<Resting>, side: Side, price: Price)
    ensures
        0 <= rest_pos(s, side, price) <= s.len(),
        forall|j: int|
            rest_pos(s, side, price) <= j < s.len() ==> !at_least_as_good(side, (#[trigger] s[j]).price, price),
        rest_pos(s, side, price) > 0 ==> at_least_as_good(side, s[rest_pos(s, side, price) - 1].price, price),
    decreases s.len(),
{
    if s.len() > 0 && !at_least_as_good(side, s.last().price, price) {
        let t = s.drop_last();
        lemma_rest_pos_props(t, side, price);
        assert forall|j: int| rest_pos(s, side, price) <= j < s.len() implies !at_least_as_good(side, (#[trigger] s[j]).price, price) by {
            if j < t.len() {
                assert(s[j] == t[j]);
            }
        }
        if rest_pos(s, side, price) > 0 {
            assert(s[rest_pos(s, side, price) - 1] == t[rest_pos(t, side, price) - 1]);
        }
    }
}

/// Joining an order newer than every order of a side keeps the side in
/// priority order.
pub proof fn lemma_join_in_priority(s: Seq<Resting>, side: Side, o: Resting)
    requires
        in_priority(s, side),
        forall|i: int| 0 <= i < s.len() ==> (#[trigger] s[i]).id < o.id,
    ensures
        in_priority(join(s, side, o), side),
{
    let k = rest_pos(s, side, o.price);
    lemma_rest_pos_props(s, side, o.price);
    let n = join(s, side, o);
    assert forall|i: int, j: int| 0 <= i < j < n.len() implies ahead_of(side, #[trigger] n[i], #[trigger] n[j]) by {
        if j < k {
            assert(n[i] == s[i] && n[j] == s[j]);
        } else if j == k {
            assert(n[i] == s[i]);
            if i < k - 1 {
                assert(ahead_of(side, s[i], s[k - 1]));
            }
        } else if i == k {
            assert(n[j] == s[j - 1]);
        } else if i < k {
            assert(n[i] == s[i] && n[j] == s[j - 1]);
        } else {
            assert(n[i] == s[i - 1] && n[j] == s[j - 1]);
        }
    }
}

/// Puts `o` at the back of its price level on side `own`.
fn join_at(own: &mut Vec<Resting>, side: Side, o: Resting)
    requires
        in_priority(old(own)@, side),
        forall|i: int| 0 <= i < old(own)@.len() ==> (#[trigger] old(own)@[i]).id < o.id,
    ensures
        final(own)@ == join(old(own)@, side, o),
        in_priority(final(own)@, side),
{
    let ghost s = own@;
    let mut k = own.len();
    assert(s.take(s.len() as int) =~= s);
    while k > 0 && !as_good_now(side, own[k - 1].price, o.price)
        invariant
            own@ == s,
            k <= s.len(),
            rest_pos(s, side, o.price) == rest_pos(s.take(k as int), side, o.price),
            forall|j: int| k <= j < s.len() ==> !at_least_as_good(side, (#[trigger] s[j]).price, o.price),
        decreases k,
    {
        assert(s.take(k as int).drop_last() =~= s.take(k - 1));
        k = k - 1;
    }
    proof {
        if k > 0 {
            assert(s.take(k as int).last() == s[k - 1]);
        }
        assert(rest_pos(s, side, o.price) == k);
    }
    own.insert(k, o);
    proof {
        lemma_join_in_priority(s, side, o);
    }
}

/// Joining the remainder of an order whose id is newer than every live
/// order, on a side that no longer crosses it, keeps the book valid and
/// the index (extended by the new order) exact.
#[verifier::spinoff_prover]
#[verifier::rlimit(60)]
proof fn lemma_join_keeps_valid(
    b: BookView,
    side: Side,
    o: Resting,
    own1: Seq<Resting>,
    idx0: Map<OrderId, (Side, Price)>,
)
    requires
        b.valid(),
        indexed(idx0, b.bids, Side::Buy),
        indexed(idx0, b.asks, Side::Sell),
        forall|id: OrderId| #[trigger] idx0.contains_key(id) ==> holds(b.bids, id) || holds(b.asks, id),
        o.qty > 0,
        o.id < b.next_id,
        forall|i: int| 0 <= i < b.bids.len() ==> (#[trigger] b.bids[i]).id < o.id,
        forall|i: int| 0 <= i < b.asks.len() ==> (#[trigger] b.asks[i]).id < o.id,
        b.side(side.opposite()).len() == 0 || !crosses(side, o.price, b.side(side.opposite())[0].price),
        own1 == join(b.side(side), side, o),
        in_priority(own1, side),
    ensures
        ({
            let nb = b.with_side(side, own1);
            let idx1 = idx0.insert(o.id, (side, o.price));
            &&& nb.valid()
            &&& indexed(idx1, nb.bids, Side::Buy)
            &&& indexed(idx1, nb.asks, Side::Sell)
            &&& forall|id: OrderId| #[trigger]
                idx1.contains_key(id) ==> holds(nb.bids, id) || holds(nb.asks, id)
        }),
{
    let own = b.side(side);
    let opp = b.side(side.opposite());
    let k = rest_pos(own, side, o.price);
    lemma_rest_pos_bounds(own, side, o.price);
    let nb = b.with_side(side, own1);
    let idx1 = idx0.insert(o.id, (side, o.price));
    assert(own1[k] == o);
    assert forall|i: int| 0 <= i < own1.len() implies (#[trigger] own1[i]) == (if i < k { own[i] } else if i == k { o } else { own[i - 1] }) by {}
    assert forall|i: int| 0 <= i < own.len() implies (#[trigger] own[i]).id < o.id by {
        match side { Side::Buy => assert(b.bids[i].id < o.id), Side::Sell => assert(b.asks[i].id < o.id) }
    }
    assert forall|i: int| 0 <= i < opp.len() implies (#[trigger] opp[i]).id < o.id by {
        match side { Side::Buy => assert(b.asks[i].id < o.id), Side::Sell => assert(b.bids[i].id < o.id) }
    }
    assert forall|i: int, j: int| 0 <= i < own1.len() && 0 <= j < opp.len() implies (#[trigger] own1[i]).id != (#[trigger] opp[j]).id by {
        if i < k {
            match side { Side::Buy => assert(b.bids[i].id != b.asks[j].id), Side::Sell => assert(b.bids[j].id != b.asks[i].id) }
        } else if i > k {
            match side { Side::Buy => assert(b.bids[i - 1].id != b.asks[j].id), Side::Sell => assert(b.bids[j].id != b.asks[i - 1].id) }
        }
    }
    assert forall|i: int, j: int| 0 <= i < own1.len() && 0 <= j < own1.len() && i != j implies (#[trigger] own1[i]).id != (#[trigger] own1[j]).id by {
        if i < j {
            assert(ahead_of(side, own1[i], own1[j]));
        } else {
            assert(ahead_of(side, own1[j], own1[i]));
        }
    }
    assert forall|i: int| 0 <= i < own1.len() implies (#[trigger] own1[i]).qty > 0 && own1[i].id < nb.next_id by {
        if i < k {
            match side { Side::Buy => assert(b.bids[i].qty > 0), Side::Sell => assert(b.asks[i].qty > 0) }
        } else if i > k {
            match side { Side::Buy => assert(b.bids[i - 1].qty > 0), Side::Sell => assert(b.asks[i - 1].qty > 0) }
        }
    }
    assert forall|i: int| 0 <= i < own1.len() implies idx1.contains_key((#[trigger] own1[i]).id) && idx1[own1[i].id] == (side, own1[i].price) by {
        if i < k {
            match side { Side::Buy => assert(idx0.contains_key(b.bids[i].id)), Side::Sell => assert(idx0.contains_key(b.asks[i].id)) }
        } else if i > k {
            match side { Side::Buy => assert(idx0.contains_key(b.bids[i - 1].id)), Side::Sell => assert(idx0.contains_key(b.asks[i - 1].id)) }
        }
    }
    assert forall|i: int| 0 <= i < opp.len() implies idx1.contains_key((#[trigger] opp[i]).id) && idx1[opp[i].id] == (side.opposite(), opp[i].price) by {
        match side { Side::Buy => assert(idx0.contains_key(b.asks[i].id)), Side::Sell => assert(idx0.contains_key(b.bids[i].id)) }
    }
    assert forall|id: OrderId| #[trigger] idx1.contains_key(id) implies holds(own1, id) || holds(opp, id) by {
        if id == o.id {
            assert(own1[k].id == id);
        } else {
            assert(idx0.contains_key(id));
            if holds(own, id) {
                let i = choose|i: int| 0 <= i < own.len() && (#[trigger] own[i]).id == id;
                if i < k {
                    assert(own1[i].id == id);
                } else {
                    assert(own1[i + 1].id == id);
                }
            } else {
                match side { Side::Buy => assert(holds(b.asks, id)), Side::Sell => assert(holds(b.bids, id)) }
            }
        }
    }
    if own1.len() > 0 && opp.len() > 0 {
        if k == 0 {
            assert(own1[0] == o);
        } else {
            assert(own1[0] == own[0]);
        }
    }
    match side {
        Side::Buy => assert(nb.bids == own1 && nb.asks == opp),
        Side::Sell => assert(nb.asks == own1 && nb.bids == opp),
    }
}

pub proof fn lemma_rest_pos_bounds(s: Seq<Resting>, side: Side, price: Price)
    ensures
        0 <= rest_pos(s, side, price) <= s.len(),
    decreases s.len(),
{
    if s.len() > 0 && !at_least_as_good(side, s.last().price, price) {
        lemma_rest_pos_bounds(s.drop_last(), side, price);
    }
}

/// `match_against` never hands back more than it was given.
pub proof fn lemma_match_left_le(opp: Seq<Resting>, side: Side, limit: Price, qty: Qty, taker: OrderId, owner: Owner)
    ensures
        match_against(opp, side, limit, qty, taker, owner).2 <= qty,
    decreases opp.len(),
{
    if !(qty == 0 || opp.len() == 0 || !crosses(side, limit, opp[0].price)) {
        let head = opp[0];
        if head.owner == owner {
            lemma_match_left_le(opp.drop_first(), side, limit, qty, taker, owner);
        } else if head.qty <= qty {
            lemma_match_left_le(opp.drop_first(), side, limit, (qty - head.qty) as Qty, taker, owner);
        }
    }
}

/// The position of the order with id `id` in side `s`.
fn find_pos(s: &Vec<Resting>, id: OrderId) -> (i: usize)
    requires
        holds(s@, id),
        distinct_ids(s@),
    ensures
        i == pos_of(s@, id),
        i < s@.len(),
        s@[i as int].id == id,
{
    let mut i: usize = 0;
    while i < s.len() && s[i].id != id
        invariant
            i <= s@.len(),
            forall|j: int| 0 <= j < i ==> (#[trigger] s@[j]).id != id,
        decreases s@.len() - i,
    {
        i = i + 1;
    }
    proof {
        let k = pos_of(s@, id);
        if i == s@.len() {
            assert(s@[k].id == id);
        }
        assert(s@[k].id == id);
        assert(k == i);
    }
    i
}

/// Taking the order at position `p` off side `side` keeps the book valid,
/// with the index (less that order) still exact.
#[verifier::spinoff_prover]
#[verifier::rlimit(60)]
proof fn lemma_remove_keeps_valid(
    b: BookView,
    side: Side,
    p: int,
    idx0: Map<OrderId, (Side, Price)>,
)
    requires
        b.valid(),
        indexed(idx0, b.bids, Side::Buy),
        indexed(idx0, b.asks, Side::Sell),
        forall|id: OrderId| #[trigger] idx0.contains_key(id) ==> holds(b.bids, id) || holds(b.asks, id),
        0 <= p < b.side(side).len(),
    ensures
        ({
            let own = b.side(side);
            let nb = b.with_side(side, own.remove(p));
            let idx1 = idx0.remove(own[p].id);
            &&& nb.valid()
            &&& indexed(idx1, nb.bids, Side::Buy)
            &&& indexed(idx1, nb.asks, Side::Sell)
            &&& forall|id: OrderId| #[trigger]
                idx1.contains_key(id) ==> holds(nb.bids, id) || holds(nb.asks, id)
        }),
{
    let own = b.side(side);
    let opp = b.side(side.opposite());
    let own1 = own.remove(p);
    let x = own[p].id;
    let idx1 = idx0.remove(x);
    let nb = b.with_side(side, own1);
    assert forall|i: int| 0 <= i < own1.len() implies (#[trigger] own1[i]) == (if i < p { own[i] } else { own[i + 1] }) by {}
    assert forall|i: int| 0 <= i < own1.len() implies (#[trigger] own1[i]).id != x by {
        let j = if i < p { i } else { i + 1 };
        match side { Side::Buy => assert(b.bids[j].id != b.bids[p].id), Side::Sell => assert(b.asks[j].id != b.asks[p].id) }
    }
    assert forall|i: int| 0 <= i < opp.len() implies (#[trigger] opp[i]).id != x by {
        match side { Side::Buy => assert(b.bids[p].id != b.asks[i].id), Side::Sell => assert(b.bids[i].id != b.asks[p].id) }
    }
    assert forall|i: int| 0 <= i < own1.len() implies idx1.contains_key((#[trigger] own1[i]).id) && idx1[own1[i].id] == (side, own1[i].price) by {
        let j = if i < p { i } else { i + 1 };
        match side { Side::Buy => assert(idx0.contains_key(b.bids[j].id)), Side::Sell => assert(idx0.contains_key(b.asks[j].id)) }
    }
    assert forall|i: int| 0 <= i < opp.len() implies idx1.contains_key((#[trigger] opp[i]).id) && idx1[opp[i].id] == (side.opposite(), opp[i].price) by {
        match side { Side::Buy => assert(idx0.contains_key(b.asks[i].id)), Side::Sell => assert(idx0.contains_key(b.bids[i].id)) }
    }
    assert forall|id: OrderId| #[trigger] idx1.contains_key(id) implies holds(own1, id) || holds(opp, id) by {
        assert(idx0.contains_key(id));
        if holds(own, id) {
            let i = choose|i: int| 0 <= i < own.len() && (#[trigger] own[i]).id == id;
            assert(i != p);
            if i < p {
                assert(own1[i].id == id);
            } else {
                assert(own1[i - 1].id == id);
            }
        } else {
            match side { Side::Buy => assert(holds(b.asks, id)), Side::Sell => assert(holds(b.bids, id)) }
        }
    }
    assert forall|i: int, j: int| 0 <= i < j < own1.len() implies ahead_of(side, #[trigger] own1[i], #[trigger] own1[j]) by {
        let a = if i < p { i } else { i + 1 };
        let c = if j < p { j } else { j + 1 };
        match side { Side::Buy => assert(ahead_of(side, b.bids[a], b.bids[c])), Side::Sell => assert(ahead_of(side, b.asks[a], b.asks[c])) }
    }
    assert forall|i: int, j: int| 0 <= i < own1.len() && 0 <= j < own1.len() && i != j implies (#[trigger] own1[i]).id != (#[trigger] own1[j]).id by {
        let a = if i < p { i } else { i + 1 };
        let c = if j < p { j } else { j + 1 };
        match side { Side::Buy => assert(b.bids[a].id != b.bids[c].id), Side::Sell => assert(b.asks[a].id != b.asks[c].id) }
    }
    assert forall|i: int, j: int| 0 <= i < own1.len() && 0 <= j < opp.len() implies (#[trigger] own1[i]).id != (#[trigger] opp[j]).id by {
        let a = if i < p { i } else { i + 1 };
        match side { Side::Buy => assert(b.bids[a].id != b.asks[j].id), Side::Sell => assert(b.bids[j].id != b.asks[a].id) }
    }
    assert forall|i: int| 0 <= i < own1.len() implies (#[trigger] own1[i]).qty > 0 && own1[i].id < b.next_id by {
        let a = if i < p { i } else { i + 1 };
        match side { Side::Buy => assert(b.bids[a].qty > 0 && b.bids[a].id < b.next_id), Side::Sell => assert(b.asks[a].qty > 0 && b.asks[a].id < b.next_id) }
    }
    if own1.len() > 0 && opp.len() > 0 {
        if p == 0 {
            match side {
                Side::Buy => assert(ahead_of(side, b.bids[0], b.bids[1])),
                Side::Sell => assert(ahead_of(side, b.asks[0], b.asks[1])),
            }
        }
    }
    match side {
        Side::Buy => assert(nb.bids == own1 && nb.asks == opp),
        Side::Sell => assert(nb.asks == own1 && nb.bids == opp),
    }
}

/// Reading more of a side only adds to the last level seen so far or opens
/// new ones.
proof fn lemma_levels_grow(s: Seq<Resting>, i: int, j: int)
    requires
        0 <= i <= j <= s.len(),
    ensures
        ({
            let li = levels(s.take(i));
            let lj = levels(s.take(j));
            &&& li.len() <= lj.len()
            &&& forall|k: int| 0 <= k < li.len() - 1 ==> lj[k] == li[k]
            &&& li.len() > 0 ==> lj[li.len() - 1].0 == li.last().0 && lj[li.len() - 1].1 >= li.last().1
        }),
    decreases j - i,
{
    if j > i {
        lemma_levels_grow(s, i, j - 1);
        assert(s.take(j).drop_last() =~= s.take(j - 1));
    }
}

/// Once an order at a new price has been read, the levels before it are
/// complete.
proof fn lemma_levels_fixed(s: Seq<Resting>, i: int, j: int)
    requires
        0 <= i < j <= s.len(),
        levels(s.take(i)).len() == 0 || s[i].price != levels(s.take(i)).last().0,
    ensures
        ({
            let li = levels(s.take(i));
            let lj = levels(s.take(j));
            &&& li.len() < lj.len()
            &&& forall|k: int| 0 <= k < li.len() ==> lj[k] == li[k]
        }),
    decreases j - i,
{
    assert(s.take(i + 1).drop_last() =~= s.take(i));
    if j > i + 1 {
        lemma_levels_fixed(s, i, j - 1);
        assert(s.take(j).drop_last() =~= s.take(j - 1));
    }
}

fn opens_level(out: &Vec<(Price, Qty)>, price: Price) -> (r: bool)
    ensures
        r == (out@.len() == 0 || out@.last().0 != price),
{
    out.len() == 0 || out[out.len() - 1].0 != price
}

/// The order book. `events` collects what matching produces; the caller
/// drains it.
pub struct Book {
    bids: Vec<Resting>,
    asks: Vec<Resting>,
    /// Where each live resting order sits, so liveness checks and cancels
    /// need not search both sides.
    index: HashMap<OrderId, (Side, Price)>,
    next_id: OrderId,
    pub events: Vec<Event>,
}

impl View for Book {
    type V = BookView;

    closed spec fn view(&self) -> BookView {
        BookView { bids: self.bids@, asks: self.asks@, next_id: self.next_id, events: self.events@ }
    }
}

/// Every order of `s` is in `index` at `side` and its price.
pub open spec fn indexed(index: Map<OrderId, (Side, Price)>, s: Seq<Resting>, side: Side) -> bool {
    forall|i: int|
        0 <= i < s.len() ==> index.contains_key((#[trigger] s[i]).id) && index[s[i].id] == (
        side,
        s[i].price,
        )
}

impl Book {
    /// The book's invariant: a valid abstract state and an index that lists
    /// exactly the live orders, with their side and price.
    pub closed spec fn wf(&self) -> bool {
        &&& self@.valid()
        &&& indexed(self.index@, self.bids@, Side::Buy)
        &&& indexed(self.index@, self.asks@, Side::Sell)
        &&& forall|id: OrderId| #[trigger]
            self.index@.contains_key(id) ==> holds(self.bids@, id) || holds(self.asks@, id)
    }

    pub fn new() -> (b: Book)
        ensures
            b.wf(),
            b@.bids == Seq::<Resting>::empty(),
            b@.asks == Seq::<Resting>::empty(),
            b@.next_id == 1,
            b@.events == Seq::<Event>::empty(),
    {
        Book {
            bids: Vec::new(),
            asks: Vec::new(),
            index: HashMap::new(),
            next_id: 1,
            events: Vec::new(),
        }
    }

    /// The highest price anyone is bidding.
    pub fn best_bid(&self) -> (r: Option<Price>)
        requires
            self.wf(),
        ensures
            r == self@.best(Side::Buy),
            r matches Some(p) ==> forall|i: int| 0 <= i < self@.bids.len() ==> self@.bids[i].price <= p,
    {
        if self.bids.len() > 0 {
            Some(self.bids[0].price)
        } else {
            None
        }
    }

    /// The lowest price anyone is offering.
    pub fn best_ask(&self) -> (r: Option<Price>)
        requires
            self.wf(),
        ensures
            r == self@.best(Side::Sell),
            r matches Some(p) ==> forall|i: int| 0 <= i < self@.asks.len() ==> p <= self@.asks[i].price,
    {
        if self.asks.len() > 0 {
            Some(self.asks[0].price)
        } else {
            None
        }
    }

    pub fn is_live(&self, id: OrderId) -> (r: bool)
        requires
            self.wf(),
        ensures
            r == self@.is_live(id),
    {
        let r = self.index.contains_key(&id);
        proof {
            if holds(self.bids@, id) {
                let i = choose|i: int| 0 <= i < self.bids@.len() && (#[trigger] self.bids@[i]).id == id;
                assert(self.index@.contains_key(self.bids@[i].id));
            }
            if holds(self.asks@, id) {
                let i = choose|i: int| 0 <= i < self.asks@.len() && (#[trigger] self.asks@[i]).id == id;
                assert(self.index@.contains_key(self.asks@[i].id));
            }
        }
        r
    }
    /// The matching loop: walks the opposite side from the best price while
    /// the incoming order still crosses, respecting time priority within a
    /// price. Returns the unfilled remainder.
    fn take(&mut self, side: Side, limit: Price, qty: Qty, taker: OrderId, owner: Owner) -> (left: Qty)
        requires
            old(self).wf(),
        ensures
            final(self).wf(),
            ({
                let m = match_against(old(self)@.side(side.opposite()), side, limit, qty, taker, owner);
                &&& final(self)@ == BookView {
                    events: old(self)@.events + m.1,
                    ..old(self)@.with_side(side.opposite(), m.0)
                }
                &&& left == m.2
            }),
            trimmed(old(self)@.side(side.opposite()), final(self)@.side(side.opposite())),
            left > 0 ==> (final(self)@.side(side.opposite()).len() == 0 || !crosses(
                side,
                limit,
                final(self)@.side(side.opposite())[0].price,
            )),
    {
        let ghost b = self@;
        let ghost idx0 = self.index@;
        let left = match side {
            Side::Buy => take_from(
                &mut self.asks,
                &mut self.index,
                &mut self.events,
                side,
                limit,
                qty,
                taker,
                owner,
            ),
            Side::Sell => take_from(
                &mut self.bids,
                &mut self.index,
                &mut self.events,
                side,
                limit,
                qty,
                taker,
                owner,
            ),
        };
        proof {
            lemma_trim_keeps_valid(b, side, self@.side(side.opposite()), idx0, self.index@);
            match side {
                Side::Buy => assert(self@.bids == b.bids),
                Side::Sell => assert(self@.asks == b.asks),
            }
        }
        left
    }
    /// Submits a limit order. It matches as far as it can, and whatever is
    /// left rests on the book. Returns the order's id; fills and self-match
    /// cancels are appended to the events.
    pub fn limit(&mut self, side: Side, price: Price, qty: Qty, owner: Owner) -> (id: OrderId)
        requires
            old(self).wf(),
            old(self)@.next_id < u64::MAX,
        ensures
            final(self).wf(),
            id == old(self)@.next_id,
            final(self)@ == submit(old(self)@, side, price, qty, owner, true).0,
    {
        let id = self.next_id;
        let remaining = self.take(side, price, qty, id, owner);
        proof {
            assert forall|i: int| 0 <= i < self@.bids.len() implies (#[trigger] self@.bids[i]).id < id by {}
            assert forall|i: int| 0 <= i < self@.asks.len() implies (#[trigger] self@.asks[i]).id < id by {}
        }
        self.next_id = id + 1;
        if remaining > 0 {
            let o = Resting { id, price, qty: remaining, owner };
            let ghost b = self@;
            let ghost idx0 = self.index@;
            match side {
                Side::Buy => join_at(&mut self.bids, side, o),
                Side::Sell => join_at(&mut self.asks, side, o),
            }
            self.index.insert(id, (side, price));
            proof {
                lemma_join_keeps_valid(b, side, o, self@.side(side), idx0);
                match side {
                    Side::Buy => assert(self@.asks == b.asks),
                    Side::Sell => assert(self@.bids == b.bids),
                }
            }
        }
        id
    }
    /// Immediate-or-cancel: matches what crosses and drops the rest. Returns
    /// the quantity actually filled.
    pub fn ioc(&mut self, side: Side, price: Price, qty: Qty, owner: Owner) -> (filled: Qty)
        requires
            old(self).wf(),
            old(self)@.next_id < u64::MAX,
        ensures
            final(self).wf(),
            final(self)@ == submit(old(self)@, side, price, qty, owner, false).0,
            filled == qty - submit(old(self)@, side, price, qty, owner, false).2,
    {
        let id = self.next_id;
        let remaining = self.take(side, price, qty, id, owner);
        proof {
            lemma_match_left_le(old(self)@.side(side.opposite()), side, price, qty, id, owner);
            assert forall|i: int| 0 <= i < self@.bids.len() implies (#[trigger] self@.bids[i]).id < id + 1 by {}
            assert forall|i: int| 0 <= i < self@.asks.len() implies (#[trigger] self@.asks[i]).id < id + 1 by {}
        }
        self.next_id = id + 1;
        proof {
            match side {
                Side::Buy => assert(self@.bids == old(self)@.bids),
                Side::Sell => assert(self@.asks == old(self)@.asks),
            }
        }
        qty - remaining
    }

    /// A market order: an immediate-or-cancel order at the worst acceptable
    /// price, so it takes whatever the opposite side offers.
    pub fn market(&mut self, side: Side, qty: Qty, owner: Owner) -> (filled: Qty)
        requires
            old(self).wf(),
            old(self)@.next_id < u64::MAX,
        ensures
            final(self).wf(),
            final(self)@ == submit(old(self)@, side, market_limit(side), qty, owner, false).0,
            filled == qty - submit(old(self)@, side, market_limit(side), qty, owner, false).2,
    {
        let limit = match side {
            Side::Buy => Price::MAX,
            Side::Sell => 0,
        };
        self.ioc(side, limit, qty, owner)
    }

    /// Removes every resting order without emitting events, as a trading
    /// halt with a quote purge does.
    pub fn purge_all(&mut self)
        requires
            old(self).wf(),
        ensures
            final(self).wf(),
            final(self)@ == (BookView {
                bids: Seq::<Resting>::empty(),
                asks: Seq::<Resting>::empty(),
                ..old(self)@
            }),
    {
        self.bids.clear();
        self.asks.clear();
        self.index.clear();
    }

    /// Cancels a resting order. Returns whether it was live.
    pub fn cancel(&mut self, id: OrderId) -> (r: bool)
        requires
            old(self).wf(),
        ensures
            final(self).wf(),
            r == old(self)@.is_live(id),
            final(self)@ == without(old(self)@, id),
    {
        let ghost b = self@;
        let ghost idx0 = self.index@;
        match self.index.remove(&id) {
            None => {
                proof {
                    if holds(b.bids, id) {
                        let i = choose|i: int| 0 <= i < b.bids.len() && (#[trigger] b.bids[i]).id == id;
                        assert(idx0.contains_key(b.bids[i].id));
                    }
                    if holds(b.asks, id) {
                        let i = choose|i: int| 0 <= i < b.asks.len() && (#[trigger] b.asks[i]).id == id;
                        assert(idx0.contains_key(b.asks[i].id));
                    }
                    assert(self.index@ == idx0);
                }
                false
            },
            Some((side, _price)) => {
                proof {
                    assert(idx0.contains_key(id));
                    if holds(b.bids, id) {
                        let i = choose|i: int| 0 <= i < b.bids.len() && (#[trigger] b.bids[i]).id == id;
                        assert(idx0[b.bids[i].id].0 == Side::Buy);
                        if holds(b.asks, id) {
                            let j = choose|j: int| 0 <= j < b.asks.len() && (#[trigger] b.asks[j]).id == id;
                            assert(b.bids[i].id != b.asks[j].id);
                        }
                    } else {
                        let i = choose|i: int| 0 <= i < b.asks.len() && (#[trigger] b.asks[i]).id == id;
                        assert(idx0[b.asks[i].id].0 == Side::Sell);
                    }
                }
                match side {
                    Side::Buy => {
                        let p = find_pos(&self.bids, id);
                        self.bids.remove(p);
                    },
                    Side::Sell => {
                        let p = find_pos(&self.asks, id);
                        self.asks.remove(p);
                    },
                }
                proof {
                    lemma_remove_keeps_valid(b, side, pos_of(b.side(side), id), idx0);
                    match side {
                        Side::Buy => assert(self@.asks == b.asks),
                        Side::Sell => assert(self@.bids == b.bids),
                    }
                }
                true
            },
        }
    }

    /// Side, price and remaining quantity of a live resting order.
    pub fn resting(&self, id: OrderId) -> (r: Option<(Side, Price, Qty)>)
        requires
            self.wf(),
        ensures
            r == self@.resting(id),
    {
        let ghost b = self@;
        match self.index.get(&id) {
            None => {
                proof {
                    if holds(b.bids, id) {
                        let i = choose|i: int| 0 <= i < b.bids.len() && (#[trigger] b.bids[i]).id == id;
                        assert(self.index@.contains_key(b.bids[i].id));
                    }
                    if holds(b.asks, id) {
                        let i = choose|i: int| 0 <= i < b.asks.len() && (#[trigger] b.asks[i]).id == id;
                        assert(self.index@.contains_key(b.asks[i].id));
                    }
                }
                None
            },
            Some(entry) => {
                let (side, price) = *entry;
                proof {
                    assert(self.index@.contains_key(id));
                    if holds(b.bids, id) {
                        let i = choose|i: int| 0 <= i < b.bids.len() && (#[trigger] b.bids[i]).id == id;
                        assert(self.index@[b.bids[i].id].0 == Side::Buy);
                    } else {
                        let i = choose|i: int| 0 <= i < b.asks.len() && (#[trigger] b.asks[i]).id == id;
                        assert(self.index@[b.asks[i].id].0 == Side::Sell);
                    }
                }
                match side {
                    Side::Buy => {
                        let p = find_pos(&self.bids, id);
                        Some((Side::Buy, self.bids[p].price, self.bids[p].qty))
                    },
                    Side::Sell => {
                        let p = find_pos(&self.asks, id);
                        Some((Side::Sell, self.asks[p].price, self.asks[p].qty))
                    },
                }
            },
        }
    }

    /// Whether each of the top `n` price levels of one side totals at most
    /// `Qty::MAX`, as `depth` needs to report them.
    pub fn level_totals_fit(&self, side: Side, n: usize) -> (r: bool)
        requires
            self.wf(),
        ensures
            r == forall|k: int|
                0 <= k < n && k < levels(self@.side(side)).len() ==> #[trigger] levels(
                    self@.side(side),
                )[k].1 <= u32::MAX,
    {
        let s = match side {
            Side::Buy => &self.bids,
            Side::Sell => &self.asks,
        };
        let ghost ss = s@;
        let ghost all = levels(ss);
        assert(ss.take(ss.len() as int) =~= ss);
        assert(ss.take(0) =~= Seq::<Resting>::empty());
        let mut count: usize = 0;
        let mut last_price: Price = 0;
        let mut total: u64 = 0;
        let mut i: usize = 0;
        while i < s.len() && (count < n || (count > 0 && last_price == s[i].price))
            invariant
                ss == s@,
                ss == self@.side(side),
                all == levels(ss),
                ss.take(ss.len() as int) == ss,
                i <= ss.len(),
                count <= n,
                count == levels(ss.take(i as int)).len(),
                count > 0 ==> last_price == levels(ss.take(i as int)).last().0 && total
                    == levels(ss.take(i as int)).last().1,
                total <= u32::MAX,
                forall|k: int| 0 <= k < count - 1 ==> #[trigger] levels(ss.take(i as int))[k].1 <= u32::MAX,
            decreases ss.len() - i,
        {
            let o = s[i];
            let ghost li = levels(ss.take(i as int));
            let ghost lj = levels(ss.take(i + 1));
            proof {
                assert(ss.take(i + 1).drop_last() =~= ss.take(i as int));
                assert(ss.take(i + 1).last() == o);
            }
            if count > 0 && last_price == o.price {
                total = total + o.qty as u64;
            } else {
                count = count + 1;
                last_price = o.price;
                total = o.qty as u64;
            }
            if total > u32::MAX as u64 {
                proof {
                    lemma_levels_grow(ss, i + 1, ss.len() as int);
                    assert(all[count - 1].1 >= lj[count - 1].1);
                }
                return false;
            }
            i = i + 1;
        }
        proof {
            let li = levels(ss.take(i as int));
            if i < ss.len() {
                lemma_levels_fixed(ss, i as int, ss.len() as int);
            }
            assert forall|k: int| 0 <= k < n && k < all.len() implies #[trigger] all[k].1 <= u32::MAX by {
                if i < ss.len() {
                    assert(all[k] == li[k]);
                } else {
                    assert(all == li);
                }
            }
        }
        true
    }

    /// Hands over the events produced so far and leaves none behind.
    pub fn take_events(&mut self) -> (evs: Vec<Event>)
        requires
            old(self).wf(),
        ensures
            final(self).wf(),
            evs@ == old(self)@.events,
            final(self)@ == (BookView { events: Seq::<Event>::empty(), ..old(self)@ }),
    {
        let mut evs = Vec::new();
        std::mem::swap(&mut evs, &mut self.events);
        evs
    }

    /// The events produced so far and not yet drained.
    pub fn view_events(&self) -> (evs: &Vec<Event>)
        ensures
            evs@ == self@.events,
    {
        &self.events
    }

    /// The id the next submitted order will get.
    pub fn next_order_id(&self) -> (id: OrderId)
        ensures
            id == self@.next_id,
    {
        self.next_id
    }
    /// Total resting quantity at each of the top `n` price levels of one
    /// side, best first.
    pub fn depth(&self, side: Side, n: usize) -> (r: Vec<(Price, Qty)>)
        requires
            self.wf(),
            forall|k: int|
                0 <= k < n && k < levels(self@.side(side)).len() ==> #[trigger] levels(
                    self@.side(side),
                )[k].1 <= u32::MAX,
        ensures
            r@.len() == if n < levels(self@.side(side)).len() {
                n as int
            } else {
                levels(self@.side(side)).len() as int
            },
            forall|k: int|
                0 <= k < r@.len() ==> (#[trigger] r@[k]).0 == levels(self@.side(side))[k].0 && r@[k].1
                    == levels(self@.side(side))[k].1,
    {
        let s = match side {
            Side::Buy => &self.bids,
            Side::Sell => &self.asks,
        };
        let ghost ss = s@;
        let ghost all = levels(ss);
        assert(ss.take(ss.len() as int) =~= ss);
        assert(ss.take(0) =~= Seq::<Resting>::empty());
        assert forall|k: int| 0 <= k < n && k < all.len() implies #[trigger] all[k].1 <= u32::MAX by {
            assert(levels(self@.side(side))[k].1 <= u32::MAX);
        }
        let mut out: Vec<(Price, Qty)> = Vec::new();
        let mut i: usize = 0;
        while i < s.len() && (out.len() < n || !opens_level(&out, s[i].price))
            invariant
                ss == s@,
                ss == self@.side(side),
                all == levels(ss),
                ss.take(ss.len() as int) == ss,
                forall|k: int| 0 <= k < n && k < all.len() ==> #[trigger] all[k].1 <= u32::MAX,
                i <= ss.len(),
                out@.len() <= n,
                out@.len() == levels(ss.take(i as int)).len(),
                forall|k: int|
                    0 <= k < out@.len() ==> (#[trigger] out@[k]).0 == levels(ss.take(i as int))[k].0
                        && out@[k].1 == levels(ss.take(i as int))[k].1,
            decreases ss.len() - i,
        {
            let o = s[i];
            let ghost li = levels(ss.take(i as int));
            let ghost lj = levels(ss.take(i + 1));
            proof {
                assert(ss.take(i + 1).drop_last() =~= ss.take(i as int));
                assert(ss.take(i + 1).last() == o);
                lemma_levels_grow(ss, i + 1, ss.len() as int);
            }
            if out.len() > 0 && out[out.len() - 1].0 == o.price {
                let last = out.len() - 1;
                let (p, q) = out[last];
                proof {
                    assert(lj.len() == li.len());
                    assert(lj[last as int].1 == q + o.qty);
                    assert(all[last as int].1 >= lj[last as int].1);
                    assert(all[last as int].1 <= u32::MAX);
                }
                out.set(last, (p, q + o.qty));
            } else {
                out.push((o.price, o.qty));
            }
            i = i + 1;
        }
        proof {
            if i < ss.len() {
                let li = levels(ss.take(i as int));
                if li.len() > 0 {
                    assert(out@.last().0 == li.last().0);
                }
                lemma_levels_fixed(ss, i as int, ss.len() as int);
            }
        }
        out
    }
}

impl Default for Book {
    fn default() -> (b: Book)
        ensures
            b.wf(),
            b@.bids == Seq::<Resting>::empty(),
            b@.asks == Seq::<Resting>::empty(),
            b@.next_id == 1,
            b@.events == Seq::<Event>::empty(),
    {
        Book::new()
    }
}

/// A book that keeps its invariant has a valid abstract state.
pub proof fn lemma_wf_valid(b: &Book)
    requires
        b.wf(),
    ensures
        b@.valid(),
{
}

/// What matching leaves of a side in priority order is still in priority
/// order, with distinct ids and positive quantities, and when the incoming
/// order has quantity left, nothing left there crosses it.
pub proof fn lemma_match_props(opp: Seq<Resting>, side: Side, limit: Price, qty: Qty, taker: OrderId, owner: Owner)
    requires
        in_priority(opp, side.opposite()),
        distinct_ids(opp),
        forall|i: int| 0 <= i < opp.len() ==> (#[trigger] opp[i]).qty > 0,
    ensures
        ({
            let m = match_against(opp, side, limit, qty, taker, owner);
            &&& in_priority(m.0, side.opposite())
            &&& distinct_ids(m.0)
            &&& forall|i: int| 0 <= i < m.0.len() ==> (#[trigger] m.0[i]).qty > 0
            &&& m.2 > 0 ==> m.0.len() == 0 || !crosses(side, limit, m.0[0].price)
        }),
    decreases opp.len(),
{
    if !(qty == 0 || opp.len() == 0 || !crosses(side, limit, opp[0].price)) {
        let head = opp[0];
        let tail = opp.drop_first();
        if head.owner == owner || head.qty <= qty {
            assert forall|i: int, j: int| 0 <= i < j < tail.len() implies ahead_of(side.opposite(), #[trigger] tail[i], #[trigger] tail[j]) by {
                assert(ahead_of(side.opposite(), opp[i + 1], opp[j + 1]));
            }
            assert forall|i: int, j: int| 0 <= i < tail.len() && 0 <= j < tail.len() && i != j implies (#[trigger] tail[i]).id
                != (#[trigger] tail[j]).id by {
                assert(opp[i + 1].id != opp[j + 1].id);
            }
            assert forall|i: int| 0 <= i < tail.len() implies (#[trigger] tail[i]).qty > 0 by {
                assert(tail[i] == opp[i + 1]);
            }
            let q2 = if head.owner == owner { qty } else { (qty - head.qty) as Qty };
            lemma_match_props(tail, side, limit, q2, taker, owner);
        } else {
            let n = opp.update(0, Resting { qty: (head.qty - qty) as Qty, ..head });
            assert forall|i: int, j: int| 0 <= i < j < n.len() implies ahead_of(side.opposite(), #[trigger] n[i], #[trigger] n[j]) by {
                assert(ahead_of(side.opposite(), opp[i], opp[j]));
            }
            assert forall|i: int, j: int| 0 <= i < n.len() && 0 <= j < n.len() && i != j implies (#[trigger] n[i]).id
                != (#[trigger] n[j]).id by {
                assert(opp[i].id != opp[j].id);
            }
        }
    }
}

/// The index a valid book's orders determine: each live id with its side
/// and price.
pub open spec fn index_of(b: BookView) -> Map<OrderId, (Side, Price)> {
    Map::new(
        |id: OrderId| b.is_live(id),
        |id: OrderId|
            match b.resting(id) {
                Some(r) => (r.0, r.1),
                None => (Side::Buy, 0),
            },
    )
}

proof fn lemma_index_of(b: BookView)
    requires
        b.valid(),
    ensures
        indexed(index_of(b), b.bids, Side::Buy),
        indexed(index_of(b), b.asks, Side::Sell),
        forall|id: OrderId| #[trigger] index_of(b).contains_key(id) ==> holds(b.bids, id) || holds(b.asks, id),
{
    let idx = index_of(b);
    assert forall|i: int| 0 <= i < b.bids.len() implies idx.contains_key((#[trigger] b.bids[i]).id) && idx[b.bids[i].id] == (
    Side::Buy, b.bids[i].price) by {
        let id = b.bids[i].id;
        assert(holds(b.bids, id));
        let p = pos_of(b.bids, id);
        assert(b.bids[p].id == id);
        assert(p == i);
    }
    assert forall|i: int| 0 <= i < b.asks.len() implies idx.contains_key((#[trigger] b.asks[i]).id) && idx[b.asks[i].id] == (
    Side::Sell, b.asks[i].price) by {
        let id = b.asks[i].id;
        assert(holds(b.asks, id));
        if holds(b.bids, id) {
            let j = choose|j: int| 0 <= j < b.bids.len() && (#[trigger] b.bids[j]).id == id;
            assert(b.bids[j].id != b.asks[i].id);
        }
        let p = pos_of(b.asks, id);
        assert(b.asks[p].id == id);
        assert(p == i);
    }
}

/// Matching an incoming order and handing out its id leaves a valid book
/// valid, with an index that lists exactly the orders still live, and every
/// live id older than the new order's.
#[verifier::spinoff_prover]
#[verifier::rlimit(60)]
proof fn lemma_after_match(b: BookView, side: Side, limit: Price, qty: Qty, owner: Owner) -> (idx1: Map<
    OrderId,
    (Side, Price),
>)
    requires
        b.valid(),
        b.next_id < u64::MAX,
    ensures
        ({
            let id = b.next_id;
            let m = match_against(b.side(side.opposite()), side, limit, qty, id, owner);
            let b2 = BookView { next_id: (id + 1) as OrderId, ..b.with_side(side.opposite(), m.0) };
            &&& b2.valid()
            &&& indexed(idx1, b2.bids, Side::Buy)
            &&& indexed(idx1, b2.asks, Side::Sell)
            &&& forall|x: OrderId| #[trigger] idx1.contains_key(x) ==> holds(b2.bids, x) || holds(b2.asks, x)
            &&& forall|i: int| 0 <= i < b2.bids.len() ==> (#[trigger] b2.bids[i]).id < id
            &&& forall|i: int| 0 <= i < b2.asks.len() ==> (#[trigger] b2.asks[i]).id < id
            &&& m.2 > 0 ==> m.0.len() == 0 || !crosses(side, limit, m.0[0].price)
        }),
{
    let oside = side.opposite();
    let id = b.next_id;
    let opp0 = b.side(oside);
    let m = match_against(opp0, side, limit, qty, id, owner);
    let opp1 = m.0;
    match side {
        Side::Buy => assert(opp0 == b.asks),
        Side::Sell => assert(opp0 == b.bids),
    }
    assert forall|i: int| 0 <= i < opp0.len() implies (#[trigger] opp0[i]).qty > 0 by {
        match side {
            Side::Buy => assert(b.asks[i].qty > 0),
            Side::Sell => assert(b.bids[i].qty > 0),
        }
    }
    lemma_match_props(opp0, side, limit, qty, id, owner);
    crate::laws::lemma_match_trims(opp0, side, limit, qty, id, owner);
    lemma_index_of(b);
    let idx0 = index_of(b);
    let idx1 = Map::new(
        |x: OrderId| idx0.contains_key(x) && (!holds(opp0, x) || holds(opp1, x)),
        |x: OrderId| idx0[x],
    );
    let d = opp0.len() - opp1.len();
    assert forall|i: int| 0 <= i < opp1.len() implies idx1.contains_key((#[trigger] opp1[i]).id) && idx1[opp1[i].id] == (
    oside, opp1[i].price) by {
        assert(same_order(opp1[i], opp0[i + d]));
        match side {
            Side::Buy => assert(idx0.contains_key(b.asks[i + d].id)),
            Side::Sell => assert(idx0.contains_key(b.bids[i + d].id)),
        }
    }
    assert(indexed(idx1, opp1, oside));
    lemma_trim_keeps_valid(b, side, opp1, idx0, idx1);
    let b1 = b.with_side(oside, opp1);
    assert forall|i: int| 0 <= i < b1.bids.len() implies (#[trigger] b1.bids[i]).id < id by {
        match side {
            Side::Buy => assert(b1.bids[i] == b.bids[i]),
            Side::Sell => assert(same_order(opp1[i], opp0[i + d])),
        }
    }
    assert forall|i: int| 0 <= i < b1.asks.len() implies (#[trigger] b1.asks[i]).id < id by {
        match side {
            Side::Buy => assert(same_order(opp1[i], opp0[i + d])),
            Side::Sell => assert(b1.asks[i] == b.asks[i]),
        }
    }
    idx1
}

/// Every submitted order leaves a valid book valid.
#[verifier::spinoff_prover]
#[verifier::rlimit(60)]
pub proof fn law_submit_keeps_valid(b: BookView, side: Side, limit: Price, qty: Qty, owner: Owner, rests: bool)
    requires
        b.valid(),
        b.next_id < u64::MAX,
    ensures
        submit(b, side, limit, qty, owner, rests).0.valid(),
{
    let oside = side.opposite();
    let id = b.next_id;
    let m = match_against(b.side(oside), side, limit, qty, id, owner);
    let idx1 = lemma_after_match(b, side, limit, qty, owner);
    let b2 = BookView { next_id: (id + 1) as OrderId, ..b.with_side(oside, m.0) };
    let r = submit(b, side, limit, qty, owner, rests);
    if rests && m.2 > 0 {
        let o = Resting { id: id, price: limit, qty: m.2, owner: owner };
        let own = b.side(side);
        assert(b2.side(side) == own);
        assert(b2.side(oside) == m.0);
        assert forall|i: int| 0 <= i < own.len() implies (#[trigger] own[i]).id < o.id by {
            match side {
                Side::Buy => assert(b2.bids[i] == own[i]),
                Side::Sell => assert(b2.asks[i] == own[i]),
            }
        }
        lemma_join_in_priority(own, side, o);
        lemma_join_keeps_valid(b2, side, o, join(own, side, o), idx1);
        assert(r.0 == BookView { events: b.events + m.1, ..b2.with_side(side, join(own, side, o)) });
    } else {
        assert(r.0 == BookView { events: b.events + m.1, ..b2 });
    }
}

/// A cancel leaves a valid book valid.
pub proof fn law_cancel_keeps_valid(b: BookView, id: OrderId)
    requires
        b.valid(),
    ensures
        without(b, id).valid(),
{
    lemma_index_of(b);
    if holds(b.bids, id) {
        let p = pos_of(b.bids, id);
        lemma_remove_keeps_valid(b, Side::Buy, p, index_of(b));
    } else if holds(b.asks, id) {
        let p = pos_of(b.asks, id);
        lemma_remove_keeps_valid(b, Side::Sell, p, index_of(b));
    }
}

} // verus!
