//! What the simulation core's housekeeping promises on all inputs: expiry
//! leaves no stale noise order at the front of the queue, noise orders go
//! in at the right side of their anchor, the desks forget exactly their
//! dead orders, and the tape records each fill as it happened.

use vstd::prelude::*;

use crate::book::law_cancel_keeps_valid;
use crate::laws::law_cancel_removes_only_that_order;
use crate::model::{without, BookView};
use crate::order::{Event, Fill, OrderId, Side};
use crate::sim::{
    apply_fill, expire, fill_fits, front_due, live_ids, noise_price, prints, Account, NOISE_ORDER_TTL,
    NOISE_QUEUE_CAP,
};

verus! {

/// Expiry cancels stale noise orders until none is left at the front of
/// the queue: afterwards the front order (if any) is not due (younger than
/// the time to live, with the queue under its cap), what is left of the
/// queue is its back part, every order taken off the queue was due when it
/// was taken and is off the book, and no order has come onto the book.
pub proof fn law_expire_leaves_nothing_due(b: BookView, q: Seq<(OrderId, u64)>, tick: u64)
    requires
        b.valid(),
    ensures
        ({
            let e = expire(b, q, tick);
            let n = q.len() - e.1.len();
            &&& e.0.valid()
            &&& !front_due(e.1, tick)
            &&& 0 <= n <= q.len()
            &&& e.1 == q.skip(n)
            &&& forall|i: int| 0 <= i < n ==> !e.0.is_live(#[trigger] q[i].0)
            &&& forall|x: OrderId| #[trigger] e.0.is_live(x) ==> b.is_live(x)
            &&& e.1.len() > 0 ==> tick - e.1[0].1 < NOISE_ORDER_TTL && e.1.len() < NOISE_QUEUE_CAP
            &&& forall|i: int|
                0 <= i < n ==> tick - (#[trigger] q[i]).1 >= NOISE_ORDER_TTL || q.len() - i >= NOISE_QUEUE_CAP
        }),
    decreases q.len(),
{
    let e = expire(b, q, tick);
    if front_due(q, tick) {
        let id = q[0].0;
        let b1 = without(b, id);
        let q1 = q.drop_first();
        law_cancel_keeps_valid(b, id);
        law_cancel_removes_only_that_order(b, id);
        law_expire_leaves_nothing_due(b1, q1, tick);
        assert(e == expire(b1, q1, tick));
        let n = q.len() - e.1.len();
        assert(q1.skip(n - 1) =~= q.skip(n));
        assert forall|i: int| 0 <= i < n implies !e.0.is_live(#[trigger] q[i].0) by {
            if i == 0 {
                if e.0.is_live(id) {
                    assert(b1.is_live(id));
                }
            } else {
                assert(q[i] == q1[i - 1]);
            }
        }
        assert forall|x: OrderId| #[trigger] e.0.is_live(x) implies b.is_live(x) by {
            assert(b1.is_live(x));
        }
        assert forall|i: int| 0 <= i < n implies tick - (#[trigger] q[i]).1 >= NOISE_ORDER_TTL || q.len() - i
            >= NOISE_QUEUE_CAP by {
            if i > 0 {
                assert(q[i] == q1[i - 1]);
            }
        }
    } else {
        assert(q.skip(0) =~= q);
    }
}

/// Where a noise trader's limit order goes relative to its anchor: an
/// improving order is one tick away from the anchor, any other order `off`
/// ticks away; and the order is strictly better than the anchor (higher
/// for a buy, lower for a sell) exactly when it improves, so a
/// non-improving order never goes in front of the touch it is anchored to.
pub proof fn law_noise_price_near_anchor(side: Side, anchor: int, off: int, improve: bool)
    requires
        off >= 0,
    ensures
        ({
            let p = noise_price(side, anchor, off, improve);
            &&& (if p >= anchor {
                p - anchor
            } else {
                anchor - p
            }) == if improve {
                1
            } else {
                off
            }
            &&& improve <==> (side == Side::Buy && p > anchor || side == Side::Sell && p < anchor)
        }),
{
}

/// Forgetting dead desk orders keeps exactly the live ones: an id is still
/// listed afterwards exactly when it was listed and its order is live, and
/// the list does not grow.
pub proof fn law_prune_keeps_exactly_the_live(b: BookView, ids: Seq<OrderId>)
    ensures
        forall|id: OrderId| #[trigger] live_ids(b, ids).contains(id) <==> (ids.contains(id) && b.is_live(id)),
        live_ids(b, ids).len() <= ids.len(),
{
    let p = |id: OrderId| b.is_live(id);
    let kept = live_ids(b, ids);
    assert(kept == ids.filter(p));
    ids.lemma_filter_len(p);
    assert forall|id: OrderId| #[trigger] kept.contains(id) <==> (ids.contains(id) && b.is_live(id)) by {
        if kept.contains(id) {
            ids.lemma_filter_contains_rev(p, id);
            let k = choose|k: int| 0 <= k < kept.len() && kept[k] == id;
            ids.lemma_filter_pred(p, k);
        }
        if ids.contains(id) && b.is_live(id) {
            let i = choose|i: int| 0 <= i < ids.len() && ids[i] == id;
            ids.lemma_filter_contains(p, i);
        }
    }
}

/// The fills among `evs`, in order.
pub open spec fn fills_of(evs: Seq<Event>) -> Seq<Fill>
    decreases evs.len(),
{
    if evs.len() == 0 {
        Seq::empty()
    } else {
        (match evs[0] {
            Event::Fill(f) => seq![f],
            Event::SelfMatch { .. } => Seq::empty(),
        }) + fills_of(evs.drop_first())
    }
}

/// The tape records each fill as it happened: one print per fill, in the
/// order of the fills, each stamped with the tick and carrying its fill's
/// price, quantity, aggressor side, maker and taker.
pub proof fn law_prints_record_their_fills(evs: Seq<Event>, tick: u64)
    ensures
        prints(evs, tick).len() == fills_of(evs).len(),
        forall|k: int|
            0 <= k < fills_of(evs).len() ==> {
                let t = #[trigger] prints(evs, tick)[k];
                let f = fills_of(evs)[k];
                &&& t.tick == tick
                &&& t.price == f.price
                &&& t.qty == f.qty
                &&& t.taker_side == f.taker_side
                &&& t.maker_owner == f.maker_owner
                &&& t.taker_owner == f.taker_owner
            },
    decreases evs.len(),
{
    if evs.len() > 0 {
        let rest = evs.drop_first();
        law_prints_record_their_fills(rest, tick);
        match evs[0] {
            Event::Fill(f) => {
                assert forall|k: int| 0 < k < fills_of(evs).len() implies #[trigger] prints(evs, tick)[k]
                    == prints(rest, tick)[k - 1] && fills_of(evs)[k] == fills_of(rest)[k - 1] by {}
                assert(prints(evs, tick)[0].maker_owner == f.maker_owner);
                assert(fills_of(evs)[0] == f);
            },
            Event::SelfMatch { .. } => {
                assert(prints(evs, tick) =~= prints(rest, tick));
                assert(fills_of(evs) =~= fills_of(rest));
            },
        }
    }
}


/// A fill moves value between its two parties and nowhere else: the
/// buyer (the taker of a buy, the maker of a sell) gains the lots and pays
/// their price, the seller loses the lots and is paid, both add the lots
/// to their volume, and every other account is untouched.
pub proof fn law_fill_moves_value_between_its_parties(a: Seq<Account>, f: Fill)
    requires
        fill_fits(a, f),
        f.maker_owner != f.taker_owner,
    ensures
        ({
            let a2 = apply_fill(a, f);
            let n = f.price * f.qty;
            let t = f.taker_owner as int;
            let m = f.maker_owner as int;
            let (b, sl) = if f.taker_side == Side::Buy {
                (t, m)
            } else {
                (m, t)
            };
            &&& a2.len() == a.len()
            &&& a2[b].inventory == a[b].inventory + f.qty
            &&& a2[b].cash == a[b].cash - n
            &&& a2[sl].inventory == a[sl].inventory - f.qty
            &&& a2[sl].cash == a[sl].cash + n
            &&& a2[t].volume == a[t].volume + f.qty
            &&& a2[m].volume == a[m].volume + f.qty
            &&& forall|k: int| 0 <= k < a.len() && k != t && k != m ==> #[trigger] a2[k] == a[k]
        }),
{
}

} // verus!
