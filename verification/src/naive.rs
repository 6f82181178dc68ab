//! A deliberately naive order book, kept as a specification: every resting
//! order in one list, and an incoming order trades by scanning that list
//! for the best crossing order (best price, then earliest arrival) each
//! time. It is slow and too simple to be wrong. The laws at the end prove
//! that the book of `crate::book` emits exactly the same events and ids as
//! this one, operation by operation, for every stream of operations.

use vstd::prelude::*;

use crate::book::{lemma_match_left_le, lemma_rest_pos_bounds};
use crate::model::{
    ahead_of, crosses, distinct_ids, fill_event, holds, in_priority, join, match_against, pos_of,
    rest_pos, submit, without, BookView, Resting,
};
use crate::order::{Event, OrderId, Owner, Price, Qty, Side};

verus! {

/// A resting order of the naive book; `seq` records arrival.
pub struct NaiveOrder {
    pub id: OrderId,
    pub side: Side,
    pub price: Price,
    pub qty: Qty,
    pub owner: Owner,
    pub seq: u64,
}

pub struct NaiveBook {
    pub resting: Seq<NaiveOrder>,
    pub next_id: OrderId,
    pub next_seq: u64,
}

pub open spec fn as_resting(o: NaiveOrder) -> Resting {
    Resting { id: o.id, price: o.price, qty: o.qty, owner: o.owner }
}

/// Order `i` of `r` is one an incoming order on `side` with limit `limit`
/// could trade with.
pub open spec fn candidate(r: Seq<NaiveOrder>, side: Side, limit: Price, i: int) -> bool {
    0 <= i < r.len() && r[i].side != side && crosses(side, limit, r[i].price)
}

/// For an incoming order on `side`, resting order `o` is preferred to `b`:
/// a better price for the incoming order, or the same price and earlier
/// arrival.
pub open spec fn preferred(side: Side, o: NaiveOrder, b: NaiveOrder) -> bool {
    let better = match side {
        Side::Buy => o.price < b.price,
        Side::Sell => o.price > b.price,
    };
    better || (o.price == b.price && o.seq < b.seq)
}

/// Order `i` is the one a full scan picks: a candidate preferred to every
/// other candidate.
pub open spec fn scan_pick(r: Seq<NaiveOrder>, side: Side, limit: Price, i: int) -> bool {
    &&& candidate(r, side, limit, i)
    &&& forall|j: int| #[trigger] candidate(r, side, limit, j) && j != i ==> preferred(side, r[i], r[j])
}

/// Matching by scanning: while quantity is left and a scan finds a
/// candidate, the picked order is canceled if it has the incoming order's
/// owner, and otherwise trades at its price for as much as both have.
pub open spec fn naive_take(
    r: Seq<NaiveOrder>,
    side: Side,
    limit: Price,
    qty: Qty,
    taker: OrderId,
    owner: Owner,
) -> (Seq<NaiveOrder>, Seq<Event>, Qty)
    decreases r.len(),
{
    if qty == 0 || !(exists|i: int| scan_pick(r, side, limit, i)) {
        (r, Seq::empty(), qty)
    } else {
        let i = choose|i: int| scan_pick(r, side, limit, i);
        let o = r[i];
        if o.owner == owner {
            let t = naive_take(r.remove(i), side, limit, qty, taker, owner);
            (t.0, seq![Event::SelfMatch { canceled: o.id, owner: owner, lost_qty: o.qty }] + t.1, t.2)
        } else if o.qty <= qty {
            let t = naive_take(r.remove(i), side, limit, (qty - o.qty) as Qty, taker, owner);
            (t.0, seq![fill_event(as_resting(o), o.qty, taker, owner, side)] + t.1, t.2)
        } else {
            (
                r.update(i, NaiveOrder { qty: (o.qty - qty) as Qty, ..o }),
                seq![fill_event(as_resting(o), qty, taker, owner, side)],
                0,
            )
        }
    }
}

/// A limit order on the naive book: the next id, matching by scanning, and
/// any remainder appended to the list with the next arrival number.
pub open spec fn naive_limit(n: NaiveBook, side: Side, price: Price, qty: Qty, owner: Owner) -> (
    NaiveBook,
    Seq<Event>,
    OrderId,
) {
    let id = n.next_id;
    let t = naive_take(n.resting, side, price, qty, id, owner);
    let rested = if t.2 > 0 {
        NaiveBook {
            resting: t.0.push(
                NaiveOrder { id: id, side: side, price: price, qty: t.2, owner: owner, seq: n.next_seq },
            ),
            next_id: (id + 1) as OrderId,
            next_seq: (n.next_seq + 1) as u64,
        }
    } else {
        NaiveBook { resting: t.0, next_id: (id + 1) as OrderId, next_seq: n.next_seq }
    };
    (rested, t.1, id)
}

/// An immediate-or-cancel order on the naive book: the next id and matching
/// by scanning, nothing rests. Gives the quantity filled.
pub open spec fn naive_ioc(n: NaiveBook, side: Side, limit: Price, qty: Qty, owner: Owner) -> (
    NaiveBook,
    Seq<Event>,
    Qty,
) {
    let id = n.next_id;
    let t = naive_take(n.resting, side, limit, qty, id, owner);
    (NaiveBook { resting: t.0, next_id: (id + 1) as OrderId, ..n }, t.1, (qty - t.2) as Qty)
}

/// Cancels the order with id `id` if it rests, saying whether it did.
pub open spec fn naive_cancel(n: NaiveBook, id: OrderId) -> (NaiveBook, bool) {
    if exists|i: int| 0 <= i < n.resting.len() && (#[trigger] n.resting[i]).id == id {
        let i = choose|i: int| 0 <= i < n.resting.len() && (#[trigger] n.resting[i]).id == id;
        (NaiveBook { resting: n.resting.remove(i), ..n }, true)
    } else {
        (n, false)
    }
}

pub open spec fn naive_new() -> NaiveBook {
    NaiveBook { resting: Seq::empty(), next_id: 1, next_seq: 0 }
}

/// The same order, seen from both books.
pub open spec fn agree(o: NaiveOrder, x: Resting) -> bool {
    o.id == x.id && o.price == x.price && o.qty == x.qty && o.owner == x.owner
}

/// Some order of `r` on `side` is the order `x`.
pub open spec fn naive_holds(r: Seq<NaiveOrder>, side: Side, x: Resting) -> bool {
    exists|i: int| 0 <= i < r.len() && r[i].side == side && #[trigger] agree(r[i], x)
}

/// Some order of `s` is the order `o`.
pub open spec fn book_holds(s: Seq<Resting>, o: NaiveOrder) -> bool {
    exists|k: int| 0 <= k < s.len() && #[trigger] agree(o, s[k])
}

/// The orders of `r` on `side` are exactly the orders of `s`.
pub open spec fn side_mirrors(r: Seq<NaiveOrder>, s: Seq<Resting>, side: Side) -> bool {
    &&& forall|i: int| 0 <= i < r.len() && (#[trigger] r[i]).side == side ==> book_holds(s, r[i])
    &&& forall|k: int| 0 <= k < s.len() ==> naive_holds(r, side, #[trigger] s[k])
}

/// No two orders of `r` share an id.
pub open spec fn naive_distinct(r: Seq<NaiveOrder>) -> bool {
    forall|i: int, j: int|
        0 <= i < r.len() && 0 <= j < r.len() && i != j ==> (#[trigger] r[i]).id != (#[trigger] r[j]).id
}

/// The naive list is well kept: ids distinct, arrival numbers in the order
/// of ids, and both below the next ones to be handed out.
pub open spec fn naive_valid(r: Seq<NaiveOrder>, next_id: OrderId, next_seq: u64) -> bool {
    &&& naive_distinct(r)
    &&& forall|i: int, j: int|
        0 <= i < r.len() && 0 <= j < r.len() ==> ((#[trigger] r[i]).seq < (#[trigger] r[j]).seq <==> r[i].id
            < r[j].id)
    &&& forall|i: int| 0 <= i < r.len() ==> (#[trigger] r[i]).id < next_id && r[i].seq < next_seq
}

/// The naive book `n` holds the same orders as the book `b`, and both hand
/// out the same next id.
pub open spec fn mirrors(n: NaiveBook, b: BookView) -> bool {
    &&& n.next_id == b.next_id
    &&& naive_valid(n.resting, n.next_id, n.next_seq)
    &&& side_mirrors(n.resting, b.bids, Side::Buy)
    &&& side_mirrors(n.resting, b.asks, Side::Sell)
}

proof fn lemma_remove_mirrors(r: Seq<NaiveOrder>, s: Seq<Resting>, side: Side, i0: int, p: int)
    requires
        side_mirrors(r, s, side),
        naive_distinct(r),
        distinct_ids(s),
        0 <= i0 < r.len(),
        0 <= p < s.len(),
        r[i0].side == side,
        agree(r[i0], s[p]),
    ensures
        side_mirrors(r.remove(i0), s.remove(p), side),
{
    let r1 = r.remove(i0);
    let s1 = s.remove(p);
    assert forall|i: int| 0 <= i < r1.len() && (#[trigger] r1[i]).side == side implies book_holds(s1, r1[i]) by {
        let j = if i < i0 { i } else { i + 1 };
        assert(r1[i] == r[j]);
        assert(book_holds(s, r[j]));
        let k = choose|k: int| 0 <= k < s.len() && #[trigger] agree(r[j], s[k]);
        assert(r[j].id != r[i0].id);
        assert(k != p);
        if k < p {
            assert(agree(r1[i], s1[k]));
        } else {
            assert(agree(r1[i], s1[k - 1]));
        }
    }
    assert forall|k: int| 0 <= k < s1.len() implies naive_holds(r1, side, #[trigger] s1[k]) by {
        let q = if k < p { k } else { k + 1 };
        assert(s1[k] == s[q]);
        assert(q != p);
        assert(s[q].id != s[p].id);
        assert(naive_holds(r, side, s[q]));
        let j = choose|j: int| 0 <= j < r.len() && r[j].side == side && #[trigger] agree(r[j], s[q]);
        assert(j != i0);
        if j < i0 {
            assert(r1[j] == r[j]);
            assert(agree(r1[j], s1[k]));
        } else {
            assert(r1[j - 1] == r[j]);
            assert(agree(r1[j - 1], s1[k]));
        }
    }
}

proof fn lemma_remove_other(r: Seq<NaiveOrder>, t: Seq<Resting>, side: Side, i0: int)
    requires
        side_mirrors(r, t, side),
        0 <= i0 < r.len(),
        r[i0].side != side,
    ensures
        side_mirrors(r.remove(i0), t, side),
{
    let r1 = r.remove(i0);
    assert forall|i: int| 0 <= i < r1.len() && (#[trigger] r1[i]).side == side implies book_holds(t, r1[i]) by {
        let j = if i < i0 { i } else { i + 1 };
        assert(r1[i] == r[j]);
    }
    assert forall|k: int| 0 <= k < t.len() implies naive_holds(r1, side, #[trigger] t[k]) by {
        assert(naive_holds(r, side, t[k]));
        let j = choose|j: int| 0 <= j < r.len() && r[j].side == side && #[trigger] agree(r[j], t[k]);
        assert(j != i0);
        if j < i0 {
            assert(r1[j] == r[j]);
        } else {
            assert(r1[j - 1] == r[j]);
        }
    }
}

proof fn lemma_update_mirrors(r: Seq<NaiveOrder>, s: Seq<Resting>, side: Side, i0: int, p: int, q: Qty)
    requires
        side_mirrors(r, s, side),
        naive_distinct(r),
        distinct_ids(s),
        0 <= i0 < r.len(),
        0 <= p < s.len(),
        r[i0].side == side,
        agree(r[i0], s[p]),
    ensures
        side_mirrors(r.update(i0, NaiveOrder { qty: q, ..r[i0] }), s.update(p, Resting { qty: q, ..s[p] }), side),
{
    let r1 = r.update(i0, NaiveOrder { qty: q, ..r[i0] });
    let s1 = s.update(p, Resting { qty: q, ..s[p] });
    assert forall|i: int| 0 <= i < r1.len() && (#[trigger] r1[i]).side == side implies book_holds(s1, r1[i]) by {
        if i == i0 {
            assert(agree(r1[i], s1[p]));
        } else {
            assert(book_holds(s, r[i]));
            let k = choose|k: int| 0 <= k < s.len() && #[trigger] agree(r[i], s[k]);
            assert(r[i].id != r[i0].id);
            assert(k != p);
            assert(agree(r1[i], s1[k]));
        }
    }
    assert forall|k: int| 0 <= k < s1.len() implies naive_holds(r1, side, #[trigger] s1[k]) by {
        if k == p {
            assert(agree(r1[i0], s1[k]));
        } else {
            assert(naive_holds(r, side, s[k]));
            let j = choose|j: int| 0 <= j < r.len() && r[j].side == side && #[trigger] agree(r[j], s[k]);
            assert(s[k].id != s[p].id);
            assert(j != i0);
            assert(agree(r1[j], s1[k]));
        }
    }
}

proof fn lemma_update_other(r: Seq<NaiveOrder>, t: Seq<Resting>, side: Side, i0: int, q: Qty)
    requires
        side_mirrors(r, t, side),
        0 <= i0 < r.len(),
        r[i0].side != side,
    ensures
        side_mirrors(r.update(i0, NaiveOrder { qty: q, ..r[i0] }), t, side),
{
    let r1 = r.update(i0, NaiveOrder { qty: q, ..r[i0] });
    assert forall|i: int| 0 <= i < r1.len() && (#[trigger] r1[i]).side == side implies book_holds(t, r1[i]) by {
        assert(r1[i] == r[i]);
    }
    assert forall|k: int| 0 <= k < t.len() implies naive_holds(r1, side, #[trigger] t[k]) by {
        assert(naive_holds(r, side, t[k]));
        let j = choose|j: int| 0 <= j < r.len() && r[j].side == side && #[trigger] agree(r[j], t[k]);
        assert(r1[j] == r[j]);
    }
}

proof fn lemma_valid_remove(r: Seq<NaiveOrder>, nid: OrderId, nseq: u64, i0: int)
    requires
        naive_valid(r, nid, nseq),
        0 <= i0 < r.len(),
    ensures
        naive_valid(r.remove(i0), nid, nseq),
{
    let r1 = r.remove(i0);
    assert forall|i: int| 0 <= i < r1.len() implies #[trigger] r1[i] == r[if i < i0 { i } else { i + 1 }] by {}
    assert forall|i: int, j: int| 0 <= i < r1.len() && 0 <= j < r1.len() && i != j implies (#[trigger] r1[i]).id
        != (#[trigger] r1[j]).id by {
        assert(r1[i] == r[if i < i0 { i } else { i + 1 }]);
        assert(r1[j] == r[if j < i0 { j } else { j + 1 }]);
    }
    assert forall|i: int, j: int| 0 <= i < r1.len() && 0 <= j < r1.len() implies ((#[trigger] r1[i]).seq < (
    #[trigger] r1[j]).seq <==> r1[i].id < r1[j].id) by {
        assert(r1[i] == r[if i < i0 { i } else { i + 1 }]);
        assert(r1[j] == r[if j < i0 { j } else { j + 1 }]);
    }
}

proof fn lemma_valid_update(r: Seq<NaiveOrder>, nid: OrderId, nseq: u64, i0: int, q: Qty)
    requires
        naive_valid(r, nid, nseq),
        0 <= i0 < r.len(),
    ensures
        naive_valid(r.update(i0, NaiveOrder { qty: q, ..r[i0] }), nid, nseq),
{
    let r1 = r.update(i0, NaiveOrder { qty: q, ..r[i0] });
    assert forall|i: int| 0 <= i < r1.len() implies (#[trigger] r1[i]).id == r[i].id && r1[i].seq == r[i].seq by {}
}

proof fn lemma_side_values(side: Side)
    ensures
        side.opposite() != side,
{
}

/// On a side in priority order that mirrors the naive list, the scan picks
/// exactly the order at the front when it crosses, and finds nothing when
/// the front does not cross.
proof fn lemma_scan_pick(r: Seq<NaiveOrder>, s: Seq<Resting>, side: Side, limit: Price, nid: OrderId, nseq: u64) -> (i0: int)
    requires
        side_mirrors(r, s, side.opposite()),
        naive_valid(r, nid, nseq),
        in_priority(s, side.opposite()),
        distinct_ids(s),
    ensures
        s.len() > 0 && crosses(side, limit, s[0].price) ==> {
            &&& 0 <= i0 < r.len()
            &&& r[i0].side == side.opposite()
            &&& agree(r[i0], s[0])
            &&& scan_pick(r, side, limit, i0)
            &&& forall|i: int| #[trigger] scan_pick(r, side, limit, i) ==> i == i0
        },
        !(s.len() > 0 && crosses(side, limit, s[0].price)) ==> !exists|i: int| scan_pick(r, side, limit, i),
{
    let oside = side.opposite();
    lemma_side_values(side);
    if s.len() > 0 && crosses(side, limit, s[0].price) {
        assert(naive_holds(r, oside, s[0]));
        let i0 = choose|i: int| 0 <= i < r.len() && r[i].side == oside && #[trigger] agree(r[i], s[0]);
        assert forall|j: int| #[trigger] candidate(r, side, limit, j) && j != i0 implies preferred(side, r[i0], r[j]) by {
            assert(r[j].side == oside);
            assert(book_holds(s, r[j]));
            let k = choose|k: int| 0 <= k < s.len() && #[trigger] agree(r[j], s[k]);
            if k == 0 {
                assert(r[j].id == r[i0].id);
            }
            assert(ahead_of(oside, s[0], s[k]));
            if s[0].price == s[k].price {
                assert(r[i0].id < r[j].id);
                assert(r[i0].seq < r[j].seq);
            }
        }
        assert(scan_pick(r, side, limit, i0));
        assert forall|i: int| #[trigger] scan_pick(r, side, limit, i) implies i == i0 by {
            if i != i0 {
                assert(preferred(side, r[i], r[i0]));
                assert(preferred(side, r[i0], r[i]));
            }
        }
        i0
    } else {
        if exists|i: int| scan_pick(r, side, limit, i) {
            let j = choose|i: int| scan_pick(r, side, limit, i);
            assert(r[j].side == oside);
            assert(book_holds(s, r[j]));
            let k = choose|k: int| 0 <= k < s.len() && #[trigger] agree(r[j], s[k]);
            crate::laws::law_next_match_is_the_scan_choice(s, side, limit);
            assert(crosses(side, limit, s[k].price));
        }
        0
    }
}

/// Matching on the book and matching by scanning the naive list give the
/// same events and the same remainder, and leave both books mirroring each
/// other.
proof fn lemma_take_mirrors(
    r: Seq<NaiveOrder>,
    s: Seq<Resting>,
    t: Seq<Resting>,
    side: Side,
    limit: Price,
    qty: Qty,
    taker: OrderId,
    owner: Owner,
    nid: OrderId,
    nseq: u64,
)
    requires
        side_mirrors(r, s, side.opposite()),
        side_mirrors(r, t, side),
        naive_valid(r, nid, nseq),
        in_priority(s, side.opposite()),
        distinct_ids(s),
    ensures
        ({
            let nt = naive_take(r, side, limit, qty, taker, owner);
            let mt = match_against(s, side, limit, qty, taker, owner);
            &&& nt.1 == mt.1
            &&& nt.2 == mt.2
            &&& side_mirrors(nt.0, mt.0, side.opposite())
            &&& side_mirrors(nt.0, t, side)
            &&& naive_valid(nt.0, nid, nseq)
        }),
    decreases s.len(),
{
    let oside = side.opposite();
    lemma_side_values(side);
    let i0 = lemma_scan_pick(r, s, side, limit, nid, nseq);
    if qty == 0 || !(s.len() > 0 && crosses(side, limit, s[0].price)) {
        return;
    }
    assert(exists|i: int| scan_pick(r, side, limit, i));
    let c = choose|i: int| scan_pick(r, side, limit, i);
    assert(c == i0);
    let o = r[i0];
    let head = s[0];
    assert(as_resting(o) == head);
    let tail = s.drop_first();
    assert(s.remove(0) =~= tail);
    assert forall|i: int, j: int| 0 <= i < j < tail.len() implies ahead_of(oside, #[trigger] tail[i], #[trigger] tail[j]) by {
        assert(ahead_of(oside, s[i + 1], s[j + 1]));
    }
    assert forall|i: int, j: int| 0 <= i < tail.len() && 0 <= j < tail.len() && i != j implies (#[trigger] tail[i]).id
        != (#[trigger] tail[j]).id by {
        assert(s[i + 1].id != s[j + 1].id);
    }
    if o.owner == owner || o.qty <= qty {
        let q2 = if o.owner == owner { qty } else { (qty - o.qty) as Qty };
        lemma_remove_mirrors(r, s, oside, i0, 0);
        lemma_remove_other(r, t, side, i0);
        lemma_valid_remove(r, nid, nseq, i0);
        lemma_take_mirrors(r.remove(i0), tail, t, side, limit, q2, taker, owner, nid, nseq);
    } else {
        let q = (o.qty - qty) as Qty;
        lemma_update_mirrors(r, s, oside, i0, 0, q);
        lemma_update_other(r, t, side, i0, q);
        lemma_valid_update(r, nid, nseq, i0, q);
        assert(NaiveOrder { qty: q, ..o } == NaiveOrder { qty: q, ..r[i0] });
    }
}

proof fn lemma_push_insert(r: Seq<NaiveOrder>, t: Seq<Resting>, side: Side, o: NaiveOrder, x: Resting, k: int)
    requires
        side_mirrors(r, t, side),
        o.side == side,
        agree(o, x),
        0 <= k <= t.len(),
    ensures
        side_mirrors(r.push(o), t.insert(k, x), side),
{
    let r1 = r.push(o);
    let t1 = t.insert(k, x);
    assert forall|i: int| 0 <= i < r1.len() && (#[trigger] r1[i]).side == side implies book_holds(t1, r1[i]) by {
        if i == r.len() {
            assert(agree(r1[i], t1[k]));
        } else {
            assert(r1[i] == r[i]);
            assert(book_holds(t, r[i]));
            let q = choose|q: int| 0 <= q < t.len() && #[trigger] agree(r[i], t[q]);
            if q < k {
                assert(agree(r1[i], t1[q]));
            } else {
                assert(agree(r1[i], t1[q + 1]));
            }
        }
    }
    assert forall|q: int| 0 <= q < t1.len() implies naive_holds(r1, side, #[trigger] t1[q]) by {
        if q == k {
            assert(agree(r1[r.len() as int], t1[q]));
        } else {
            let q0 = if q < k { q } else { q - 1 };
            assert(t1[q] == t[q0]);
            assert(naive_holds(r, side, t[q0]));
            let j = choose|j: int| 0 <= j < r.len() && r[j].side == side && #[trigger] agree(r[j], t[q0]);
            assert(r1[j] == r[j]);
        }
    }
}

proof fn lemma_push_other(r: Seq<NaiveOrder>, t: Seq<Resting>, side: Side, o: NaiveOrder)
    requires
        side_mirrors(r, t, side),
        o.side != side,
    ensures
        side_mirrors(r.push(o), t, side),
{
    let r1 = r.push(o);
    assert forall|i: int| 0 <= i < r1.len() && (#[trigger] r1[i]).side == side implies book_holds(t, r1[i]) by {
        assert(r1[i] == r[i]);
    }
    assert forall|q: int| 0 <= q < t.len() implies naive_holds(r1, side, #[trigger] t[q]) by {
        assert(naive_holds(r, side, t[q]));
        let j = choose|j: int| 0 <= j < r.len() && r[j].side == side && #[trigger] agree(r[j], t[q]);
        assert(r1[j] == r[j]);
    }
}

proof fn lemma_valid_push(r: Seq<NaiveOrder>, nid: OrderId, nseq: u64, o: NaiveOrder)
    requires
        naive_valid(r, nid, nseq),
        o.id == nid,
        o.seq == nseq,
        nid < u64::MAX,
        nseq < u64::MAX,
    ensures
        naive_valid(r.push(o), (nid + 1) as OrderId, (nseq + 1) as u64),
{
    let r1 = r.push(o);
    assert forall|i: int| 0 <= i < r1.len() implies #[trigger] r1[i] == if i < r.len() { r[i] } else { o } by {}
    assert forall|i: int, j: int| 0 <= i < r1.len() && 0 <= j < r1.len() && i != j implies (#[trigger] r1[i]).id
        != (#[trigger] r1[j]).id by {
        assert(r1[i] == if i < r.len() { r[i] } else { o });
        assert(r1[j] == if j < r.len() { r[j] } else { o });
    }
    assert forall|i: int, j: int| 0 <= i < r1.len() && 0 <= j < r1.len() implies ((#[trigger] r1[i]).seq < (
    #[trigger] r1[j]).seq <==> r1[i].id < r1[j].id) by {
        assert(r1[i] == if i < r.len() { r[i] } else { o });
        assert(r1[j] == if j < r.len() { r[j] } else { o });
    }
}

/// A fresh naive book mirrors a fresh book.
pub proof fn law_fresh_books_mirror()
    ensures
        mirrors(
            naive_new(),
            BookView { bids: Seq::empty(), asks: Seq::empty(), next_id: 1, events: Seq::empty() },
        ),
{
}

/// The book behaves exactly like the naive book on a limit order: from
/// mirroring states, both hand out the same id, emit the same events, and
/// end in mirroring states.
#[verifier::spinoff_prover]
#[verifier::rlimit(60)]
pub proof fn law_limit_matches_naive(n: NaiveBook, b: BookView, side: Side, price: Price, qty: Qty, owner: Owner)
    requires
        b.valid(),
        mirrors(n, b),
        b.next_id < u64::MAX,
        n.next_seq < u64::MAX,
    ensures
        ({
            let x = naive_limit(n, side, price, qty, owner);
            let y = submit(b, side, price, qty, owner, true);
            &&& x.2 == b.next_id
            &&& x.1 == y.1
            &&& mirrors(x.0, y.0)
        }),
{
    let oside = side.opposite();
    lemma_side_values(side);
    let id = b.next_id;
    let r = n.resting;
    let s = b.side(oside);
    let t = b.side(side);
    match side {
        Side::Buy => {
            assert(side_mirrors(r, s, oside) && side_mirrors(r, t, side));
        },
        Side::Sell => {
            assert(side_mirrors(r, s, oside) && side_mirrors(r, t, side));
        },
    }
    lemma_take_mirrors(r, s, t, side, price, qty, id, owner, n.next_id, n.next_seq);
    let nt = naive_take(r, side, price, qty, id, owner);
    let mt = match_against(s, side, price, qty, id, owner);
    let x = naive_limit(n, side, price, qty, owner);
    let y = submit(b, side, price, qty, owner, true);
    if mt.2 > 0 {
        let o = NaiveOrder { id: id, side: side, price: price, qty: mt.2, owner: owner, seq: n.next_seq };
        let res = Resting { id: id, price: price, qty: mt.2, owner: owner };
        let k = rest_pos(t, side, price);
        lemma_rest_pos_bounds(t, side, price);
        lemma_push_insert(nt.0, t, side, o, res, k);
        lemma_push_other(nt.0, mt.0, oside, o);
        lemma_valid_push(nt.0, id, n.next_seq, o);
        match side {
            Side::Buy => assert(y.0.bids == join(t, side, res) && y.0.asks == mt.0),
            Side::Sell => assert(y.0.asks == join(t, side, res) && y.0.bids == mt.0),
        }
    } else {
        assert forall|i: int| 0 <= i < nt.0.len() implies (#[trigger] nt.0[i]).id < id + 1 by {}
        match side {
            Side::Buy => assert(y.0.bids == t && y.0.asks == mt.0),
            Side::Sell => assert(y.0.asks == t && y.0.bids == mt.0),
        }
    }
}

/// The book behaves exactly like the naive book on an immediate-or-cancel
/// order (a market order is one at the worst price): the same events, the
/// same quantity filled, and mirroring states afterwards.
pub proof fn law_ioc_matches_naive(n: NaiveBook, b: BookView, side: Side, limit: Price, qty: Qty, owner: Owner)
    requires
        b.valid(),
        mirrors(n, b),
        b.next_id < u64::MAX,
    ensures
        ({
            let x = naive_ioc(n, side, limit, qty, owner);
            let y = submit(b, side, limit, qty, owner, false);
            &&& x.1 == y.1
            &&& x.2 == qty - y.2
            &&& mirrors(x.0, y.0)
        }),
{
    let oside = side.opposite();
    lemma_side_values(side);
    let id = b.next_id;
    let r = n.resting;
    let s = b.side(oside);
    let t = b.side(side);
    match side {
        Side::Buy => {
            assert(side_mirrors(r, s, oside) && side_mirrors(r, t, side));
        },
        Side::Sell => {
            assert(side_mirrors(r, s, oside) && side_mirrors(r, t, side));
        },
    }
    lemma_take_mirrors(r, s, t, side, limit, qty, id, owner, n.next_id, n.next_seq);
    lemma_match_left_le(s, side, limit, qty, id, owner);
    let nt = naive_take(r, side, limit, qty, id, owner);
    let mt = match_against(s, side, limit, qty, id, owner);
    let y = submit(b, side, limit, qty, owner, false);
    assert forall|i: int| 0 <= i < nt.0.len() implies (#[trigger] nt.0[i]).id < id + 1 by {}
    match side {
        Side::Buy => assert(y.0.bids == t && y.0.asks == mt.0),
        Side::Sell => assert(y.0.asks == t && y.0.bids == mt.0),
    }
}

/// The book behaves exactly like the naive book on a cancel: both say
/// whether the order was live, and end in mirroring states.
pub proof fn law_cancel_matches_naive(n: NaiveBook, b: BookView, id: OrderId)
    requires
        b.valid(),
        mirrors(n, b),
    ensures
        naive_cancel(n, id).1 == b.is_live(id),
        mirrors(naive_cancel(n, id).0, without(b, id)),
{
    let r = n.resting;
    if exists|i: int| 0 <= i < r.len() && (#[trigger] r[i]).id == id {
        let i = choose|i: int| 0 <= i < r.len() && (#[trigger] r[i]).id == id;
        if r[i].side == Side::Buy {
            assert(book_holds(b.bids, r[i]));
            let k = choose|k: int| 0 <= k < b.bids.len() && #[trigger] agree(r[i], b.bids[k]);
            assert(holds(b.bids, id));
            assert(pos_of(b.bids, id) == k);
            lemma_remove_mirrors(r, b.bids, Side::Buy, i, k);
            lemma_remove_other(r, b.asks, Side::Sell, i);
        } else {
            assert(book_holds(b.asks, r[i]));
            let k = choose|k: int| 0 <= k < b.asks.len() && #[trigger] agree(r[i], b.asks[k]);
            assert(holds(b.asks, id));
            if holds(b.bids, id) {
                let j = choose|j: int| 0 <= j < b.bids.len() && (#[trigger] b.bids[j]).id == id;
                assert(b.bids[j].id != b.asks[k].id);
            }
            assert(pos_of(b.asks, id) == k);
            lemma_remove_mirrors(r, b.asks, Side::Sell, i, k);
            lemma_remove_other(r, b.bids, Side::Buy, i);
        }
        lemma_valid_remove(r, n.next_id, n.next_seq, i);
    } else {
        if holds(b.bids, id) {
            let k = choose|k: int| 0 <= k < b.bids.len() && (#[trigger] b.bids[k]).id == id;
            assert(naive_holds(r, Side::Buy, b.bids[k]));
            let j = choose|j: int| 0 <= j < r.len() && r[j].side == Side::Buy && #[trigger] agree(r[j], b.bids[k]);
            assert(r[j].id == id);
        }
        if holds(b.asks, id) {
            let k = choose|k: int| 0 <= k < b.asks.len() && (#[trigger] b.asks[k]).id == id;
            assert(naive_holds(r, Side::Sell, b.asks[k]));
            let j = choose|j: int| 0 <= j < r.len() && r[j].side == Side::Sell && #[trigger] agree(r[j], b.asks[k]);
            assert(r[j].id == id);
        }
    }
}

/// One operation on a book.
pub enum Op {
    Limit { side: Side, price: Price, qty: Qty, owner: Owner },
    Ioc { side: Side, limit: Price, qty: Qty, owner: Owner },
    Cancel { id: OrderId },
    /// Takes every resting order off the book, as a trading halt does.
    Purge,
}

/// What an operation answers: the id a limit order got, the quantity an
/// immediate-or-cancel order filled, whether a cancel found its order,
/// and that a purge is done.
pub enum Reply {
    Placed(OrderId),
    Filled(Qty),
    Canceled(bool),
    Purged,
}

pub open spec fn book_step(b: BookView, op: Op) -> (BookView, Seq<Event>, Reply) {
    match op {
        Op::Limit { side, price, qty, owner } => {
            let r = submit(b, side, price, qty, owner, true);
            (r.0, r.1, Reply::Placed(b.next_id))
        },
        Op::Ioc { side, limit, qty, owner } => {
            let r = submit(b, side, limit, qty, owner, false);
            (r.0, r.1, Reply::Filled((qty - r.2) as Qty))
        },
        Op::Cancel { id } => (without(b, id), Seq::empty(), Reply::Canceled(b.is_live(id))),
        Op::Purge => (BookView { bids: Seq::empty(), asks: Seq::empty(), ..b }, Seq::empty(), Reply::Purged),
    }
}

pub open spec fn naive_step(n: NaiveBook, op: Op) -> (NaiveBook, Seq<Event>, Reply) {
    match op {
        Op::Limit { side, price, qty, owner } => {
            let r = naive_limit(n, side, price, qty, owner);
            (r.0, r.1, Reply::Placed(r.2))
        },
        Op::Ioc { side, limit, qty, owner } => {
            let r = naive_ioc(n, side, limit, qty, owner);
            (r.0, r.1, Reply::Filled(r.2))
        },
        Op::Cancel { id } => {
            let r = naive_cancel(n, id);
            (r.0, Seq::empty(), Reply::Canceled(r.1))
        },
        Op::Purge => (NaiveBook { resting: Seq::empty(), ..n }, Seq::empty(), Reply::Purged),
    }
}

/// A stream of operations run on the book: the book afterwards, every
/// event in order, and every reply in order.
pub open spec fn book_run(b: BookView, ops: Seq<Op>) -> (BookView, Seq<Event>, Seq<Reply>)
    decreases ops.len(),
{
    if ops.len() == 0 {
        (b, Seq::empty(), Seq::empty())
    } else {
        let st = book_step(b, ops[0]);
        let rest = book_run(st.0, ops.drop_first());
        (rest.0, st.1 + rest.1, seq![st.2] + rest.2)
    }
}

pub open spec fn naive_run(n: NaiveBook, ops: Seq<Op>) -> (NaiveBook, Seq<Event>, Seq<Reply>)
    decreases ops.len(),
{
    if ops.len() == 0 {
        (n, Seq::empty(), Seq::empty())
    } else {
        let st = naive_step(n, ops[0]);
        let rest = naive_run(st.0, ops.drop_first());
        (rest.0, st.1 + rest.1, seq![st.2] + rest.2)
    }
}

/// The book and the naive book agree on every stream of operations: from
/// mirroring states (a fresh book and a fresh naive book are such), they
/// emit the same events and give the same replies, operation by operation,
/// as long as ids and arrival numbers do not run out.
pub proof fn law_streams_match_naive(n: NaiveBook, b: BookView, ops: Seq<Op>)
    requires
        b.valid(),
        mirrors(n, b),
        b.next_id + ops.len() < u64::MAX,
        n.next_seq + ops.len() < u64::MAX,
    ensures
        naive_run(n, ops).1 == book_run(b, ops).1,
        naive_run(n, ops).2 == book_run(b, ops).2,
        mirrors(naive_run(n, ops).0, book_run(b, ops).0),
    decreases ops.len(),
{
    if ops.len() > 0 {
        let op = ops[0];
        let bs = book_step(b, op);
        let ns = naive_step(n, op);
        match op {
            Op::Limit { side, price, qty, owner } => {
                law_limit_matches_naive(n, b, side, price, qty, owner);
                crate::book::law_submit_keeps_valid(b, side, price, qty, owner, true);
            },
            Op::Ioc { side, limit, qty, owner } => {
                law_ioc_matches_naive(n, b, side, limit, qty, owner);
                crate::book::law_submit_keeps_valid(b, side, limit, qty, owner, false);
            },
            Op::Cancel { id } => {
                law_cancel_matches_naive(n, b, id);
                crate::book::law_cancel_keeps_valid(b, id);
            },
            Op::Purge => {},
        }
        law_streams_match_naive(ns.0, bs.0, ops.drop_first());
    }
}

} // verus!
