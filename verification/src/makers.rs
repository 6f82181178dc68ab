//! The market makers' bookkeeping: which quotes they have out, when a quote
//! is stale, and how quotes are kept passive and within inventory limits.
//! Where a maker wants its quotes (from prices and flow, which are
//! fractional) is decided by the caller; what follows from those prices is
//! here.

use vstd::prelude::*;

use crate::book::Book;
use crate::laws::{law_cancel_removes_only_that_order, law_limit_rests_remainder, law_orders_keep_side_and_price, same_place};
use crate::model::{holds, submit, without, BookView};
use crate::order::{OrderId, Owner, Price, Qty, Side};

verus! {

/// The three market makers: `Fixed` quotes a constant spread around the
/// mid, `Skew` shifts its quotes against its inventory, and `Wary` also
/// watches order flow and pulls its quotes when it turns one-sided.
#[derive(Clone, Copy, PartialEq, Eq, Structural)]
pub enum Brain {
    Fixed,
    Skew,
    Wary,
}

/// Past this inventory a maker only quotes the side that sheds risk.
pub const INVENTORY_CAP: i64 = 60;

/// How long `Wary` stays out of the market once flow alarms it.
pub const WARY_PULL_TICKS: u64 = 40;

pub struct Maker {
    pub owner: Owner,
    pub brain: Brain,
    pub size: Qty,
    bid: Option<OrderId>,
    ask: Option<OrderId>,
    pulled_until: u64,
}

pub struct MakerView {
    pub owner: Owner,
    pub brain: Brain,
    pub size: Qty,
    pub bid: Option<OrderId>,
    pub ask: Option<OrderId>,
    pub pulled_until: u64,
}

impl View for Maker {
    type V = MakerView;

    closed spec fn view(&self) -> MakerView {
        MakerView {
            owner: self.owner,
            brain: self.brain,
            size: self.size,
            bid: self.bid,
            ask: self.ask,
            pulled_until: self.pulled_until,
        }
    }
}

/// Keeps a live quote when it is wanted, at the wanted price, and at least
/// half of it is left; otherwise takes it off (if still live) and, when a
/// quote is wanted, places a fresh one for the full size. Gives the book
/// afterwards and the id of the quote left out, if any.
pub open spec fn refresh(
    b: BookView,
    slot: Option<OrderId>,
    side: Side,
    want: bool,
    price: Price,
    size: Qty,
    owner: Owner,
) -> (BookView, Option<OrderId>) {
    match slot {
        Some(id) if want && b.is_live(id) && b.resting(id).unwrap().1 == price && b.resting(
            id,
        ).unwrap().2 * 2 >= size => (b, slot),
        _ => {
            let b1 = match slot {
                Some(id) => without(b, id),
                None => b,
            };
            if want {
                let b2 = submit(b1, side, price, size, owner, true).0;
                (b2, if b2.is_live(b1.next_id) { Some(b1.next_id) } else { None })
            } else {
                (b1, None)
            }
        },
    }
}

/// Where a maker's quotes go: the bid no higher than one tick under the best
/// ask, the ask no lower than one tick over the best bid, and the ask above
/// the bid.
pub open spec fn quote_band(raw_bid: int, raw_ask: int, best_bid: Option<Price>, best_ask: Option<Price>) -> (int, int) {
    let b = match best_ask {
        Some(ba) => if raw_bid < ba - 1 { raw_bid } else { ba - 1 },
        None => raw_bid,
    };
    let a = match best_bid {
        Some(bb) => if raw_ask > bb + 1 { raw_ask } else { bb + 1 },
        None => raw_ask,
    };
    (b, if a <= b { b + 1 } else { a })
}

/// A maker as it starts: no quotes out, never pulled, quoting twelve lots
/// if wary and fifteen otherwise.
pub open spec fn fresh_maker(owner: Owner, brain: Brain) -> MakerView {
    MakerView {
        owner: owner,
        brain: brain,
        size: if brain == Brain::Wary { 12 } else { 15 },
        bid: None,
        ask: None,
        pulled_until: 0,
    }
}

impl Maker {
    pub fn new(owner: Owner, brain: Brain) -> (m: Maker)
        ensures
            m@ == fresh_maker(owner, brain),
    {
        Maker {
            owner,
            brain,
            size: if brain == Brain::Wary { 12 } else { 15 },
            bid: None,
            ask: None,
            pulled_until: 0,
        }
    }

    /// True while the maker has stepped away from the market.
    pub fn is_pulled(&self, tick: u64) -> (r: bool)
        ensures
            r == (tick < self@.pulled_until),
    {
        tick < self.pulled_until
    }

    /// Cancel-and-replace for one side, but only when the quote is stale:
    /// wrong price, mostly eaten, or gone.
    fn refresh_side(&mut self, book: &mut Book, side: Side, want: bool, price: Price)
        requires
            old(book).wf(),
            old(book)@.next_id < u64::MAX,
        ensures
            final(book).wf(),
            ({
                let slot = match side {
                    Side::Buy => old(self)@.bid,
                    Side::Sell => old(self)@.ask,
                };
                let r = refresh(old(book)@, slot, side, want, price, old(self)@.size, old(self)@.owner);
                &&& final(book)@ == r.0
                &&& final(self)@ == (match side {
                    Side::Buy => MakerView { bid: r.1, ..old(self)@ },
                    Side::Sell => MakerView { ask: r.1, ..old(self)@ },
                })
            }),
    {
        let size = self.size;
        let owner = self.owner;
        match side {
            Side::Buy => refresh_slot(&mut self.bid, book, side, want, price, size, owner),
            Side::Sell => refresh_slot(&mut self.ask, book, side, want, price, size, owner),
        }
    }

    /// Takes both quotes off the book.
    pub fn pull(&mut self, book: &mut Book)
        requires
            old(book).wf(),
        ensures
            final(book).wf(),
            final(book)@ == pulled(old(book)@, old(self)@.bid, old(self)@.ask),
            final(self)@ == (MakerView { bid: None, ask: None, ..old(self)@ }),
    {
        if let Some(id) = self.bid {
            book.cancel(id);
        }
        self.bid = None;
        if let Some(id) = self.ask {
            book.cancel(id);
        }
        self.ask = None;
    }

    /// Requotes after the caller has decided where the maker would like its
    /// quotes (`raw_bid` and `raw_ask`, in ticks) and whether recent order
    /// flow alarms it. `Wary` steps away for a while on an alarm and pulls
    /// its quotes while away; otherwise quotes are kept passive against the
    /// best prices the maker saw, and past the inventory cap only the side
    /// that sheds risk is quoted.
    pub fn requote(
        &mut self,
        book: &mut Book,
        tick: u64,
        flow_alarm: bool,
        raw_bid: i64,
        raw_ask: i64,
        best_bid: Option<Price>,
        best_ask: Option<Price>,
        inventory: i64,
    )
        requires
            old(book).wf(),
            old(book)@.next_id < u64::MAX - 1,
            old(self)@.brain == Brain::Wary && flow_alarm ==> tick + WARY_PULL_TICKS <= u64::MAX,
            quote_band(raw_bid as int, raw_ask as int, best_bid, best_ask).1 <= i64::MAX,
        ensures
            final(book).wf(),
            ({
                let m = old(self)@;
                let until = if m.brain == Brain::Wary && flow_alarm {
                    (tick + WARY_PULL_TICKS) as u64
                } else {
                    m.pulled_until
                };
                if m.brain == Brain::Wary && tick < until {
                    &&& final(book)@ == pulled(old(book)@, m.bid, m.ask)
                    &&& final(self)@ == (MakerView { bid: None, ask: None, pulled_until: until, ..m })
                } else {
                    let q = quote_band(raw_bid as int, raw_ask as int, best_bid, best_ask);
                    let want_bid = inventory < INVENTORY_CAP && q.0 > 0;
                    let want_ask = inventory > -INVENTORY_CAP;
                    let rb = refresh(old(book)@, m.bid, Side::Buy, want_bid, q.0 as Price, m.size, m.owner);
                    let ra = refresh(rb.0, m.ask, Side::Sell, want_ask, q.1 as Price, m.size, m.owner);
                    &&& final(book)@ == ra.0
                    &&& final(self)@ == (MakerView { bid: rb.1, ask: ra.1, pulled_until: until, ..m })
                }
            }),
    {
        if self.brain == Brain::Wary {
            if flow_alarm {
                self.pulled_until = tick + WARY_PULL_TICKS;
            }
            if self.is_pulled(tick) {
                self.pull(book);
                return;
            }
        }
        let mut bid_px = raw_bid;
        let mut ask_px = raw_ask;
        if let Some(ba) = best_ask {
            let cap = ba as i64 - 1;
            if cap < bid_px {
                bid_px = cap;
            }
        }
        if let Some(bb) = best_bid {
            let floor = bb as i64 + 1;
            if floor > ask_px {
                ask_px = floor;
            }
        }
        if ask_px <= bid_px {
            ask_px = bid_px + 1;
        }
        let quote_bid = inventory < INVENTORY_CAP && bid_px > 0;
        let quote_ask = inventory > -INVENTORY_CAP;
        self.refresh_side(book, Side::Buy, quote_bid, bid_px as Price);
        proof {
            lemma_refresh_next_id(old(book)@, old(self)@.bid, Side::Buy, quote_bid, bid_px as Price, self@.size, self@.owner);
        }
        self.refresh_side(book, Side::Sell, quote_ask, ask_px as Price);
    }
}

/// The book after a maker takes both of its quotes off.
pub open spec fn pulled(b: BookView, bid: Option<OrderId>, ask: Option<OrderId>) -> BookView {
    let b1 = match bid {
        Some(id) => without(b, id),
        None => b,
    };
    match ask {
        Some(id) => without(b1, id),
        None => b1,
    }
}

proof fn lemma_refresh_next_id(
    b: BookView,
    slot: Option<OrderId>,
    side: Side,
    want: bool,
    price: Price,
    size: Qty,
    owner: Owner,
)
    requires
        b.next_id < u64::MAX,
    ensures
        refresh(b, slot, side, want, price, size, owner).0.next_id <= b.next_id + 1,
{
    match slot {
        Some(id) => {},
        None => {},
    }
}

fn refresh_slot(
    slot: &mut Option<OrderId>,
    book: &mut Book,
    side: Side,
    want: bool,
    price: Price,
    size: Qty,
    owner: Owner,
)
    requires
        old(book).wf(),
        old(book)@.next_id < u64::MAX,
    ensures
        final(book).wf(),
        ({
            let r = refresh(old(book)@, *old(slot), side, want, price, size, owner);
            &&& final(book)@ == r.0
            &&& *final(slot) == r.1
        }),
{
    if let Some(id) = *slot {
        match book.resting(id) {
            Some((_, px, qty)) => {
                // At least half of the quote is left: `qty * 2 >= size`.
                if want && px == price && qty >= size - size / 2 {
                    return ;
                }
                book.cancel(id);
                *slot = None;
            },
            None => {
                *slot = None;
            },
        }
    }
    if want {
        let id = book.limit(side, price, size, owner);
        if book.is_live(id) {
            *slot = Some(id);
        }
    }
}

/// A maker stays passive: its bid is below the best ask it saw, its ask
/// above the best bid it saw, and its ask above its bid.
pub proof fn law_quotes_stay_passive(raw_bid: int, raw_ask: int, best_bid: Option<Price>, best_ask: Option<Price>)
    ensures
        ({
            let q = quote_band(raw_bid, raw_ask, best_bid, best_ask);
            &&& best_ask matches Some(ba) ==> q.0 < ba
            &&& best_bid matches Some(bb) ==> q.1 > bb
            &&& q.0 < q.1
        }),
{
}


/// What a quote refresh leaves: a quote is out only when one is wanted, and
/// then it rests at the wanted price, whether it was kept or placed afresh;
/// a quote that is not kept is off the book; a wanted quote that still
/// rests at the wanted price with at least half of it left is kept and the
/// book left alone, while any other wanted quote is replaced by a fresh
/// order (taking one new id); and every other order keeps its side and
/// price.
pub proof fn law_refresh_quotes_at_price(
    b: BookView,
    slot: Option<OrderId>,
    side: Side,
    want: bool,
    price: Price,
    size: Qty,
    owner: Owner,
)
    requires
        b.valid(),
        b.next_id < u64::MAX,
    ensures
        ({
            let r = refresh(b, slot, side, want, price, size, owner);
            &&& r.0.valid()
            &&& r.0.next_id <= b.next_id + 1
            &&& r.1 matches Some(id) ==> want && (r.0.resting(id) matches Some(x) && x.1 == price)
            &&& match slot {
                Some(id) => r.1 != slot ==> !r.0.is_live(id),
                None => true,
            }
            &&& forall|x: OrderId| x != b.next_id ==> #[trigger] same_place(b, r.0, x)
            &&& match slot {
                Some(id) => (want && (b.resting(id) matches Some(x) && x.1 == price && x.2 * 2 >= size))
                    ==> r.0 == b && r.1 == slot,
                None => true,
            }
            &&& (want && r.1 != slot) ==> r.0.next_id == b.next_id + 1
        }),
{
    let r = refresh(b, slot, side, want, price, size, owner);
    let kept = match slot {
        Some(id) => want && b.is_live(id) && b.resting(id).unwrap().1 == price && b.resting(id).unwrap().2 * 2
            >= size,
        None => false,
    };
    if kept {
        assert(r == (b, slot));
        assert forall|x: OrderId| x != b.next_id implies #[trigger] same_place(b, r.0, x) by {}
    } else {
        let b1 = match slot {
            Some(id) => without(b, id),
            None => b,
        };
        match slot {
            Some(id) => {
                crate::book::law_cancel_keeps_valid(b, id);
                law_cancel_removes_only_that_order(b, id);
                law_orders_keep_side_and_price(b, side, price, size, owner, true, id);
            },
            None => {},
        }
        assert(b1.valid());
        assert(b1.next_id == b.next_id);
        if want {
            let b2 = submit(b1, side, price, size, owner, true).0;
            crate::book::law_submit_keeps_valid(b1, side, price, size, owner, true);
            law_limit_rests_remainder(b1, side, price, size, owner);
            law_orders_keep_side_and_price(b1, side, price, size, owner, true, b1.next_id);
            assert forall|x: OrderId| x != b.next_id implies #[trigger] same_place(b, r.0, x) by {
                assert(same_place(b1, b2, x));
                match slot {
                    Some(id) => assert(same_place(b, b1, x)),
                    None => {},
                }
            }
            match slot {
                Some(id) => {
                    if r.1 != slot && b2.is_live(id) {
                        if id != b.next_id {
                            assert(same_place(b1, b2, id));
                            assert(b1.is_live(id));
                        }
                    }
                },
                None => {},
            }
        } else {
            assert forall|x: OrderId| x != b.next_id implies #[trigger] same_place(b, r.0, x) by {
                match slot {
                    Some(id) => assert(same_place(b, b1, x)),
                    None => {},
                }
            }
        }
    }
}

/// After a requote, every quote the maker has live sits where the passive
/// band puts it: the bid at the band's bid price and the ask at the band's
/// ask price, so a maker whose quotes went stale follows the market. A
/// maker that is away (`Wary` after an alarm) has neither quote on the book.
pub proof fn law_requote_quotes_at_band(
    b: BookView,
    m: MakerView,
    tick: u64,
    flow_alarm: bool,
    raw_bid: int,
    raw_ask: int,
    best_bid: Option<Price>,
    best_ask: Option<Price>,
    inventory: i64,
)
    requires
        b.valid(),
        b.next_id < u64::MAX - 1,
        0 <= quote_band(raw_bid, raw_ask, best_bid, best_ask).1 <= u32::MAX,
        quote_band(raw_bid, raw_ask, best_bid, best_ask).0 <= u32::MAX,
    ensures
        ({
            let until = if m.brain == Brain::Wary && flow_alarm {
                (tick + WARY_PULL_TICKS) as u64
            } else {
                m.pulled_until
            };
            if m.brain == Brain::Wary && tick < until {
                let pb = pulled(b, m.bid, m.ask);
                &&& m.bid matches Some(id) ==> !pb.is_live(id)
                &&& m.ask matches Some(id) ==> !pb.is_live(id)
            } else {
                let q = quote_band(raw_bid, raw_ask, best_bid, best_ask);
                let want_bid = inventory < INVENTORY_CAP && q.0 > 0;
                let want_ask = inventory > -INVENTORY_CAP;
                let rb = refresh(b, m.bid, Side::Buy, want_bid, q.0 as Price, m.size, m.owner);
                let ra = refresh(rb.0, m.ask, Side::Sell, want_ask, q.1 as Price, m.size, m.owner);
                &&& match rb.1 {
                    Some(id) => ra.0.is_live(id) ==> ra.0.resting(id).unwrap().1 == q.0,
                    None => true,
                }
                &&& ra.1 matches Some(id) ==> (ra.0.resting(id) matches Some(x) && x.1 == q.1)
            }
        }),
{
    let until = if m.brain == Brain::Wary && flow_alarm {
        (tick + WARY_PULL_TICKS) as u64
    } else {
        m.pulled_until
    };
    if m.brain == Brain::Wary && tick < until {
        let b1 = match m.bid {
            Some(id) => without(b, id),
            None => b,
        };
        match m.bid {
            Some(id) => {
                crate::book::law_cancel_keeps_valid(b, id);
                law_cancel_removes_only_that_order(b, id);
            },
            None => {},
        }
        match m.ask {
            Some(id) => {
                law_cancel_removes_only_that_order(b1, id);
            },
            None => {},
        }
    } else {
        let q = quote_band(raw_bid, raw_ask, best_bid, best_ask);
        let want_bid = inventory < INVENTORY_CAP && q.0 > 0;
        let want_ask = inventory > -INVENTORY_CAP;
        let rb = refresh(b, m.bid, Side::Buy, want_bid, q.0 as Price, m.size, m.owner);
        law_refresh_quotes_at_price(b, m.bid, Side::Buy, want_bid, q.0 as Price, m.size, m.owner);
        law_refresh_quotes_at_price(rb.0, m.ask, Side::Sell, want_ask, q.1 as Price, m.size, m.owner);
        let ra = refresh(rb.0, m.ask, Side::Sell, want_ask, q.1 as Price, m.size, m.owner);
        match rb.1 {
            Some(id) => {
                if ra.0.is_live(id) {
                    assert(rb.0.is_live(id));
                    assert(id < rb.0.next_id) by {
                        if holds(rb.0.bids, id) {
                            let i = choose|i: int| 0 <= i < rb.0.bids.len() && (#[trigger] rb.0.bids[i]).id == id;
                        } else {
                            let i = choose|i: int| 0 <= i < rb.0.asks.len() && (#[trigger] rb.0.asks[i]).id == id;
                        }
                    }
                    assert(same_place(rb.0, ra.0, id));
                }
            },
            None => {},
        }
    }
}

} // verus!
