//! The integer core of the market simulation: who trades under which owner
//! code, the accounts that fills settle into, the tape of trades, the
//! desks of the visitor and the scripted bot, and the housekeeping of the
//! noise traders' resting orders. The fractional parts of the simulation
//! (fair value, the agents' random decisions) drive this core from outside.

use std::collections::VecDeque;

use vstd::prelude::*;

use crate::book::{lemma_wf_valid, Book};
use crate::laws::filled_qty;
use crate::model::{market_limit, submit, without, BookView};
use crate::makers::{fresh_maker, Brain, Maker};
use crate::order::{Event, Fill, OrderId, Owner, Price, Qty, Side};
use crate::rng::{pcg_advance, pcg_output, pcg_seeded, Pcg32, PCG_INC};

verus! {

pub const USER: Owner = 1;

pub const INFORMED: Owner = 2;

pub const MAKER_FIXED: Owner = 3;

pub const MAKER_SKEW: Owner = 4;

pub const MAKER_WARY: Owner = 5;

pub const NOISE_FIRST: Owner = 6;

pub const NOISE_COUNT: u16 = 20;

/// The visitor-scripted bot. It trades through the same engine as everyone
/// else.
pub const BOT: Owner = NOISE_FIRST + NOISE_COUNT;

/// One account per owner code, `0..=BOT`.
pub const ACCOUNTS: usize = 27;

/// A noise order older than this many ticks is canceled.
pub const NOISE_ORDER_TTL: u64 = 400;

/// At most this many noise orders are tracked; the oldest go first.
pub const NOISE_QUEUE_CAP: usize = 500;

/// Past this many trades the tape drops its older half.
pub const TAPE_CAP: usize = 200_000;

pub const TAPE_DROP: usize = 100_000;

/// Where the market opens, in ticks (a tick is a cent: $100.00).
pub const START_PRICE: Price = 10_000;

#[derive(Clone, Copy, Default)]
pub struct Account {
    /// Cash in tick units (price ticks times lots), signed.
    pub cash: i64,
    pub inventory: i64,
    pub volume: u64,
}

#[derive(Clone, Copy)]
pub struct Trade {
    pub tick: u64,
    pub price: Price,
    pub qty: Qty,
    pub taker_side: Side,
    pub maker_owner: Owner,
    pub taker_owner: Owner,
}

/// The buying and the selling owner of a fill.
pub open spec fn parties(f: Fill) -> (Owner, Owner) {
    match f.taker_side {
        Side::Buy => (f.taker_owner, f.maker_owner),
        Side::Sell => (f.maker_owner, f.taker_owner),
    }
}

/// The accounts after the buyer of `f` pays for it and takes the lots.
pub open spec fn debit_buyer(a: Seq<Account>, f: Fill) -> Seq<Account> {
    let b = parties(f).0 as int;
    let n = f.price * f.qty;
    a.update(
        b,
        Account {
            cash: (a[b].cash - n) as i64,
            inventory: (a[b].inventory + f.qty) as i64,
            volume: (a[b].volume + f.qty) as u64,
        },
    )
}

/// The accounts after `f` settles: the buyer pays the notional and gains
/// the lots, the seller the reverse, and both add the lots to their volume.
pub open spec fn apply_fill(a: Seq<Account>, f: Fill) -> Seq<Account> {
    let s = parties(f).1 as int;
    let n = f.price * f.qty;
    let a1 = debit_buyer(a, f);
    a1.update(
        s,
        Account {
            cash: (a1[s].cash + n) as i64,
            inventory: (a1[s].inventory - f.qty) as i64,
            volume: (a1[s].volume + f.qty) as u64,
        },
    )
}

/// Settling `f` stays within the accounts and within the range of every
/// field, step by step as settlement goes.
pub open spec fn fill_fits(a: Seq<Account>, f: Fill) -> bool {
    let (b, s) = parties(f);
    let n = f.price * f.qty;
    let a1 = debit_buyer(a, f);
    &&& b < a.len()
    &&& s < a.len()
    &&& n <= i64::MAX
    &&& a[b as int].cash - n >= i64::MIN
    &&& a[b as int].inventory + f.qty <= i64::MAX
    &&& a[b as int].volume + f.qty <= u64::MAX
    &&& a1[s as int].cash + n <= i64::MAX
    &&& a1[s as int].inventory - f.qty >= i64::MIN
    &&& a1[s as int].volume + f.qty <= u64::MAX
}

/// The fills among `evs` settle one after the other without leaving the
/// accounts or the range of any field.
pub open spec fn settle_ok(a: Seq<Account>, evs: Seq<Event>) -> bool
    decreases evs.len(),
{
    if evs.len() == 0 {
        true
    } else {
        match evs[0] {
            Event::Fill(f) => fill_fits(a, f) && settle_ok(apply_fill(a, f), evs.drop_first()),
            Event::SelfMatch { .. } => settle_ok(a, evs.drop_first()),
        }
    }
}

/// The accounts after every fill among `evs` settled, in order.
pub open spec fn settled(a: Seq<Account>, evs: Seq<Event>) -> Seq<Account>
    decreases evs.len(),
{
    if evs.len() == 0 {
        a
    } else {
        match evs[0] {
            Event::Fill(f) => settled(apply_fill(a, f), evs.drop_first()),
            Event::SelfMatch { .. } => settled(a, evs.drop_first()),
        }
    }
}

/// The tape print of a fill at `tick`.
pub open spec fn print_of(f: Fill, tick: u64) -> Trade {
    Trade {
        tick: tick,
        price: f.price,
        qty: f.qty,
        taker_side: f.taker_side,
        maker_owner: f.maker_owner,
        taker_owner: f.taker_owner,
    }
}

/// The tape prints of the fills among `evs`, in order.
pub open spec fn prints(evs: Seq<Event>, tick: u64) -> Seq<Trade>
    decreases evs.len(),
{
    if evs.len() == 0 {
        Seq::empty()
    } else {
        (match evs[0] {
            Event::Fill(f) => seq![print_of(f, tick)],
            Event::SelfMatch { .. } => Seq::empty(),
        }) + prints(evs.drop_first(), tick)
    }
}

/// Signed aggressor volume of the fills among `evs`: bought lots count up,
/// sold lots down.
pub open spec fn flow(evs: Seq<Event>) -> int
    decreases evs.len(),
{
    if evs.len() == 0 {
        0
    } else {
        (match evs[0] {
            Event::Fill(f) => match f.taker_side {
                Side::Buy => f.qty as int,
                Side::Sell => -(f.qty as int),
            },
            Event::SelfMatch { .. } => 0,
        }) + flow(evs.drop_first())
    }
}

/// The core after the book's waiting events, from book state `b`, settled.
pub open spec fn after_settle(s: SimView, b: BookView) -> SimView {
    SimView {
        book: BookView { events: Seq::empty(), ..b },
        accounts: settled(s.accounts, b.events),
        tape: s.tape + prints(b.events, s.tick),
        ..s
    }
}

/// `ids` with the id `id` appended when the order is live in `b`.
pub open spec fn track(ids: Seq<OrderId>, b: BookView, id: OrderId) -> Seq<OrderId> {
    if b.is_live(id) {
        ids.push(id)
    } else {
        ids
    }
}

/// The live orders among `ids`, each with its side, price and remaining
/// quantity, in the order of `ids`.
pub open spec fn open_orders(b: BookView, ids: Seq<OrderId>) -> Seq<(OrderId, Side, Price, Qty)> {
    ids.filter_map(
        |id: OrderId|
            match b.resting(id) {
                Some(r) => Some((id, r.0, r.1, r.2)),
                None => None,
            },
    )
}

/// The ids among `ids` still live in `b`, in order.
pub open spec fn live_ids(b: BookView, ids: Seq<OrderId>) -> Seq<OrderId> {
    ids.filter(|id: OrderId| b.is_live(id))
}

/// The noise order at the front of the queue is due to be canceled: it
/// has rested for the full time to live, or the queue is at capacity.
pub open spec fn front_due(q: Seq<(OrderId, u64)>, tick: u64) -> bool {
    q.len() > 0 && !(tick - q[0].1 < NOISE_ORDER_TTL && q.len() < NOISE_QUEUE_CAP)
}

/// Cancels noise orders from the front of the queue (oldest first) while
/// the front one is due. Gives the book and the queue afterwards.
pub open spec fn expire(b: BookView, q: Seq<(OrderId, u64)>, tick: u64) -> (BookView, Seq<(OrderId, u64)>)
    decreases q.len(),
{
    if front_due(q, tick) {
        expire(without(b, q[0].0), q.drop_first(), tick)
    } else {
        (b, q)
    }
}

/// The price a noise trader's limit order goes in at: one tick better than
/// the anchor when improving, else `off` ticks behind it.
pub open spec fn noise_price(side: Side, anchor: int, off: int, improve: bool) -> int {
    match side {
        Side::Buy => if improve { anchor + 1 } else { anchor - off },
        Side::Sell => if improve { anchor - 1 } else { anchor + off },
    }
}

pub open spec fn sum_cash(a: Seq<Account>, lo: int, hi: int) -> int
    decreases hi - lo,
{
    if hi <= lo {
        0
    } else {
        sum_cash(a, lo, hi - 1) + a[hi - 1].cash
    }
}

pub open spec fn sum_inventory(a: Seq<Account>, lo: int, hi: int) -> int
    decreases hi - lo,
{
    if hi <= lo {
        0
    } else {
        sum_inventory(a, lo, hi - 1) + a[hi - 1].inventory
    }
}

pub open spec fn sum_volume(a: Seq<Account>, lo: int, hi: int) -> int
    decreases hi - lo,
{
    if hi <= lo {
        0
    } else {
        sum_volume(a, lo, hi - 1) + a[hi - 1].volume
    }
}

/// The totals of the noise traders' accounts from the first one up to
/// (not including) owner `k` are each within their field's range.
pub open spec fn noise_partial_fits(a: Seq<Account>, k: int) -> bool {
    &&& i64::MIN <= sum_cash(a, NOISE_FIRST as int, k) <= i64::MAX
    &&& i64::MIN <= sum_inventory(a, NOISE_FIRST as int, k) <= i64::MAX
    &&& sum_volume(a, NOISE_FIRST as int, k) <= u64::MAX
}

/// Adding up the noise traders' accounts one by one stays in range.
pub open spec fn noise_sums_fit(a: Seq<Account>) -> bool {
    forall|k: int| NOISE_FIRST <= k <= BOT ==> #[trigger] noise_partial_fits(a, k)
}

/// One opening order's draws, in the order they are made from generator
/// state `st`: its owner (a noise trader), its quantity, and its distance
/// from the opening price for level `k`. Also gives the state afterwards.
pub open spec fn opening_draws(st: u64, inc: u64, k: int) -> (Owner, Qty, Price, u64) {
    let s1 = pcg_advance(st, inc);
    let s2 = pcg_advance(s1, inc);
    (
        (NOISE_FIRST + pcg_output(st) % (NOISE_COUNT as u32)) as Owner,
        (2 + pcg_output(s1) % 12) as Qty,
        (1 + k / 3 + pcg_output(s2) % 3) as Price,
        pcg_advance(s2, inc),
    )
}

/// The opening book: for each of the first `n` levels, a noise bid below
/// the opening price and then a noise offer above it, each placed as a
/// limit order with freshly drawn owner, size and distance. Gives the
/// book and the generator state afterwards.
pub open spec fn opening(b: BookView, st: u64, inc: u64, n: int) -> (BookView, u64)
    decreases n,
{
    if n <= 0 {
        (b, st)
    } else {
        let prev = opening(b, st, inc, n - 1);
        let buy = opening_draws(prev.1, inc, n - 1);
        let b1 = submit(prev.0, Side::Buy, (START_PRICE - buy.2) as Price, buy.1, buy.0, true).0;
        let sell = opening_draws(buy.3, inc, n - 1);
        let b2 = submit(b1, Side::Sell, (START_PRICE + sell.2) as Price, sell.1, sell.0, true).0;
        (b2, sell.3)
    }
}

/// How many lots a noise trader's order is for, drawn from `rng`: one to
/// ten, and on one draw in 25 a lump of 15 to 44 more.
pub fn noise_qty(rng: &mut Pcg32) -> (q: Qty)
    ensures
        ({
            let (s0, inc) = old(rng)@;
            let s1 = pcg_advance(s0, inc);
            let s2 = pcg_advance(s1, inc);
            let base = 1 + pcg_output(s0) % 10;
            if pcg_output(s1) % 25 == 0 {
                &&& q == base + 15 + pcg_output(s2) % 30
                &&& final(rng)@ == (pcg_advance(s2, inc), inc)
            } else {
                &&& q == base
                &&& final(rng)@ == (s2, inc)
            }
        }),
        1 <= q <= 54,
{
    let mut q = 1 + rng.below(10);
    if rng.below(25) == 0 {
        q = q + 15 + rng.below(30);
    }
    q
}

/// How many ticks behind the touch a noise trader's limit order goes in:
/// the sum of two draws from `0..3`.
pub fn noise_offset(rng: &mut Pcg32) -> (off: i64)
    ensures
        ({
            let (s0, inc) = old(rng)@;
            let s1 = pcg_advance(s0, inc);
            &&& off == pcg_output(s0) % 3 + pcg_output(s1) % 3
            &&& final(rng)@ == (pcg_advance(s1, inc), inc)
        }),
        0 <= off <= 4,
{
    let a = rng.below(3);
    let b = rng.below(3);
    (a + b) as i64
}

/// How many lots the informed trader leans on the market with, drawn from
/// `rng`: four to fifteen.
pub fn informed_qty(rng: &mut Pcg32) -> (q: Qty)
    ensures
        q == 4 + pcg_output(old(rng)@.0) % 12,
        final(rng)@ == (pcg_advance(old(rng)@.0, old(rng)@.1), old(rng)@.1),
        4 <= q <= 15,
{
    4 + rng.below(12)
}

/// How many lots the informed trader sheds at once to work position `pos`
/// back to flat: the whole position, but at most ten.
pub fn flatten_qty(pos: i64) -> (q: Qty)
    ensures
        q as int == if pos >= 10 || pos <= -10 {
            10
        } else if pos < 0 {
            -pos
        } else {
            pos as int
        },
        q <= 10,
        pos != 0 ==> q >= 1,
{
    if pos >= 10 || pos <= -10 {
        10
    } else if pos < 0 {
        (-pos) as Qty
    } else {
        pos as Qty
    }
}

/// How many price levels the opening book seeds on each side.
pub const OPENING_LEVELS: u32 = 30;

pub struct Sim {
    pub book: Book,
    pub rng: Pcg32,
    pub makers: Vec<Maker>,
    tick: u64,
    accounts: Vec<Account>,
    noise_orders: VecDeque<(OrderId, u64)>,
    user_orders: Vec<OrderId>,
    bot_orders: Vec<OrderId>,
    tape: Vec<Trade>,
}

pub struct SimView {
    pub book: BookView,
    pub rng: (u64, u64),
    pub makers: Seq<Maker>,
    pub tick: u64,
    pub accounts: Seq<Account>,
    pub noise_orders: Seq<(OrderId, u64)>,
    pub user_orders: Seq<OrderId>,
    pub bot_orders: Seq<OrderId>,
    pub tape: Seq<Trade>,
}

impl View for Sim {
    type V = SimView;

    closed spec fn view(&self) -> SimView {
        SimView {
            book: self.book@,
            rng: self.rng@,
            makers: self.makers@,
            tick: self.tick,
            accounts: self.accounts@,
            noise_orders: self.noise_orders@,
            user_orders: self.user_orders@,
            bot_orders: self.bot_orders@,
            tape: self.tape@,
        }
    }
}

/// Checks `fill_fits` on the accounts as they stand.
fn fill_fits_now(a: &Vec<Account>, f: Fill) -> (r: bool)
    ensures
        r == fill_fits(a@, f),
{
    let (b, s) = match f.taker_side {
        Side::Buy => (f.taker_owner, f.maker_owner),
        Side::Sell => (f.maker_owner, f.taker_owner),
    };
    let b = b as usize;
    let s = s as usize;
    if b >= a.len() || s >= a.len() {
        return false;
    }
    assert(f.price * f.qty <= 0xffff_ffffu64 * 0xffff_ffffu64) by (nonlinear_arith)
        requires
            f.price <= 0xffff_ffffu64,
            f.qty <= 0xffff_ffffu64,
    ;
    let n = f.price as i128 * f.qty as i128;
    let q = f.qty as i128;
    if n > i64::MAX as i128 {
        return false;
    }
    let bc = a[b].cash as i128 - n;
    let bi = a[b].inventory as i128 + q;
    let bv = a[b].volume as i128 + q;
    if bc < i64::MIN as i128 || bi > i64::MAX as i128 || bv > u64::MAX as i128 {
        return false;
    }
    let (sc, si, sv) = if s == b {
        (bc, bi, bv)
    } else {
        (a[s].cash as i128, a[s].inventory as i128, a[s].volume as i128)
    };
    sc + n <= i64::MAX as i128 && si - q >= i64::MIN as i128 && sv + q <= u64::MAX as i128
}

/// Settles one fill into the accounts.
fn apply_fill_now(a: &mut Vec<Account>, f: Fill)
    requires
        fill_fits(old(a)@, f),
    ensures
        final(a)@ == apply_fill(old(a)@, f),
{
    let (buyer, seller) = match f.taker_side {
        Side::Buy => (f.taker_owner, f.maker_owner),
        Side::Sell => (f.maker_owner, f.taker_owner),
    };
    let notional = f.price as i64 * f.qty as i64;
    let b = buyer as usize;
    let s = seller as usize;
    let old_b = a[b];
    a.set(
        b,
        Account {
            cash: old_b.cash - notional,
            inventory: old_b.inventory + f.qty as i64,
            volume: old_b.volume + f.qty as u64,
        },
    );
    let old_s = a[s];
    a.set(
        s,
        Account {
            cash: old_s.cash + notional,
            inventory: old_s.inventory - f.qty as i64,
            volume: old_s.volume + f.qty as u64,
        },
    );
}

fn contains_id(ids: &Vec<OrderId>, id: OrderId) -> (r: bool)
    ensures
        r == ids@.contains(id),
{
    let mut i: usize = 0;
    while i < ids.len()
        invariant
            i <= ids@.len(),
            forall|j: int| 0 <= j < i ==> ids@[j] != id,
        decreases ids@.len() - i,
    {
        if ids[i] == id {
            assert(ids@[i as int] == id);
            return true;
        }
        i = i + 1;
    }
    false
}

fn open_orders_of(book: &Book, ids: &Vec<OrderId>) -> (r: Vec<(OrderId, Side, Price, Qty)>)
    requires
        book.wf(),
    ensures
        r@ == open_orders(book@, ids@),
{
    let mut out: Vec<(OrderId, Side, Price, Qty)> = Vec::new();
    let mut i: usize = 0;
    assert(ids@.take(0) =~= Seq::<OrderId>::empty());
    while i < ids.len()
        invariant
            book.wf(),
            i <= ids@.len(),
            out@ == open_orders(book@, ids@.take(i as int)),
        decreases ids@.len() - i,
    {
        let id = ids[i];
        assert(ids@.take(i + 1).drop_last() =~= ids@.take(i as int));
        assert(ids@.take(i + 1).last() == id);
        match book.resting(id) {
            Some((s, p, q)) => out.push((id, s, p, q)),
            None => {},
        }
        i = i + 1;
    }
    assert(ids@.take(ids@.len() as int) =~= ids@);
    out
}

fn live_only(book: &Book, ids: &Vec<OrderId>) -> (r: Vec<OrderId>)
    requires
        book.wf(),
    ensures
        r@ == live_ids(book@, ids@),
{
    let mut out: Vec<OrderId> = Vec::new();
    let mut i: usize = 0;
    assert(ids@.take(0) =~= Seq::<OrderId>::empty());
    reveal_with_fuel(Seq::filter, 1);
    while i < ids.len()
        invariant
            book.wf(),
            i <= ids@.len(),
            out@ == live_ids(book@, ids@.take(i as int)),
        decreases ids@.len() - i,
    {
        let id = ids[i];
        assert(ids@.take(i + 1).drop_last() =~= ids@.take(i as int));
        assert(ids@.take(i + 1).last() == id);
        reveal_with_fuel(Seq::filter, 1);
        if book.is_live(id) {
            out.push(id);
        }
        i = i + 1;
    }
    assert(ids@.take(ids@.len() as int) =~= ids@);
    out
}

impl Sim {
    /// The core's invariant: a book that keeps its own, one account per
    /// owner code, and no noise order placed after the current tick.
    pub closed spec fn wf(&self) -> bool {
        &&& self.book.wf()
        &&& self.accounts@.len() == ACCOUNTS
        &&& forall|i: int| 0 <= i < self.noise_orders@.len() ==> (#[trigger] self.noise_orders@[i]).1 <= self.tick
    }

    /// Whether the events waiting in the book can be settled.
    pub fn can_settle(&self) -> (r: bool)
        requires
            self.wf(),
        ensures
            r == settle_ok(self@.accounts, self@.book.events),
    {
        let evs = self.book.view_events();
        let mut a: Vec<Account> = Vec::new();
        let mut k: usize = 0;
        while k < self.accounts.len()
            invariant
                k <= self.accounts@.len(),
                a@ == self.accounts@.take(k as int),
            decreases self.accounts@.len() - k,
        {
            a.push(self.accounts[k]);
            k = k + 1;
            assert(a@ =~= self.accounts@.take(k as int));
        }
        assert(a@ =~= self.accounts@);
        assert(evs@.skip(0) =~= evs@);
        let mut i: usize = 0;
        while i < evs.len()
            invariant
                i <= evs@.len(),
                evs@ == self@.book.events,
                settle_ok(self@.accounts, evs@) == settle_ok(a@, evs@.skip(i as int)),
            decreases evs@.len() - i,
        {
            assert(evs@.skip(i as int).drop_first() =~= evs@.skip(i + 1));
            assert(evs@.skip(i as int)[0] == evs@[i as int]);
            match evs[i] {
                Event::Fill(f) => {
                    if !fill_fits_now(&a, f) {
                        return false;
                    }
                    apply_fill_now(&mut a, f);
                },
                Event::SelfMatch { .. } => {},
            }
            i = i + 1;
        }
        true
    }
    /// Turns the book's events into cash, positions and tape prints, and
    /// leaves the book's event buffer empty. Returns the signed aggressor
    /// volume of the fills settled.
    pub fn settle(&mut self) -> (net: i128)
        requires
            old(self).wf(),
            settle_ok(old(self)@.accounts, old(self)@.book.events),
        ensures
            final(self).wf(),
            final(self)@ == (SimView {
                book: BookView { events: Seq::empty(), ..old(self)@.book },
                accounts: settled(old(self)@.accounts, old(self)@.book.events),
                tape: old(self)@.tape + prints(old(self)@.book.events, old(self)@.tick),
                ..old(self)@
            }),
            net == flow(old(self)@.book.events),
            sum_cash(final(self)@.accounts, 0, ACCOUNTS as int) == sum_cash(old(self)@.accounts, 0, ACCOUNTS as int),
            sum_inventory(final(self)@.accounts, 0, ACCOUNTS as int) == sum_inventory(
                old(self)@.accounts,
                0,
                ACCOUNTS as int,
            ),
    {
        let ghost s0 = self@;
        proof {
            law_settlement_balances(s0.accounts, s0.book.events);
        }
        let evs = self.book.take_events();
        let ghost e = evs@;
        let tick = self.tick;
        let mut net: i128 = 0;
        let mut i: usize = 0;
        assert(e.skip(0) =~= e);
        assert(s0.tape + prints(e, tick) =~= self.tape@ + prints(e.skip(0), tick));
        while i < evs.len()
            invariant
                e == evs@,
                e == s0.book.events,
                tick == s0.tick,
                self.tick == s0.tick,
                self.book.wf(),
                self.book@ == (BookView { events: Seq::empty(), ..s0.book }),
                self.noise_orders@ == s0.noise_orders,
                self@.rng == s0.rng,
                self@.makers == s0.makers,
                self.user_orders@ == s0.user_orders,
                self.bot_orders@ == s0.bot_orders,
                forall|k: int| 0 <= k < self.noise_orders@.len() ==> (#[trigger] self.noise_orders@[k]).1 <= self.tick,
                i <= e.len(),
                self.accounts@.len() == ACCOUNTS,
                settled(s0.accounts, e) == settled(self.accounts@, e.skip(i as int)),
                settle_ok(self.accounts@, e.skip(i as int)),
                s0.tape + prints(e, tick) == self.tape@ + prints(e.skip(i as int), tick),
                flow(e) == net + flow(e.skip(i as int)),
                -(i as int) * 4294967296 <= net <= (i as int) * 4294967296,
            decreases e.len() - i,
        {
            let ghost rest = e.skip(i as int);
            assert(rest.drop_first() =~= e.skip(i + 1));
            assert(rest[0] == e[i as int]);
            match evs[i] {
                Event::Fill(f) => {
                    apply_fill_now(&mut self.accounts, f);
                    let t = Trade {
                        tick,
                        price: f.price,
                        qty: f.qty,
                        taker_side: f.taker_side,
                        maker_owner: f.maker_owner,
                        taker_owner: f.taker_owner,
                    };
                    let ghost tape_before = self.tape@;
                    self.tape.push(t);
                    assert(tape_before + (seq![t] + prints(e.skip(i + 1), tick)) =~= self.tape@ + prints(
                        e.skip(i + 1),
                        tick,
                    ));
                    net = match f.taker_side {
                        Side::Buy => net + f.qty as i128,
                        Side::Sell => net - f.qty as i128,
                    };
                },
                Event::SelfMatch { .. } => {
                    assert(Seq::<Trade>::empty() + prints(e.skip(i + 1), tick) =~= prints(e.skip(i + 1), tick));
                },
            }
            i = i + 1;
        }
        net
    }
    pub fn tick(&self) -> (t: u64)
        ensures
            t == self@.tick,
    {
        self.tick
    }

    /// Moves the clock one tick on.
    pub fn advance_tick(&mut self)
        requires
            old(self).wf(),
            old(self)@.tick < u64::MAX,
        ensures
            final(self).wf(),
            final(self)@ == (SimView { tick: (old(self)@.tick + 1) as u64, ..old(self)@ }),
    {
        self.tick = self.tick + 1;
    }

    pub fn account(&self, owner: Owner) -> (a: Account)
        requires
            self.wf(),
            owner < ACCOUNTS,
        ensures
            a == self@.accounts[owner as int],
    {
        self.accounts[owner as usize]
    }

    /// Whether the noise traders' accounts can be rolled into one without
    /// leaving the range of a field.
    pub fn noise_total_fits(&self) -> (r: bool)
        requires
            self.wf(),
        ensures
            r == noise_sums_fit(self@.accounts),
    {
        let ghost a = self@.accounts;
        let mut c: i128 = 0;
        let mut inv: i128 = 0;
        let mut v: i128 = 0;
        let mut k: usize = NOISE_FIRST as usize;
        assert(noise_partial_fits(a, NOISE_FIRST as int));
        while k < BOT as usize
            invariant
                NOISE_FIRST <= k <= BOT,
                a == self@.accounts,
                a.len() == ACCOUNTS,
                c == sum_cash(a, NOISE_FIRST as int, k as int),
                inv == sum_inventory(a, NOISE_FIRST as int, k as int),
                v == sum_volume(a, NOISE_FIRST as int, k as int),
                forall|j: int| NOISE_FIRST <= j <= k ==> #[trigger] noise_partial_fits(a, j),
            decreases BOT - k,
        {
            assert(noise_partial_fits(a, k as int));
            let x = self.accounts[k];
            c = c + x.cash as i128;
            inv = inv + x.inventory as i128;
            v = v + x.volume as i128;
            k = k + 1;
            if !(i64::MIN as i128 <= c && c <= i64::MAX as i128 && i64::MIN as i128 <= inv && inv
                <= i64::MAX as i128 && v <= u64::MAX as i128) {
                assert(!noise_partial_fits(a, k as int));
                return false;
            }
        }
        true
    }

    /// The noise traders' accounts rolled into one.
    pub fn noise_total(&self) -> (total: Account)
        requires
            self.wf(),
            noise_sums_fit(self@.accounts),
        ensures
            total.cash == sum_cash(self@.accounts, NOISE_FIRST as int, BOT as int),
            total.inventory == sum_inventory(self@.accounts, NOISE_FIRST as int, BOT as int),
            total.volume == sum_volume(self@.accounts, NOISE_FIRST as int, BOT as int),
    {
        let mut total = Account { cash: 0, inventory: 0, volume: 0 };
        let mut k: usize = NOISE_FIRST as usize;
        while k < BOT as usize
            invariant
                NOISE_FIRST <= k <= BOT,
                self.accounts@.len() == ACCOUNTS,
                noise_sums_fit(self@.accounts),
                total.cash == sum_cash(self@.accounts, NOISE_FIRST as int, k as int),
                total.inventory == sum_inventory(self@.accounts, NOISE_FIRST as int, k as int),
                total.volume == sum_volume(self@.accounts, NOISE_FIRST as int, k as int),
            decreases BOT - k,
        {
            assert(NOISE_FIRST <= k + 1 <= BOT);
            assert(noise_partial_fits(self@.accounts, k + 1));
            let a = self.accounts[k];
            total.cash = total.cash + a.cash;
            total.inventory = total.inventory + a.inventory;
            total.volume = total.volume + a.volume;
            k = k + 1;
        }
        total
    }

    /// Hands over the tape printed so far and starts a fresh one.
    pub fn take_tape(&mut self) -> (t: Vec<Trade>)
        requires
            old(self).wf(),
        ensures
            final(self).wf(),
            t@ == old(self)@.tape,
            final(self)@ == (SimView { tape: Seq::empty(), ..old(self)@ }),
    {
        let mut t = Vec::new();
        std::mem::swap(&mut t, &mut self.tape);
        t
    }

    /// A backstop for when nobody drains the tape: past its cap it drops
    /// the older trades.
    pub fn trim_tape(&mut self)
        requires
            old(self).wf(),
        ensures
            final(self).wf(),
            final(self)@ == (SimView {
                tape: if old(self)@.tape.len() > TAPE_CAP {
                    old(self)@.tape.skip(TAPE_DROP as int)
                } else {
                    old(self)@.tape
                },
                ..old(self)@
            }),
    {
        if self.tape.len() > TAPE_CAP {
            let rest = self.tape.split_off(TAPE_DROP);
            self.tape = rest;
        }
    }

    fn noise_front_due(&self) -> (r: bool)
        requires
            self.wf(),
        ensures
            r == front_due(self@.noise_orders, self@.tick),
    {
        if self.noise_orders.len() == 0 {
            return false;
        }
        let (_, placed) = self.noise_orders[0];
        !(self.tick - placed < NOISE_ORDER_TTL && self.noise_orders.len() < NOISE_QUEUE_CAP)
    }

    /// Cancels stale noise orders so the book does not silt up: oldest
    /// first, while the oldest has rested its full time or too many are
    /// tracked.
    pub fn expire_noise(&mut self)
        requires
            old(self).wf(),
        ensures
            final(self).wf(),
            ({
                let e = expire(old(self)@.book, old(self)@.noise_orders, old(self)@.tick);
                final(self)@ == (SimView { book: e.0, noise_orders: e.1, ..old(self)@ })
            }),
    {
        let ghost s0 = self@;
        while self.noise_front_due()
            invariant
                self.wf(),
                expire(s0.book, s0.noise_orders, s0.tick) == expire(self@.book, self@.noise_orders, self@.tick),
                self@ == (SimView { book: self@.book, noise_orders: self@.noise_orders, ..s0 }),
            decreases self@.noise_orders.len(),
        {
            let ghost q = self@.noise_orders;
            let (id, _) = self.noise_orders[0];
            self.noise_orders.pop_front();
            self.book.cancel(id);
            proof {
                assert(self@.noise_orders =~= q.drop_first());
            }
        }
    }
    // The visitor's hands on the market. Fills settle at once so the
    // blotter is never stale.

    /// Books a limit order for the visitor and tracks it while it rests,
    /// leaving its fills waiting in the book's events: a caller can test
    /// them with `can_settle` and then `settle` them.
    pub fn user_place_limit(&mut self, side: Side, price: Price, qty: Qty) -> (id: OrderId)
        requires
            old(self).wf(),
            old(self)@.book.next_id < u64::MAX,
        ensures
            final(self).wf(),
            id == old(self)@.book.next_id,
            ({
                let b1 = submit(old(self)@.book, side, price, qty, USER, true).0;
                final(self)@ == (SimView { book: b1, user_orders: track(old(self)@.user_orders, b1, id), ..old(self)@ })
            }),
    {
        let id = self.book.limit(side, price, qty, USER);
        if self.book.is_live(id) {
            self.user_orders.push(id);
        }
        id
    }

    /// Books a market order for the visitor, leaving its fills waiting in
    /// the book's events. Returns the quantity filled.
    pub fn user_place_market(&mut self, side: Side, qty: Qty) -> (filled: Qty)
        requires
            old(self).wf(),
            old(self)@.book.next_id < u64::MAX,
        ensures
            final(self).wf(),
            ({
                let r = submit(old(self)@.book, side, market_limit(side), qty, USER, false);
                &&& final(self)@ == (SimView { book: r.0, ..old(self)@ })
                &&& filled == qty - r.2
            }),
    {
        self.book.market(side, qty, USER)
    }

    /// A limit order for the visitor, settled at once.
    pub fn user_limit(&mut self, side: Side, price: Price, qty: Qty) -> (id: OrderId)
        requires
            old(self).wf(),
            old(self)@.book.next_id < u64::MAX,
            settle_ok(old(self)@.accounts, submit(old(self)@.book, side, price, qty, USER, true).0.events),
        ensures
            final(self).wf(),
            id == old(self)@.book.next_id,
            ({
                let b1 = submit(old(self)@.book, side, price, qty, USER, true).0;
                let s1 = after_settle(old(self)@, b1);
                final(self)@ == (SimView { user_orders: track(old(self)@.user_orders, b1, id), ..s1 })
            }),
            sum_cash(final(self)@.accounts, 0, ACCOUNTS as int) == sum_cash(old(self)@.accounts, 0, ACCOUNTS as int),
            sum_inventory(final(self)@.accounts, 0, ACCOUNTS as int) == sum_inventory(
                old(self)@.accounts,
                0,
                ACCOUNTS as int,
            ),
    {
        let id = self.user_place_limit(side, price, qty);
        self.settle();
        id
    }

    /// A market order for the visitor, settled at once. Returns the
    /// quantity filled.
    pub fn user_market(&mut self, side: Side, qty: Qty) -> (filled: Qty)
        requires
            old(self).wf(),
            old(self)@.book.next_id < u64::MAX,
            settle_ok(
                old(self)@.accounts,
                submit(old(self)@.book, side, market_limit(side), qty, USER, false).0.events,
            ),
        ensures
            final(self).wf(),
            ({
                let r = submit(old(self)@.book, side, market_limit(side), qty, USER, false);
                &&& final(self)@ == after_settle(old(self)@, r.0)
                &&& filled == qty - r.2
            }),
            sum_cash(final(self)@.accounts, 0, ACCOUNTS as int) == sum_cash(old(self)@.accounts, 0, ACCOUNTS as int),
            sum_inventory(final(self)@.accounts, 0, ACCOUNTS as int) == sum_inventory(
                old(self)@.accounts,
                0,
                ACCOUNTS as int,
            ),
    {
        let filled = self.user_place_market(side, qty);
        self.settle();
        filled
    }

    /// Cancels only orders the visitor placed, so nobody can pull the
    /// makers' quotes from the visitor's desk.
    pub fn user_cancel(&mut self, id: OrderId) -> (r: bool)
        requires
            old(self).wf(),
        ensures
            final(self).wf(),
            r == (old(self)@.user_orders.contains(id) && old(self)@.book.is_live(id)),
            final(self)@ == if old(self)@.user_orders.contains(id) {
                SimView { book: without(old(self)@.book, id), ..old(self)@ }
            } else {
                old(self)@
            },
    {
        contains_id(&self.user_orders, id) && self.book.cancel(id)
    }

    /// The visitor's live orders: id, side, price and remaining quantity.
    pub fn user_open_orders(&self) -> (r: Vec<(OrderId, Side, Price, Qty)>)
        requires
            self.wf(),
        ensures
            r@ == open_orders(self@.book, self@.user_orders),
    {
        open_orders_of(&self.book, &self.user_orders)
    }

    // The scripted bot's hands: the same shape and the same rules.

    /// Books a limit order for the bot and tracks it while it rests, leaving
    /// its fills waiting in the book's events.
    pub fn bot_place_limit(&mut self, side: Side, price: Price, qty: Qty) -> (id: OrderId)
        requires
            old(self).wf(),
            old(self)@.book.next_id < u64::MAX,
        ensures
            final(self).wf(),
            id == old(self)@.book.next_id,
            ({
                let b1 = submit(old(self)@.book, side, price, qty, BOT, true).0;
                final(self)@ == (SimView { book: b1, bot_orders: track(old(self)@.bot_orders, b1, id), ..old(self)@ })
            }),
    {
        let id = self.book.limit(side, price, qty, BOT);
        if self.book.is_live(id) {
            self.bot_orders.push(id);
        }
        id
    }

    /// Books a market order for the bot, leaving its fills waiting in the
    /// book's events. Returns the quantity filled.
    pub fn bot_place_market(&mut self, side: Side, qty: Qty) -> (filled: Qty)
        requires
            old(self).wf(),
            old(self)@.book.next_id < u64::MAX,
        ensures
            final(self).wf(),
            ({
                let r = submit(old(self)@.book, side, market_limit(side), qty, BOT, false);
                &&& final(self)@ == (SimView { book: r.0, ..old(self)@ })
                &&& filled == qty - r.2
            }),
    {
        self.book.market(side, qty, BOT)
    }

    /// A limit order for the bot, settled at once.
    pub fn bot_limit(&mut self, side: Side, price: Price, qty: Qty) -> (id: OrderId)
        requires
            old(self).wf(),
            old(self)@.book.next_id < u64::MAX,
            settle_ok(old(self)@.accounts, submit(old(self)@.book, side, price, qty, BOT, true).0.events),
        ensures
            final(self).wf(),
            id == old(self)@.book.next_id,
            ({
                let b1 = submit(old(self)@.book, side, price, qty, BOT, true).0;
                let s1 = after_settle(old(self)@, b1);
                final(self)@ == (SimView { bot_orders: track(old(self)@.bot_orders, b1, id), ..s1 })
            }),
            sum_cash(final(self)@.accounts, 0, ACCOUNTS as int) == sum_cash(old(self)@.accounts, 0, ACCOUNTS as int),
            sum_inventory(final(self)@.accounts, 0, ACCOUNTS as int) == sum_inventory(
                old(self)@.accounts,
                0,
                ACCOUNTS as int,
            ),
    {
        let id = self.bot_place_limit(side, price, qty);
        self.settle();
        id
    }

    /// A market order for the bot, settled at once. Returns the quantity
    /// filled.
    pub fn bot_market(&mut self, side: Side, qty: Qty) -> (filled: Qty)
        requires
            old(self).wf(),
            old(self)@.book.next_id < u64::MAX,
            settle_ok(
                old(self)@.accounts,
                submit(old(self)@.book, side, market_limit(side), qty, BOT, false).0.events,
            ),
        ensures
            final(self).wf(),
            ({
                let r = submit(old(self)@.book, side, market_limit(side), qty, BOT, false);
                &&& final(self)@ == after_settle(old(self)@, r.0)
                &&& filled == qty - r.2
            }),
            sum_cash(final(self)@.accounts, 0, ACCOUNTS as int) == sum_cash(old(self)@.accounts, 0, ACCOUNTS as int),
            sum_inventory(final(self)@.accounts, 0, ACCOUNTS as int) == sum_inventory(
                old(self)@.accounts,
                0,
                ACCOUNTS as int,
            ),
    {
        let filled = self.bot_place_market(side, qty);
        self.settle();
        filled
    }


    pub fn bot_cancel(&mut self, id: OrderId) -> (r: bool)
        requires
            old(self).wf(),
        ensures
            final(self).wf(),
            r == (old(self)@.bot_orders.contains(id) && old(self)@.book.is_live(id)),
            final(self)@ == if old(self)@.bot_orders.contains(id) {
                SimView { book: without(old(self)@.book, id), ..old(self)@ }
            } else {
                old(self)@
            },
    {
        contains_id(&self.bot_orders, id) && self.book.cancel(id)
    }

    pub fn bot_open_orders(&self) -> (r: Vec<(OrderId, Side, Price, Qty)>)
        requires
            self.wf(),
        ensures
            r@ == open_orders(self@.book, self@.bot_orders),
    {
        open_orders_of(&self.book, &self.bot_orders)
    }

    /// Forgets the visitor's and the bot's orders that are no longer live.
    pub fn prune_desks(&mut self)
        requires
            old(self).wf(),
        ensures
            final(self).wf(),
            final(self)@ == (SimView {
                user_orders: live_ids(old(self)@.book, old(self)@.user_orders),
                bot_orders: live_ids(old(self)@.book, old(self)@.bot_orders),
                ..old(self)@
            }),
    {
        self.user_orders = live_only(&self.book, &self.user_orders);
        self.bot_orders = live_only(&self.book, &self.bot_orders);
    }

    /// One noise trader's limit order, once its side, size, offset and
    /// whether it improves on the anchor price are drawn: it goes in at
    /// `noise_price` unless that is below one tick, and is tracked for
    /// expiry while it rests.
    pub fn noise_limit(&mut self, owner: Owner, side: Side, qty: Qty, anchor: i64, off: i64, improve: bool)
        requires
            old(self).wf(),
            old(self)@.book.next_id < u64::MAX,
            i64::MIN <= noise_price(side, anchor as int, off as int, improve) <= i64::MAX,
        ensures
            final(self).wf(),
            ({
                let p = noise_price(side, anchor as int, off as int, improve);
                let s0 = old(self)@;
                if p < 1 {
                    final(self)@ == s0
                } else {
                    let b1 = submit(s0.book, side, p as Price, qty, owner, true).0;
                    final(self)@ == (SimView {
                        book: b1,
                        noise_orders: if b1.is_live(s0.book.next_id) {
                            s0.noise_orders.push((s0.book.next_id, s0.tick))
                        } else {
                            s0.noise_orders
                        },
                        ..s0
                    })
                }
            }),
    {
        let price: i64 = match side {
            Side::Buy => if improve { anchor + 1 } else { anchor - off },
            Side::Sell => if improve { anchor - 1 } else { anchor + off },
        };
        if price < 1 {
            return;
        }
        let id = self.book.limit(side, price as Price, qty, owner);
        if self.book.is_live(id) {
            self.noise_orders.push_back((id, self.tick));
        }
    }
    /// A fresh market from `seed`: three makers (fixed, skew, wary), one
    /// empty account per owner code, and an opening book of noise orders
    /// around the opening price so the first tick is not a ghost town.
    pub fn new(seed: u64) -> (sim: Sim)
        ensures
            sim.wf(),
            ({
                let empty = BookView {
                    bids: Seq::empty(),
                    asks: Seq::empty(),
                    next_id: 1,
                    events: Seq::empty(),
                };
                let o = opening(empty, pcg_seeded(seed), PCG_INC, OPENING_LEVELS as int);
                &&& sim@ == (SimView {
                    book: BookView { events: Seq::empty(), ..o.0 },
                    tick: 0,
                    accounts: Seq::new(ACCOUNTS as nat, |i: int| Account { cash: 0, inventory: 0, volume: 0 }),
                    noise_orders: Seq::empty(),
                    user_orders: Seq::empty(),
                    bot_orders: Seq::empty(),
                    tape: Seq::empty(),
                    rng: (o.1, PCG_INC),
                    makers: sim@.makers,
                })
            }),
            sim@.makers.len() == 3,
            sim@.makers[0]@ == fresh_maker(MAKER_FIXED, Brain::Fixed),
            sim@.makers[1]@ == fresh_maker(MAKER_SKEW, Brain::Skew),
            sim@.makers[2]@ == fresh_maker(MAKER_WARY, Brain::Wary),
            sum_cash(sim@.accounts, 0, ACCOUNTS as int) == 0,
            sum_inventory(sim@.accounts, 0, ACCOUNTS as int) == 0,
    {
        let mut makers: Vec<Maker> = Vec::new();
        makers.push(Maker::new(MAKER_FIXED, Brain::Fixed));
        makers.push(Maker::new(MAKER_SKEW, Brain::Skew));
        makers.push(Maker::new(MAKER_WARY, Brain::Wary));
        let mut accounts: Vec<Account> = Vec::new();
        let mut k: usize = 0;
        while k < ACCOUNTS
            invariant
                k <= ACCOUNTS,
                accounts@ == Seq::new(k as nat, |i: int| Account { cash: 0, inventory: 0, volume: 0 }),
            decreases ACCOUNTS - k,
        {
            accounts.push(Account { cash: 0, inventory: 0, volume: 0 });
            k = k + 1;
            assert(accounts@ =~= Seq::new(k as nat, |i: int| Account { cash: 0, inventory: 0, volume: 0 }));
        }
        let mut sim = Sim {
            book: Book::new(),
            rng: Pcg32::new(seed),
            makers,
            tick: 0,
            accounts,
            noise_orders: VecDeque::new(),
            user_orders: Vec::new(),
            bot_orders: Vec::new(),
            tape: Vec::new(),
        };
        sim.seed_book();
        proof {
            lemma_zero_sums(sim@.accounts, ACCOUNTS as int);
        }
        sim
    }

    /// Opens with resting depth on both sides, then clears the events the
    /// seeding produced.
    fn seed_book(&mut self)
        requires
            old(self).wf(),
            old(self)@.book.next_id == 1,
        ensures
            final(self).wf(),
            ({
                let o = opening(old(self)@.book, old(self)@.rng.0, old(self)@.rng.1, OPENING_LEVELS as int);
                final(self)@ == (SimView {
                    book: BookView { events: Seq::empty(), ..o.0 },
                    rng: (o.1, old(self)@.rng.1),
                    ..old(self)@
                })
            }),
    {
        let ghost s0 = self@;
        let ghost r0 = self@.rng;
        let mut i: u32 = 0;
        while i < OPENING_LEVELS
            invariant
                i <= OPENING_LEVELS,
                self.book.wf(),
                self.book@.next_id == 1 + 2 * i,
                self.accounts@.len() == ACCOUNTS,
                self@ == (SimView { book: self@.book, rng: self@.rng, ..s0 }),
                self@.rng.1 == r0.1,
                (self@.book, self@.rng.0) == opening(s0.book, r0.0, r0.1, i as int),
                forall|k: int| 0 <= k < self.noise_orders@.len() ==> (#[trigger] self.noise_orders@[k]).1 <= self.tick,
            decreases OPENING_LEVELS - i,
        {
            let owner = NOISE_FIRST + self.rng.below(NOISE_COUNT as u32) as Owner;
            let qty = 2 + self.rng.below(12);
            let off = 1 + i / 3 + self.rng.below(3);
            self.book.limit(Side::Buy, START_PRICE - off, qty, owner);
            let owner = NOISE_FIRST + self.rng.below(NOISE_COUNT as u32) as Owner;
            let qty = 2 + self.rng.below(12);
            let off = 1 + i / 3 + self.rng.below(3);
            self.book.limit(Side::Sell, START_PRICE + off, qty, owner);
            i = i + 1;
        }
        self.book.take_events();
    }
}

/// Accounts that all start empty add up to nothing.
proof fn lemma_zero_sums(a: Seq<Account>, hi: int)
    requires
        0 <= hi <= a.len(),
        forall|i: int| 0 <= i < a.len() ==> #[trigger] a[i] == (Account { cash: 0, inventory: 0, volume: 0 }),
    ensures
        sum_cash(a, 0, hi) == 0,
        sum_inventory(a, 0, hi) == 0,
    decreases hi,
{
    if hi > 0 {
        lemma_zero_sums(a, hi - 1);
        assert(a[hi - 1].cash == 0);
    }
}

/// What the core's invariant gives a caller: a valid book (in priority
/// order, never crossed), one account per owner code, and no tracked noise
/// order placed after the current tick.
pub proof fn lemma_wf_parts(s: &Sim)
    requires
        s.wf(),
    ensures
        s@.book.valid(),
        s@.accounts.len() == ACCOUNTS,
        forall|i: int| 0 <= i < s@.noise_orders.len() ==> (#[trigger] s@.noise_orders[i]).1 <= s@.tick,
{
    lemma_wf_valid(&s.book);
}

/// Changing one account changes each running total by that account's
/// change, when the account is in the range summed.
proof fn lemma_sums_update(a: Seq<Account>, i: int, x: Account, lo: int, hi: int)
    requires
        0 <= i < a.len(),
        0 <= lo,
        hi <= a.len(),
    ensures
        sum_cash(a.update(i, x), lo, hi) == sum_cash(a, lo, hi) + if lo <= i < hi { x.cash - a[i].cash } else { 0 },
        sum_inventory(a.update(i, x), lo, hi) == sum_inventory(a, lo, hi) + if lo <= i < hi {
            x.inventory - a[i].inventory
        } else {
            0
        },
        sum_volume(a.update(i, x), lo, hi) == sum_volume(a, lo, hi) + if lo <= i < hi {
            x.volume - a[i].volume
        } else {
            0
        },
    decreases hi - lo,
{
    if hi > lo {
        lemma_sums_update(a, i, x, lo, hi - 1);
    }
}

/// Every trade moves value between two parties and never creates it:
/// settling fills leaves the total cash and the total inventory over all
/// accounts as they were, and adds twice the traded lots to the total
/// volume (once for the buyer, once for the seller).
pub proof fn law_settlement_balances(a: Seq<Account>, evs: Seq<Event>)
    requires
        settle_ok(a, evs),
    ensures
        settled(a, evs).len() == a.len(),
        sum_cash(settled(a, evs), 0, a.len() as int) == sum_cash(a, 0, a.len() as int),
        sum_inventory(settled(a, evs), 0, a.len() as int) == sum_inventory(a, 0, a.len() as int),
        sum_volume(settled(a, evs), 0, a.len() as int) == sum_volume(a, 0, a.len() as int) + 2
            * filled_qty(evs),
    decreases evs.len(),
{
    if evs.len() > 0 {
        match evs[0] {
            Event::Fill(f) => {
                let (b, sl) = parties(f);
                let n = f.price * f.qty;
                let a1 = debit_buyer(a, f);
                let a2 = apply_fill(a, f);
                lemma_sums_update(a, b as int, a1[b as int], 0, a.len() as int);
                lemma_sums_update(a1, sl as int, a2[sl as int], 0, a.len() as int);
                assert(a1 == a.update(b as int, a1[b as int]));
                assert(a2 == a1.update(sl as int, a2[sl as int]));
                law_settlement_balances(a2, evs.drop_first());
            },
            Event::SelfMatch { .. } => {
                law_settlement_balances(a, evs.drop_first());
            },
        }
    }
}

} // verus!
