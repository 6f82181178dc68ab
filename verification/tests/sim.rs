use pit::{Book, Brain, Maker, Pcg32, Side, Sim, BOT, INFORMED, MAKER_FIXED, MAKER_WARY, NOISE_FIRST, USER};

fn total_cash_and_inventory(sim: &Sim) -> (i64, i64) {
    let mut cash = 0i64;
    let mut inv = 0i64;
    for owner in 0..=BOT {
        let a = sim.account(owner);
        cash += a.cash;
        inv += a.inventory;
    }
    (cash, inv)
}

#[test]
fn pcg32_stream_is_fixed_by_the_seed() {
    let mut r = Pcg32::new(42);
    assert_eq!(r.next_u32(), 1898997482);
    assert_eq!(r.next_u32(), 1014631766);
    assert_eq!(r.next_u32(), 4096008554);
    assert_eq!(r.next_u32(), 633901381);
    let mut r = Pcg32::new(7);
    let draws: Vec<u32> = (0..6).map(|_| r.below(10)).collect();
    assert_eq!(draws, vec![3, 9, 4, 2, 8, 5]);
    let mut a = Pcg32::new(0);
    let mut b = Pcg32::new(0);
    assert_eq!(a.next_u32(), 174444157);
    assert_eq!(b.next_u32(), 174444157);
    assert_eq!(a.next_u32(), b.next_u32());
}

#[test]
fn same_seed_same_opening_book() {
    let a = Sim::new(42);
    let b = Sim::new(42);
    assert_eq!(a.book.depth(Side::Buy, 40), b.book.depth(Side::Buy, 40));
    assert_eq!(a.book.depth(Side::Sell, 40), b.book.depth(Side::Sell, 40));
    assert_eq!(a.book.next_order_id(), 61);
}

#[test]
fn opening_book_brackets_the_opening_price() {
    let sim = Sim::new(9);
    let bb = sim.book.best_bid().unwrap();
    let ba = sim.book.best_ask().unwrap();
    assert!(bb < 10_000 && ba > 10_000);
    assert!(bb >= 10_000 - 3 && ba <= 10_000 + 3);
    assert!(sim.book.events.is_empty());
    assert_eq!(sim.tick(), 0);
    assert_eq!(sim.makers.len(), 3);
    assert_eq!(sim.makers[0].owner, MAKER_FIXED);
    assert_eq!(sim.makers[2].size, 12);
    for owner in 0..=BOT {
        let a = sim.account(owner);
        assert_eq!((a.cash, a.inventory, a.volume), (0, 0, 0));
    }
}

#[test]
fn you_can_only_cancel_your_own_orders() {
    let mut sim = Sim::new(5);
    let user_id = sim.user_limit(Side::Buy, 9_000, 5); // deep, rests
    let bot_id = sim.bot_limit(Side::Buy, 8_999, 5);
    assert!(!sim.user_cancel(bot_id));
    assert!(!sim.bot_cancel(user_id));
    for id in 1..200 {
        if id != user_id {
            assert!(!sim.user_cancel(id), "user canceled foreign order {id}");
        }
    }
    assert!(sim.book.is_live(1));
    assert!(sim.user_cancel(user_id));
    assert!(!sim.user_cancel(user_id));
    assert!(sim.bot_cancel(bot_id));
}

#[test]
fn a_market_buy_settles_into_both_accounts() {
    let mut sim = Sim::new(3);
    let ba = sim.book.best_ask().unwrap();
    let first = sim.book.depth(Side::Sell, 1)[0];
    let qty = first.1.min(2);
    let filled = sim.user_market(Side::Buy, qty);
    assert_eq!(filled, qty);
    let me = sim.account(USER);
    assert_eq!(me.inventory, qty as i64);
    assert_eq!(me.cash, -(ba as i64) * qty as i64);
    assert_eq!(me.volume, qty as u64);
    let tape = sim.take_tape();
    assert!(!tape.is_empty());
    assert_eq!(tape[0].price, ba);
    assert_eq!(tape[0].taker_owner, USER);
    assert_eq!(tape[0].taker_side, Side::Buy);
    assert!(sim.take_tape().is_empty());
    assert_eq!(total_cash_and_inventory(&sim), (0, 0));
    assert!(sim.book.events.is_empty());
}

#[test]
fn books_balance_after_crossing_trades() {
    let mut sim = Sim::new(11);
    sim.user_market(Side::Buy, 20);
    sim.bot_market(Side::Sell, 30);
    sim.user_limit(Side::Sell, 9_990, 15);
    sim.bot_limit(Side::Buy, 10_010, 12);
    assert_eq!(total_cash_and_inventory(&sim), (0, 0));
    let noise = sim.noise_total();
    let mut cash = 0;
    let mut inv = 0;
    let mut vol = 0;
    for owner in NOISE_FIRST..BOT {
        cash += sim.account(owner).cash;
        inv += sim.account(owner).inventory;
        vol += sim.account(owner).volume;
    }
    assert_eq!((noise.cash, noise.inventory, noise.volume), (cash, inv, vol));
    let user = sim.account(USER);
    let bot = sim.account(BOT);
    assert_eq!(noise.cash + user.cash + bot.cash, 0);
}

#[test]
fn open_orders_list_only_live_desk_orders() {
    let mut sim = Sim::new(5);
    let a = sim.user_limit(Side::Buy, 9_000, 5);
    let b = sim.user_limit(Side::Buy, 9_001, 3);
    assert_eq!(
        sim.user_open_orders(),
        vec![(a, Side::Buy, 9_000, 5), (b, Side::Buy, 9_001, 3)]
    );
    assert!(sim.bot_open_orders().is_empty());
    sim.bot_market(Side::Sell, 100_000);
    assert_eq!(sim.user_open_orders(), vec![]);
    sim.prune_desks();
    assert!(!sim.user_cancel(a));
    let c = sim.bot_limit(Side::Sell, 20_000, 4);
    assert_eq!(sim.bot_open_orders(), vec![(c, Side::Sell, 20_000, 4)]);
}

#[test]
fn stale_noise_orders_expire() {
    let mut sim = Sim::new(1);
    let before = sim.book.next_order_id();
    sim.noise_limit(NOISE_FIRST, Side::Buy, 3, 9_000, 2, false);
    let id = before;
    assert_eq!(sim.book.resting(id), Some((Side::Buy, 8_998, 3)));
    for _ in 0..399 {
        sim.advance_tick();
    }
    sim.expire_noise();
    assert!(sim.book.is_live(id));
    sim.advance_tick();
    sim.expire_noise();
    assert!(!sim.book.is_live(id));
}

#[test]
fn noise_limit_skips_prices_below_one_tick() {
    let mut sim = Sim::new(1);
    let before = sim.book.next_order_id();
    sim.noise_limit(NOISE_FIRST, Side::Buy, 3, 1, 2, false);
    assert_eq!(sim.book.next_order_id(), before);
    sim.noise_limit(NOISE_FIRST, Side::Sell, 3, 20_000, 0, true);
    assert_eq!(sim.book.resting(before), Some((Side::Sell, 19_999, 3)));
}

#[test]
fn settle_reports_signed_flow() {
    let mut sim = Sim::new(2);
    sim.book.market(Side::Buy, 5, INFORMED);
    sim.book.market(Side::Sell, 2, INFORMED);
    assert!(sim.can_settle());
    assert_eq!(sim.settle(), 3);
    assert_eq!(sim.account(INFORMED).inventory, 3);
    assert!(sim.book.events.is_empty());
    assert_eq!(sim.settle(), 0);
}

#[test]
fn tape_is_trimmed_past_its_cap() {
    let mut sim = Sim::new(4);
    sim.book.purge_all();
    sim.bot_limit(Side::Sell, 10_000, 300_000);
    for _ in 0..200_001 {
        sim.user_market(Side::Buy, 1);
    }
    sim.trim_tape();
    let tape = sim.take_tape();
    assert_eq!(tape.len(), 100_001);
}

#[test]
fn maker_quotes_passively_and_keeps_fresh_quotes() {
    let mut book = Book::new();
    book.limit(Side::Buy, 99, 5, 40);
    book.limit(Side::Sell, 101, 5, 41);
    let mut m = Maker::new(MAKER_FIXED, Brain::Fixed);
    // Wants 100/100 but must stay passive: bid capped at 100, ask at least 100,
    // then the ask goes above the bid.
    m.requote(&mut book, 1, false, 100, 100, Some(99), Some(101), 0);
    assert_eq!(book.depth(Side::Buy, 1), vec![(100, 15)]);
    assert_eq!(book.depth(Side::Sell, 1), vec![(101, 20)]);
    let next = book.next_order_id();
    m.requote(&mut book, 2, false, 100, 100, Some(99), Some(101), 0);
    assert_eq!(book.next_order_id(), next);
    // Past the inventory cap only the ask is quoted.
    m.requote(&mut book, 3, false, 100, 100, Some(99), Some(101), 60);
    assert_eq!(book.depth(Side::Buy, 1), vec![(99, 5)]);
    assert_eq!(book.depth(Side::Sell, 1), vec![(101, 20)]);
    m.pull(&mut book);
    assert_eq!(book.depth(Side::Sell, 1), vec![(101, 5)]);
}

#[test]
fn wary_maker_steps_away_on_alarm() {
    let mut book = Book::new();
    let mut m = Maker::new(MAKER_WARY, Brain::Wary);
    assert_eq!(m.size, 12);
    m.requote(&mut book, 10, false, 98, 102, None, None, 0);
    assert_eq!(book.depth(Side::Buy, 1), vec![(98, 12)]);
    assert!(!m.is_pulled(10));
    m.requote(&mut book, 11, true, 98, 102, None, None, 0);
    assert!(m.is_pulled(11));
    assert!(m.is_pulled(50));
    assert!(!m.is_pulled(51));
    assert_eq!(book.best_bid(), None);
    assert_eq!(book.best_ask(), None);
    m.requote(&mut book, 51, false, 98, 102, None, None, 0);
    assert_eq!(book.best_ask(), Some(102));
}

#[test]
fn maker_replaces_a_mostly_eaten_quote() {
    let mut book = Book::new();
    let mut m = Maker::new(MAKER_FIXED, Brain::Fixed);
    m.requote(&mut book, 1, false, 100, 102, None, None, 0);
    book.market(Side::Buy, 8, 9);
    assert_eq!(book.depth(Side::Sell, 1), vec![(102, 7)]);
    m.requote(&mut book, 2, false, 100, 102, Some(100), None, 0);
    assert_eq!(book.depth(Side::Sell, 1), vec![(102, 15)]);
}

#[test]
fn a_placed_desk_order_settles_on_request() {
    let mut sim = Sim::new(11);
    let ba = sim.book.best_ask().unwrap();
    let id = sim.user_place_limit(Side::Buy, ba, 1);
    assert_eq!(id, 61);
    assert!(!sim.book.view_events().is_empty());
    assert_eq!(sim.account(USER).inventory, 0);
    assert!(sim.can_settle());
    assert_eq!(sim.settle(), 1);
    assert_eq!(sim.account(USER).inventory, 1);
    assert_eq!(sim.account(USER).cash, -(ba as i64));
    let filled = sim.bot_place_market(Side::Sell, 2);
    assert_eq!(filled, 2);
    assert_eq!(sim.settle(), -2);
    assert_eq!(sim.account(BOT).inventory, -2);
    assert_eq!(total_cash_and_inventory(&sim), (0, 0));
}

#[test]
fn cash_stays_balanced_over_desk_trading() {
    let mut sim = Sim::new(9);
    for k in 0..40u32 {
        let side = if k % 2 == 0 { Side::Buy } else { Side::Sell };
        sim.user_market(side, 1 + k % 3);
        sim.bot_market(side.flip(), 2);
        sim.user_limit(side, 10_000, 1);
    }
    assert_eq!(total_cash_and_inventory(&sim).0, 0);
    assert_eq!(total_cash_and_inventory(&sim).1, 0);
}

#[test]
fn order_size_draws_follow_the_generator() {
    let mut a = Pcg32::new(21);
    let mut b = Pcg32::new(21);
    for _ in 0..200 {
        let q = pit::sim::noise_qty(&mut a);
        let mut want = 1 + b.below(10);
        if b.below(25) == 0 {
            want += 15 + b.below(30);
        }
        assert_eq!(q, want);
        assert!((1..=54).contains(&q));
        let off = pit::sim::noise_offset(&mut a);
        assert_eq!(off, (b.below(3) + b.below(3)) as i64);
        let iq = pit::sim::informed_qty(&mut a);
        assert_eq!(iq, 4 + b.below(12));
        assert!((4..=15).contains(&iq));
    }
    assert_eq!(pit::sim::flatten_qty(3), 3);
    assert_eq!(pit::sim::flatten_qty(-7), 7);
    assert_eq!(pit::sim::flatten_qty(25), 10);
    assert_eq!(pit::sim::flatten_qty(i64::MIN), 10);
    assert_eq!(pit::sim::flatten_qty(0), 0);
}

#[test]
fn noise_totals_fit_on_a_fresh_market() {
    let sim = Sim::new(4);
    assert!(sim.noise_total_fits());
    let t = sim.noise_total();
    assert_eq!((t.cash, t.inventory, t.volume), (0, 0, 0));
}
