use pit::{Book, Event, Fill, Side};

fn fills(book: &mut Book) -> Vec<Fill> {
    book.events
        .drain(..)
        .filter_map(|e| match e {
            Event::Fill(f) => Some(f),
            _ => None,
        })
        .collect()
}

#[test]
fn resting_order_sits_on_the_book() {
    let mut b = Book::new();
    b.limit(Side::Buy, 100, 10, 1);
    assert_eq!(b.best_bid(), Some(100));
    assert_eq!(b.best_ask(), None);
    assert!(fills(&mut b).is_empty());
}

#[test]
fn crossing_limit_trades_at_the_resting_price() {
    let mut b = Book::new();
    let maker = b.limit(Side::Sell, 101, 10, 1);
    b.limit(Side::Buy, 105, 4, 2);
    let f = fills(&mut b);
    assert_eq!(f.len(), 1);
    assert_eq!(f[0].price, 101); // maker's price, not the taker's limit
    assert_eq!(f[0].qty, 4);
    assert_eq!(f[0].maker, maker);
    assert_eq!(b.depth(Side::Sell, 1), vec![(101, 6)]);
}

#[test]
fn fifo_within_a_level() {
    let mut b = Book::new();
    let first = b.limit(Side::Sell, 101, 5, 1);
    let second = b.limit(Side::Sell, 101, 5, 2);
    b.market(Side::Buy, 7, 3);
    let f = fills(&mut b);
    assert_eq!(f.len(), 2);
    assert_eq!((f[0].maker, f[0].qty), (first, 5));
    assert_eq!((f[1].maker, f[1].qty), (second, 2));
}

#[test]
fn better_price_matches_first() {
    let mut b = Book::new();
    b.limit(Side::Sell, 102, 5, 1);
    let cheap = b.limit(Side::Sell, 101, 5, 2);
    b.market(Side::Buy, 3, 3);
    let f = fills(&mut b);
    assert_eq!(f[0].maker, cheap);
    assert_eq!(f[0].price, 101);
}

#[test]
fn partial_fill_rests_the_remainder() {
    let mut b = Book::new();
    b.limit(Side::Sell, 101, 3, 1);
    b.limit(Side::Buy, 101, 10, 2);
    assert_eq!(fills(&mut b)[0].qty, 3);
    assert_eq!(b.depth(Side::Buy, 1), vec![(101, 7)]);
    assert_eq!(b.best_ask(), None);
}

#[test]
fn ioc_never_rests() {
    let mut b = Book::new();
    b.limit(Side::Sell, 101, 3, 1);
    let filled = b.ioc(Side::Buy, 101, 10, 2);
    assert_eq!(filled, 3);
    assert_eq!(b.best_bid(), None);
}

#[test]
fn cancel_removes_the_order() {
    let mut b = Book::new();
    let id = b.limit(Side::Buy, 100, 10, 1);
    assert!(b.cancel(id));
    assert!(!b.cancel(id));
    assert_eq!(b.best_bid(), None);
}

#[test]
fn self_match_cancels_the_resting_order() {
    let mut b = Book::new();
    let mine = b.limit(Side::Sell, 101, 5, 1);
    let other = b.limit(Side::Sell, 101, 5, 2);
    b.limit(Side::Buy, 101, 8, 1);
    let evs = std::mem::take(&mut b.events);
    // Our own resting order is dropped, then we trade with the other one.
    assert_eq!(
        evs[0],
        Event::SelfMatch {
            canceled: mine,
            owner: 1,
            lost_qty: 5
        }
    );
    match evs[1] {
        Event::Fill(f) => {
            assert_eq!(f.maker, other);
            assert_eq!(f.qty, 5);
        }
        _ => panic!("expected a fill after the self-match cancel"),
    }
    // 8 wanted, 5 traded, 3 rest on the bid.
    assert_eq!(b.depth(Side::Buy, 1), vec![(101, 3)]);
}

#[test]
fn book_never_stays_crossed() {
    let mut b = Book::new();
    b.limit(Side::Buy, 100, 10, 1);
    b.limit(Side::Sell, 99, 25, 2);
    let f = fills(&mut b);
    assert_eq!(f[0].price, 100);
    assert_eq!(f[0].qty, 10);
    if let (Some(bb), Some(ba)) = (b.best_bid(), b.best_ask()) {
        assert!(bb < ba);
    }
}

// Further cases.

#[test]
fn ids_are_handed_out_in_order() {
    let mut b = Book::new();
    assert_eq!(b.next_order_id(), 1);
    assert_eq!(b.limit(Side::Buy, 100, 1, 1), 1);
    assert_eq!(b.ioc(Side::Buy, 100, 1, 1), 0);
    assert_eq!(b.next_order_id(), 3);
    assert_eq!(b.market(Side::Sell, 1, 2), 1);
    assert_eq!(b.limit(Side::Sell, 100, 1, 1), 4);
    assert_eq!(b.next_order_id(), 5);
}

#[test]
fn depth_adds_up_each_level_best_first() {
    let mut b = Book::new();
    b.limit(Side::Buy, 99, 4, 1);
    b.limit(Side::Buy, 100, 2, 2);
    b.limit(Side::Buy, 99, 6, 3);
    b.limit(Side::Buy, 98, 1, 4);
    b.limit(Side::Sell, 103, 5, 1);
    b.limit(Side::Sell, 102, 7, 2);
    assert_eq!(b.depth(Side::Buy, 5), vec![(100, 2), (99, 10), (98, 1)]);
    assert_eq!(b.depth(Side::Buy, 2), vec![(100, 2), (99, 10)]);
    assert_eq!(b.depth(Side::Buy, 0), vec![]);
    assert_eq!(b.depth(Side::Sell, 5), vec![(102, 7), (103, 5)]);
    assert_eq!(b.best_bid(), Some(100));
    assert_eq!(b.best_ask(), Some(102));
}

#[test]
fn resting_reports_side_price_and_what_is_left() {
    let mut b = Book::new();
    let bid = b.limit(Side::Buy, 100, 10, 1);
    let ask = b.limit(Side::Sell, 105, 8, 2);
    b.market(Side::Buy, 3, 3);
    assert_eq!(b.resting(bid), Some((Side::Buy, 100, 10)));
    assert_eq!(b.resting(ask), Some((Side::Sell, 105, 5)));
    assert_eq!(b.resting(999), None);
    assert!(b.is_live(bid) && b.is_live(ask));
    assert!(!b.is_live(3));
    b.market(Side::Buy, 5, 3);
    assert_eq!(b.resting(ask), None);
    assert!(!b.is_live(ask));
}

#[test]
fn market_sweeps_levels_and_reports_what_filled() {
    let mut b = Book::new();
    b.limit(Side::Buy, 100, 3, 1);
    b.limit(Side::Buy, 99, 4, 2);
    let filled = b.market(Side::Sell, 10, 3);
    assert_eq!(filled, 7);
    let f = fills(&mut b);
    assert_eq!(f.len(), 2);
    assert_eq!((f[0].price, f[0].qty, f[0].taker_side), (100, 3, Side::Sell));
    assert_eq!((f[1].price, f[1].qty, f[1].maker_owner), (99, 4, 2));
    assert_eq!(f[1].taker_owner, 3);
    assert_eq!(b.best_bid(), None);
    assert_eq!(b.best_ask(), None);
}

#[test]
fn limit_that_does_not_cross_just_rests() {
    let mut b = Book::new();
    b.limit(Side::Sell, 105, 5, 1);
    let id = b.limit(Side::Buy, 104, 5, 2);
    assert!(b.events.is_empty());
    assert_eq!(b.resting(id), Some((Side::Buy, 104, 5)));
}

#[test]
fn purge_all_empties_the_book_quietly() {
    let mut b = Book::new();
    let id = b.limit(Side::Buy, 100, 5, 1);
    b.limit(Side::Sell, 101, 5, 2);
    b.purge_all();
    assert_eq!(b.best_bid(), None);
    assert_eq!(b.best_ask(), None);
    assert!(!b.is_live(id));
    assert!(!b.cancel(id));
    assert!(b.events.is_empty());
    assert_eq!(b.limit(Side::Buy, 100, 5, 1), 3);
}

#[test]
fn self_match_with_nothing_else_leaves_the_taker_unfilled() {
    let mut b = Book::new();
    let mine = b.limit(Side::Buy, 100, 5, 7);
    let filled = b.market(Side::Sell, 5, 7);
    assert_eq!(filled, 0);
    assert_eq!(
        b.events,
        vec![Event::SelfMatch {
            canceled: mine,
            owner: 7,
            lost_qty: 5
        }]
    );
    assert!(!b.is_live(mine));
}

#[test]
fn zero_quantity_limit_takes_an_id_and_nothing_else() {
    let mut b = Book::new();
    b.limit(Side::Sell, 100, 5, 1);
    let id = b.limit(Side::Buy, 100, 0, 2);
    assert_eq!(id, 2);
    assert!(b.events.is_empty());
    assert!(!b.is_live(id));
    assert_eq!(b.depth(Side::Sell, 1), vec![(100, 5)]);
}

#[test]
fn take_events_drains_the_buffer() {
    let mut b = Book::new();
    b.limit(Side::Sell, 100, 5, 1);
    b.limit(Side::Buy, 100, 2, 2);
    let evs = b.take_events();
    assert_eq!(evs.len(), 1);
    assert!(b.events.is_empty());
    assert!(b.view_events().is_empty());
}

#[test]
fn flip_gives_the_other_side() {
    assert_eq!(Side::Buy.flip(), Side::Sell);
    assert_eq!(Side::Sell.flip(), Side::Buy);
}

#[test]
fn default_book_is_empty() {
    let mut b = Book::default();
    assert_eq!(b.best_bid(), None);
    assert_eq!(b.limit(Side::Buy, 1, 1, 1), 1);
}

#[test]
fn cancel_leaves_the_rest_of_the_level() {
    let mut b = Book::new();
    let a = b.limit(Side::Sell, 101, 5, 1);
    let c = b.limit(Side::Sell, 101, 4, 2);
    let d = b.limit(Side::Sell, 101, 3, 3);
    assert!(b.cancel(c));
    assert!(b.is_live(a) && b.is_live(d));
    assert_eq!(b.depth(Side::Sell, 1), vec![(101, 8)]);
    b.market(Side::Buy, 6, 9);
    let f = fills(&mut b);
    assert_eq!((f[0].maker, f[0].qty), (a, 5));
    assert_eq!((f[1].maker, f[1].qty), (d, 1));
}

#[test]
fn filled_quantity_matches_the_fills() {
    let mut b = Book::new();
    b.limit(Side::Sell, 101, 2, 1);
    b.limit(Side::Sell, 102, 3, 2);
    b.limit(Side::Sell, 103, 4, 5);
    b.limit(Side::Sell, 104, 9, 3);
    let filled = b.ioc(Side::Buy, 103, 20, 5);
    let evs = b.take_events();
    let traded: u32 = evs
        .iter()
        .map(|e| match e {
            Event::Fill(f) => f.qty,
            _ => 0,
        })
        .sum();
    assert_eq!(filled, 5);
    assert_eq!(traded, 5);
    // The taker's own order at 103 was canceled, not traded.
    assert!(matches!(evs[2], Event::SelfMatch { lost_qty: 4, owner: 5, .. }));
    assert_eq!(b.depth(Side::Sell, 5), vec![(104, 9)]);
}

#[test]
fn level_totals_fit_flags_an_oversized_level() {
    let mut b = Book::new();
    b.limit(Side::Buy, 100, u32::MAX, 1);
    b.limit(Side::Buy, 99, u32::MAX, 1);
    b.limit(Side::Buy, 99, 1, 2);
    assert!(b.level_totals_fit(Side::Buy, 1));
    assert!(!b.level_totals_fit(Side::Buy, 2));
    assert!(b.level_totals_fit(Side::Sell, 3));
    assert_eq!(b.depth(Side::Buy, 1), vec![(100, u32::MAX)]);
}

#[test]
fn ids_run_in_call_order_and_are_never_reused() {
    let mut b = Book::new();
    assert_eq!(b.limit(Side::Buy, 100, 5, 1), 1);
    b.ioc(Side::Sell, 100, 2, 2); // takes id 2
    b.market(Side::Sell, 1, 2); // takes id 3
    assert!(b.cancel(1));
    b.purge_all();
    assert_eq!(b.next_order_id(), 4);
    assert_eq!(b.limit(Side::Sell, 105, 5, 1), 4);
    assert_eq!(b.limit(Side::Buy, 99, 5, 1), 5);
}

#[test]
fn best_prices_are_the_top_depth_levels() {
    let mut b = Book::new();
    assert_eq!(b.best_bid(), None);
    assert!(b.depth(Side::Buy, 1).is_empty());
    b.limit(Side::Buy, 98, 3, 1);
    b.limit(Side::Buy, 99, 4, 1);
    b.limit(Side::Buy, 99, 2, 2);
    b.limit(Side::Sell, 103, 6, 3);
    b.limit(Side::Sell, 102, 1, 3);
    assert_eq!(b.best_bid(), Some(99));
    assert_eq!(b.depth(Side::Buy, 1), vec![(99, 6)]);
    assert_eq!(b.best_ask(), Some(102));
    assert_eq!(b.depth(Side::Sell, 2), vec![(102, 1), (103, 6)]);
}

#[test]
fn a_market_order_sweeps_every_level() {
    let mut b = Book::new();
    b.limit(Side::Sell, 1, 2, 1);
    b.limit(Side::Sell, 4_000_000_000, 3, 1);
    assert_eq!(b.market(Side::Buy, 10, 2), 5);
    assert_eq!(b.best_ask(), None);
    assert_eq!(b.best_bid(), None);
}
