use order_book::messages::{BookDepthUpdate, FullBook, LevelApi};
use order_book::order_book::{DiffOutcome, OrderBook};
use order_book::price_level::Level;

const ATOMS: u64 = 100_000_000;

fn lvl(price: &str, quantity: &str) -> LevelApi {
    LevelApi { price: price.to_string(), quantity: quantity.to_string() }
}

fn diff(first: u64, last: u64, prev: u64, b: Vec<LevelApi>, a: Vec<LevelApi>) -> BookDepthUpdate {
    BookDepthUpdate {
        e: "".to_string(),
        E: 0,
        T: 0,
        s: "".to_string(),
        U: first,
        u: last,
        pu: prev,
        b,
        a,
    }
}

fn snapshot_100500() -> FullBook {
    FullBook {
        last_update_id: 100500,
        bids: vec![lvl("5", "1"), lvl("4", "1"), lvl("3", "1")],
        asks: vec![lvl("6", "1"), lvl("7", "1"), lvl("8", "1")],
    }
}

#[test]
fn get_best_bid_test() {
    let mut book = OrderBook::new(4, "".to_string());
    let http_book = FullBook {
        last_update_id: 1,
        bids: vec![lvl("20", "1"), lvl("19", "1"), lvl("18", "1"), lvl("17", "1")],
        asks: vec![lvl("21", "1"), lvl("22", "1"), lvl("23", "1"), lvl("24", "1")],
    };
    book.apply_full_book_from_http_api(&http_book);

    assert_eq!(book.get_best_bid().unwrap(), Level { quantity: ATOMS, price: 20 * ATOMS });
    assert_eq!(book.get_best_ask().unwrap(), Level { quantity: ATOMS, price: 21 * ATOMS });
}

#[test]
fn apply_http_full_book_apply_test() {
    let mut book = OrderBook::new(3, "".to_string());

    let http_book = snapshot_100500();
    book.apply_full_book_from_http_api(&http_book);

    assert_eq!(book.get_best_bid().unwrap(), Level { quantity: ATOMS, price: 5 * ATOMS });
    assert_eq!(book.get_best_ask().unwrap(), Level { quantity: ATOMS, price: 6 * ATOMS });
    assert_eq!(book.bid_len(), 3);
    assert_eq!(book.ask_len(), 3);

    // a book configured with fewer levels keeps only the best of the same
    // snapshot
    let mut shallow = OrderBook::new(2, "".to_string());
    shallow.apply_full_book_from_http_api(&http_book);

    assert_eq!(shallow.get_best_bid().unwrap(), Level { quantity: ATOMS, price: 5 * ATOMS });
    assert_eq!(shallow.get_best_ask().unwrap(), Level { quantity: ATOMS, price: 6 * ATOMS });
    assert_eq!(shallow.bid_len(), 2);
    assert_eq!(shallow.ask_len(), 2);
}

#[test]
fn apply_websocket_update_book_apply_test() {
    let mut book = OrderBook::new(3, "".to_string());
    // an empty snapshot puts the book at cursor 0 with the continuity check
    // relaxed, the state the stream handler starts from
    book.apply_full_book_from_http_api(&FullBook { last_update_id: 0, bids: vec![], asks: vec![] });

    let ws_book = diff(
        100000,
        100500,
        0,
        vec![lvl("5", "1"), lvl("4", "1"), lvl("3", "1")],
        vec![lvl("6", "1"), lvl("7", "1"), lvl("8", "1")],
    );

    // 1) the book is too old with cursor 0: the event's range does not reach
    //    back to it, so this is a gap
    assert_eq!(book.apply_depth_book_update_from_websocket(&ws_book), DiffOutcome::Gap);

    // 2) a book already past the event ignores it
    book.apply_full_book_from_http_api(&FullBook {
        last_update_id: 100501,
        bids: vec![],
        asks: vec![],
    });
    assert_eq!(book.apply_depth_book_update_from_websocket(&ws_book), DiffOutcome::Stale);
    assert_eq!(book.bid_len(), 0);
    assert_eq!(book.ask_len(), 0);
    assert_eq!(book.get_last_update_id(), 100501);

    // 3) a cursor inside the covered range U <= cursor <= u takes the event
    book.apply_full_book_from_http_api(&FullBook {
        last_update_id: 100499,
        bids: vec![],
        asks: vec![],
    });
    assert_eq!(book.apply_depth_book_update_from_websocket(&ws_book), DiffOutcome::Applied);
    assert_eq!(book.bid_len(), 3);
    assert_eq!(book.ask_len(), 3);
    assert_eq!(book.get_last_update_id(), 100500);

    assert_eq!(book.get_best_bid().unwrap(), Level { quantity: ATOMS, price: 5 * ATOMS });
    assert_eq!(book.get_best_ask().unwrap(), Level { quantity: ATOMS, price: 6 * ATOMS });
}

#[test]
fn snapshot_seeds_best_mid_and_spread() {
    let mut book = OrderBook::new(3, "btcusdt".to_string());
    book.apply_full_book_from_http_api(&snapshot_100500());

    assert_eq!(book.get_best_bid().unwrap(), Level { quantity: ATOMS, price: 5 * ATOMS });
    assert_eq!(book.get_best_ask().unwrap(), Level { quantity: ATOMS, price: 6 * ATOMS });
    // mid 5.5, spread 1, in atoms
    assert_eq!(book.get_mid().unwrap(), 550_000_000);
    assert_eq!(book.get_spread().unwrap(), 100_000_000);
    assert_eq!(book.get_last_update_id(), 100500);
}

#[test]
fn first_diff_after_snapshot_reapplies_same_levels() {
    let mut book = OrderBook::new(3, "btcusdt".to_string());
    book.apply_full_book_from_http_api(&snapshot_100500());

    // ends exactly at the snapshot id and does not chain from any previous
    // diff: applied nonetheless, because the book was just initialised
    let ws = diff(
        100000,
        100500,
        0,
        vec![lvl("5", "1"), lvl("4", "1"), lvl("3", "1")],
        vec![lvl("6", "1"), lvl("7", "1"), lvl("8", "1")],
    );
    assert_eq!(book.apply_depth_book_update_from_websocket(&ws), DiffOutcome::Applied);
    assert_eq!(book.get_last_update_id(), 100500);
    assert_eq!(book.get_best_bid().unwrap(), Level { quantity: ATOMS, price: 5 * ATOMS });
    assert_eq!(book.get_best_ask().unwrap(), Level { quantity: ATOMS, price: 6 * ATOMS });
    assert_eq!(book.bid_len(), 3);
    assert_eq!(book.ask_len(), 3);
}

#[test]
fn bootstrap_relaxation_holds_for_exactly_one_diff() {
    let mut book = OrderBook::new(3, "btcusdt".to_string());
    book.apply_full_book_from_http_api(&snapshot_100500());

    // first diff after the snapshot: continuity not required
    let first = diff(100000, 100500, 0, vec![], vec![]);
    assert_eq!(book.apply_depth_book_update_from_websocket(&first), DiffOutcome::Applied);

    // second diff with a broken chain: now a gap
    let second = diff(100200, 100600, 42, vec![], vec![]);
    assert_eq!(book.apply_depth_book_update_from_websocket(&second), DiffOutcome::Gap);
    assert_eq!(book.get_last_update_id(), 100500);
}

#[test]
fn stale_event_mutates_nothing() {
    let mut book = OrderBook::new(3, "btcusdt".to_string());
    book.apply_full_book_from_http_api(&FullBook {
        last_update_id: 100501,
        bids: vec![lvl("5", "1")],
        asks: vec![lvl("6", "1")],
    });

    let ws = diff(100000, 100500, 0, vec![lvl("9", "1")], vec![lvl("2", "1")]);
    assert_eq!(book.apply_depth_book_update_from_websocket(&ws), DiffOutcome::Stale);
    assert_eq!(book.get_last_update_id(), 100501);
    assert_eq!(book.get_best_bid().unwrap(), Level { quantity: ATOMS, price: 5 * ATOMS });
    assert_eq!(book.get_best_ask().unwrap(), Level { quantity: ATOMS, price: 6 * ATOMS });
    assert_eq!(book.bid_len(), 1);
    assert_eq!(book.ask_len(), 1);
}

#[test]
fn event_starting_past_cursor_is_a_gap() {
    let mut book = OrderBook::new(3, "btcusdt".to_string());
    book.apply_full_book_from_http_api(&FullBook { last_update_id: 10, bids: vec![], asks: vec![] });

    let ws = diff(20, 30, 10, vec![lvl("5", "1")], vec![]);
    assert_eq!(book.apply_depth_book_update_from_websocket(&ws), DiffOutcome::Gap);
    assert_eq!(book.get_last_update_id(), 10);
    assert_eq!(book.bid_len(), 0);
}

#[test]
fn broken_chain_without_bootstrap_is_a_gap() {
    let mut book = OrderBook::new(3, "btcusdt".to_string());
    book.apply_full_book_from_http_api(&FullBook {
        last_update_id: 100499,
        bids: vec![],
        asks: vec![],
    });
    // consume the one relaxed transition
    let first = diff(100000, 100499, 0, vec![], vec![]);
    assert_eq!(book.apply_depth_book_update_from_websocket(&first), DiffOutcome::Applied);

    // cursor 100499, not bootstrapped, chain broken: gap, no mutation
    let ws = diff(100000, 100500, 999, vec![lvl("5", "1")], vec![]);
    assert_eq!(book.apply_depth_book_update_from_websocket(&ws), DiffOutcome::Gap);
    assert_eq!(book.get_last_update_id(), 100499);
    assert_eq!(book.bid_len(), 0);
}

#[test]
fn cursor_never_moves_backwards() {
    let mut book = OrderBook::new(3, "btcusdt".to_string());
    book.apply_full_book_from_http_api(&snapshot_100500());

    let outcomes = [
        book.apply_depth_book_update_from_websocket(&diff(100000, 100500, 0, vec![], vec![])),
        book.apply_depth_book_update_from_websocket(&diff(100000, 100400, 0, vec![], vec![])),
        book.apply_depth_book_update_from_websocket(&diff(100400, 100700, 100500, vec![], vec![])),
        book.apply_depth_book_update_from_websocket(&diff(100900, 100950, 100700, vec![], vec![])),
    ];
    assert_eq!(
        outcomes,
        [DiffOutcome::Applied, DiffOutcome::Stale, DiffOutcome::Applied, DiffOutcome::Gap]
    );
    assert_eq!(book.get_last_update_id(), 100700);
}

#[test]
fn tombstones_and_updates_in_one_event() {
    let mut book = OrderBook::new(10, "btcusdt".to_string());
    book.apply_full_book_from_http_api(&snapshot_100500());

    // remove the best bid, change the quantity of the best ask, add a new
    // ask, and ask for the removal of an absent price (a harmless no-op)
    let ws = diff(
        100400,
        100600,
        100500,
        vec![lvl("5", "0"), lvl("1", "0")],
        vec![lvl("6", "2"), lvl("5.5", "1")],
    );
    assert_eq!(book.apply_depth_book_update_from_websocket(&ws), DiffOutcome::Applied);
    assert_eq!(book.get_best_bid().unwrap(), Level { quantity: ATOMS, price: 4 * ATOMS });
    assert_eq!(book.get_best_ask().unwrap(), Level { quantity: ATOMS, price: 550_000_000 });
    assert_eq!(book.ask_level_at(1).unwrap(), Level { quantity: 2 * ATOMS, price: 6 * ATOMS });
    assert_eq!(book.bid_len(), 2);
    assert_eq!(book.ask_len(), 4);
}

#[test]
fn malformed_level_is_skipped_but_cursor_advances() {
    let mut book = OrderBook::new(10, "btcusdt".to_string());
    book.apply_full_book_from_http_api(&snapshot_100500());

    let ws = diff(
        100400,
        100600,
        100500,
        vec![lvl("not a number", "1"), lvl("4.5", "1")],
        vec![lvl("7", "NaN")],
    );
    assert_eq!(book.apply_depth_book_update_from_websocket(&ws), DiffOutcome::Applied);
    // the parsable bid went in, the malformed bid and ask were dropped
    assert_eq!(book.get_last_update_id(), 100600);
    assert_eq!(book.bid_len(), 4);
    assert_eq!(book.bid_level_at(1).unwrap(), Level { quantity: ATOMS, price: 450_000_000 });
    assert_eq!(book.ask_level_at(1).unwrap(), Level { quantity: ATOMS, price: 7 * ATOMS });
}

#[test]
fn empty_book_has_no_best_mid_or_spread() {
    let book = OrderBook::new(3, "btcusdt".to_string());
    assert_eq!(book.get_best_bid(), None);
    assert_eq!(book.get_best_ask(), None);
    assert_eq!(book.get_mid(), None);
    assert_eq!(book.get_spread(), None);

    let mut one_sided = OrderBook::new(3, "btcusdt".to_string());
    one_sided.apply_full_book_from_http_api(&FullBook {
        last_update_id: 7,
        bids: vec![lvl("5", "1")],
        asks: vec![],
    });
    assert_eq!(one_sided.get_mid(), None);
    assert_eq!(one_sided.get_spread(), None);
}

#[test]
fn mid_rounds_down_in_atoms() {
    let mut book = OrderBook::new(3, "btcusdt".to_string());
    book.apply_full_book_from_http_api(&FullBook {
        last_update_id: 7,
        bids: vec![lvl("0.00000001", "1")],
        asks: vec![lvl("0.00000002", "1")],
    });
    assert_eq!(book.get_mid().unwrap(), 1);
    assert_eq!(book.get_spread().unwrap(), 1);
}

#[test]
fn snapshot_deeper_than_depth_is_truncated_to_best() {
    let mut book = OrderBook::new(2, "btcusdt".to_string());
    book.apply_full_book_from_http_api(&FullBook {
        last_update_id: 7,
        // given out of order: the book still keeps the best prices
        bids: vec![lvl("3", "1"), lvl("5", "1"), lvl("4", "1")],
        asks: vec![lvl("8", "1"), lvl("6", "1"), lvl("7", "1")],
    });
    assert_eq!(book.bid_len(), 2);
    assert_eq!(book.ask_len(), 2);
    assert_eq!(book.bid_level_at(0).unwrap().price, 5 * ATOMS);
    assert_eq!(book.bid_level_at(1).unwrap().price, 4 * ATOMS);
    assert_eq!(book.ask_level_at(0).unwrap().price, 6 * ATOMS);
    assert_eq!(book.ask_level_at(1).unwrap().price, 7 * ATOMS);
}
