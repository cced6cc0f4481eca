use coin_tracker::coin::{Coin, List, Timestamp};
use coin_tracker::diff::{diff, ChangeReport};
use coin_tracker::price::PRICE_SCALE;

fn coin(name: &str, symbol: &str, dollars: u64) -> Coin {
    Coin { name: name.to_string(), price: dollars * PRICE_SCALE, symbol: symbol.to_string() }
}

fn snapshot(coins: Vec<Coin>) -> List {
    List::new(coins, Timestamp { secs_since_epoch: 1_700_000_000, nanos_since_epoch: 5 })
}

fn percent(r: &ChangeReport) -> f64 {
    r.change_num as f64 / r.change_den as f64
}

#[test]
fn no_snapshot_gives_no_reports() {
    let coins = vec![coin("Bitcoin", "BTC", 100), coin("Ether", "ETH", 0)];
    assert!(diff(None, &coins).is_empty());
    assert!(diff(None, &Vec::new()).is_empty());
}

#[test]
fn small_move_is_not_reported() {
    let prev = snapshot(vec![coin("Bitcoin", "BTC", 100)]);
    let coins = vec![coin("Bitcoin", "BTC", 103)];
    assert!(diff(Some(&prev), &coins).is_empty());
}

#[test]
fn large_move_is_reported() {
    let prev = snapshot(vec![coin("Bitcoin", "BTC", 100)]);
    let coins = vec![coin("Bitcoin", "BTC", 110)];
    let r = diff(Some(&prev), &coins);
    assert_eq!(r.len(), 1);
    assert_eq!(r[0].name, "Bitcoin");
    assert_eq!(r[0].symbol, "BTC");
    assert_eq!(r[0].old_price, 100 * PRICE_SCALE);
    assert_eq!(r[0].new_price, 110 * PRICE_SCALE);
    assert_eq!(percent(&r[0]), 6.25);
}

#[test]
fn drop_is_reported_with_negative_change() {
    let prev = snapshot(vec![coin("Ether", "ETH", 100)]);
    let coins = vec![coin("Ether", "ETH", 50)];
    let r = diff(Some(&prev), &coins);
    assert_eq!(r.len(), 1);
    assert_eq!(percent(&r[0]), -50.0);
}

#[test]
fn exactly_three_percent_is_reported() {
    // 200 * (new - old) == 3 * (2 * new + old) at old = 194, new = 203.
    let prev = snapshot(vec![coin("Ether", "ETH", 194)]);
    let coins = vec![coin("Ether", "ETH", 203)];
    let r = diff(Some(&prev), &coins);
    assert_eq!(r.len(), 1);
    assert_eq!(percent(&r[0]), 3.0);
    let below = vec![coin("Ether", "ETH", 202)];
    assert!(diff(Some(&prev), &below).is_empty());
}

#[test]
fn zero_prices_are_not_reported() {
    let prev = snapshot(vec![coin("Nothing", "NIL", 0)]);
    let coins = vec![coin("Nothing", "NIL", 0)];
    assert!(diff(Some(&prev), &coins).is_empty());
}

#[test]
fn rise_from_zero_is_reported() {
    let prev = snapshot(vec![coin("Fresh", "NEW", 0)]);
    let coins = vec![coin("Fresh", "NEW", 1)];
    let r = diff(Some(&prev), &coins);
    assert_eq!(r.len(), 1);
    assert_eq!(percent(&r[0]), 100.0);
}

#[test]
fn new_and_removed_coins_are_not_reported() {
    let prev = snapshot(vec![coin("Bitcoin", "BTC", 100), coin("Gone", "OLD", 5)]);
    let coins = vec![coin("Listed", "NEW", 7), coin("Bitcoin", "BTC", 100)];
    assert!(diff(Some(&prev), &coins).is_empty());
}

#[test]
fn reports_keep_listing_order_and_first_match() {
    let prev = snapshot(vec![
        coin("Bitcoin", "BTC", 100),
        coin("Ether", "ETH", 100),
        coin("Ether copy", "ETH", 50),
    ]);
    let coins = vec![coin("Ether", "ETH", 200), coin("Tether", "USDT", 1), coin("Bitcoin", "BTC", 10)];
    let r = diff(Some(&prev), &coins);
    assert_eq!(r.len(), 2);
    assert_eq!(r[0].symbol, "ETH");
    assert_eq!(r[0].old_price, 100 * PRICE_SCALE);
    assert_eq!(percent(&r[0]), 40.0);
    assert_eq!(r[1].symbol, "BTC");
    assert_eq!(r[1].change_num, -200 * 90 * PRICE_SCALE as i128);
    assert_eq!(r[1].change_den, 120 * PRICE_SCALE as u128);
}

#[test]
fn first_run_reports_nothing() {
    let coins = vec![coin("Bitcoin", "BTC", 100)];
    let reports = diff(None, &coins);
    assert!(reports.is_empty());
    let fresh = snapshot(coins);
    assert_eq!(fresh.coins.len(), 1);
    assert_eq!(fresh.date.secs_since_epoch, 1_700_000_000);
    assert_eq!(fresh.date.nanos_since_epoch, 5);
}

#[test]
fn unmatched_old_coins_do_not_change_reports() {
    let coins = vec![coin("Bitcoin", "BTC", 120), coin("Ether", "ETH", 100)];
    let lean = snapshot(vec![coin("Bitcoin", "BTC", 100), coin("Ether", "ETH", 100)]);
    let padded = snapshot(vec![
        coin("Gone", "OLD", 1),
        coin("Bitcoin", "BTC", 100),
        coin("Also gone", "DEL", 0),
        coin("Ether", "ETH", 100),
    ]);
    let a = diff(Some(&lean), &coins);
    let b = diff(Some(&padded), &coins);
    assert_eq!(a.len(), 1);
    assert_eq!(b.len(), 1);
    assert_eq!(a[0].symbol, b[0].symbol);
    assert_eq!(a[0].change_num, b[0].change_num);
    assert_eq!(a[0].change_den, b[0].change_den);
}
