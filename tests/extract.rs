use coin_tracker::extract::{coins_from_cells, extract};
use coin_tracker::price::PRICE_SCALE;

fn row(name: &str, symbol: &str, price: &str) -> String {
    format!(
        "<tr><td class=\"coin-name\"><a><span>{}</span> <span>{}</span></a></td><td class=\"price\">{}</td></tr>",
        name, symbol, price
    )
}

fn page(rows: &[String]) -> String {
    format!(
        "<div data-target=\"currencies.contentBox\"><table><tbody>{}</tbody></table></div>",
        rows.concat()
    )
}

#[test]
fn markup_without_listing_gives_no_coins() {
    let coins = extract("<html><body><p>Nothing here</p></body></html>").ok().unwrap();
    assert!(coins.is_empty());
    assert!(extract("").ok().unwrap().is_empty());
}

#[test]
fn rows_are_read_in_page_order() {
    let markup = page(&[row("Bitcoin", "BTC", "$1,234.56"), row(" Ether\n", "\nETH ", " $0.5 ")]);
    let coins = extract(&markup).ok().unwrap();
    assert_eq!(coins.len(), 2);
    assert_eq!(coins[0].name, "Bitcoin");
    assert_eq!(coins[0].symbol, "BTC");
    assert_eq!(coins[0].price, 1_234_560_000_000);
    assert_eq!(coins[1].name, "Ether");
    assert_eq!(coins[1].symbol, "ETH");
    assert_eq!(coins[1].price, PRICE_SCALE / 2);
}

#[test]
fn malformed_row_is_kept_with_blank_fields() {
    let markup = page(&[
        "<tr><th>Coin</th><th>Price</th></tr>".to_string(),
        row("Bitcoin", "BTC", "N/A"),
    ]);
    let coins = extract(&markup).ok().unwrap();
    assert_eq!(coins.len(), 2);
    assert_eq!(coins[0].name, "");
    assert_eq!(coins[0].symbol, "");
    assert_eq!(coins[0].price, 0);
    assert_eq!(coins[1].name, "Bitcoin");
    assert_eq!(coins[1].price, 0);
}

#[test]
fn cells_become_coins() {
    let table = vec![
        vec![Some("  Bitcoin ".to_string()), Some("BTC".to_string()), Some("$2,000".to_string())],
        vec![None, Some("X\nY".to_string()), None],
        vec![Some("Short".to_string())],
    ];
    let coins = coins_from_cells(&table);
    assert_eq!(coins.len(), 3);
    assert_eq!(coins[0].name, "Bitcoin");
    assert_eq!(coins[0].price, 2000 * PRICE_SCALE);
    assert_eq!(coins[1].name, "");
    assert_eq!(coins[1].symbol, "XY");
    assert_eq!(coins[1].price, 0);
    assert_eq!(coins[2].name, "Short");
    assert_eq!(coins[2].symbol, "");
}
