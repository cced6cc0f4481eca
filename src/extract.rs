//! Reading the coin rows out of the listing page.

use vstd::prelude::*;
use crate::coin::{Coin, CoinView, coins_view};
use crate::price::{parse_price, price_of};
use crate::text::{clean_text, cleaned};

verus! {

/// The rows of the listing table.
pub const ROWS_SELECTOR: &'static str = "[data-target=\"currencies.contentBox\"] tr";

/// A row's coin name.
pub const NAME_SELECTOR: &'static str = "td.coin-name a span:first-child";

/// A row's ticker symbol.
pub const SYMBOL_SELECTOR: &'static str = "td.coin-name a span:last-child";

/// A row's price.
pub const PRICE_SELECTOR: &'static str = "td.price";

/// Why a page could not be read.
pub enum ExtractError {
    /// One of the selectors does not compile.
    BadSelector,
}

/// What the markup query gives for `markup`: `None` where a selector does not
/// compile; else, for each element that `rows` selects, in the order of the
/// parsed tree's nodes, and
/// for each selector of `cells`, the text of its first matching descendant.
pub uninterp spec fn selected_cells(
    markup: Seq<char>,
    rows: Seq<char>,
    cells: Seq<Seq<char>>,
) -> Option<Seq<Seq<Option<Seq<char>>>>>;

pub open spec fn cell_view(c: Option<String>) -> Option<Seq<char>> {
    match c {
        Some(s) => Some(s@),
        None => None,
    }
}

pub open spec fn row_view(row: Vec<Option<String>>) -> Seq<Option<Seq<char>>> {
    row@.map_values(|c: Option<String>| cell_view(c))
}

pub open spec fn table_view(t: Vec<Vec<Option<String>>>) -> Seq<Seq<Option<Seq<char>>>> {
    t@.map_values(|row: Vec<Option<String>>| row_view(row))
}

pub open spec fn selectors_view(cells: Seq<&str>) -> Seq<Seq<char>> {
    cells.map_values(|c: &str| c@)
}

/// Relies on scraper: `Html::parse_fragment` reads the markup, `Selector::parse`
/// compiles each selector (the listing's selectors are valid, so the result is
/// `Some`), `Html::select` yields the matching rows in the order of the tree's
/// nodes, and for each cell `ElementRef::select(..).next()` with `ElementRef::text`
/// gives the text of the first matching descendant. Each row holds one entry for
/// each cell selector.
#[verifier::external_body]
fn select_cells(markup: &str, rows: &str, cells: &Vec<&str>) -> (r: Option<
    Vec<Vec<Option<String>>>,
>)
    requires
        rows@ == ROWS_SELECTOR@,
        selectors_view(cells@) == seq![NAME_SELECTOR@, SYMBOL_SELECTOR@, PRICE_SELECTOR@],
    ensures
        r is Some,
        match r {
            Some(t) => selected_cells(markup@, rows@, selectors_view(cells@)) == Some(
                table_view(t),
            ) && forall|i: int| 0 <= i < t@.len() ==> #[trigger] t@[i]@.len() == cells@.len(),
            None => selected_cells(markup@, rows@, selectors_view(cells@)) is None,
        },
{
    let doc = scraper::Html::parse_fragment(markup);
    let rows = scraper::Selector::parse(rows).ok()?;
    let cells = cells.iter().map(|c| scraper::Selector::parse(c).ok()).collect::<Option<Vec<_>>>()?;
    let texts = doc.select(&rows).map(
        |row| cells.iter().map(|c| row.select(c).next().map(|e| e.text().collect())).collect(),
    );
    Some(texts.collect())
}

/// A field's text: its cell cleaned, or empty where the row has no such cell.
pub open spec fn field_of(row: Seq<Option<Seq<char>>>, k: int) -> Seq<char> {
    if 0 <= k < row.len() {
        match row[k] {
            Some(t) => cleaned(t),
            None => Seq::empty(),
        }
    } else {
        Seq::empty()
    }
}

/// The coin that a row's cells (name, symbol, price) stand for.
pub open spec fn coin_of_row(row: Seq<Option<Seq<char>>>) -> CoinView {
    CoinView {
        name: field_of(row, 0),
        price: price_of(field_of(row, 2)),
        symbol: field_of(row, 1),
    }
}

pub open spec fn coins_of_table(t: Seq<Seq<Option<Seq<char>>>>) -> Seq<CoinView> {
    t.map_values(|row: Seq<Option<Seq<char>>>| coin_of_row(row))
}

/// The query of the listing page: the three cells of each row.
pub open spec fn listing_cells(markup: Seq<char>) -> Option<Seq<Seq<Option<Seq<char>>>>> {
    selected_cells(
        markup,
        ROWS_SELECTOR@,
        seq![NAME_SELECTOR@, SYMBOL_SELECTOR@, PRICE_SELECTOR@],
    )
}

/// A field's text from the row's `k`th cell: cleaned, or empty where the cell
/// found nothing.
fn field_text(row: &Vec<Option<String>>, k: usize) -> (r: String)
    ensures
        r@ == field_of(row_view(*row), k as int),
{
    if k < row.len() {
        match &row[k] {
            Some(t) => clean_text(t.as_str()),
            None => String::new(),
        }
    } else {
        String::new()
    }
}

/// Builds one coin for each row of cells (name, symbol, price), in order; a row
/// with missing or malformed cells still gives a coin, with empty or zero fields.
pub fn coins_from_cells(table: &Vec<Vec<Option<String>>>) -> (r: Vec<Coin>)
    ensures
        coins_view(r@) == coins_of_table(table_view(*table)),
{
    let ghost tv = table_view(*table);
    let mut out: Vec<Coin> = Vec::new();
    let mut i: usize = 0;
    while i < table.len()
        invariant
            i <= table@.len(),
            tv == table_view(*table),
            out@.len() == i,
            coins_view(out@) == coins_of_table(tv.take(i as int)),
        decreases table@.len() - i,
    {
        let row = &table[i];
        let name = field_text(row, 0);
        let symbol = field_text(row, 1);
        let price_text = field_text(row, 2);
        let price = parse_price(price_text.as_str());
        let ghost prev = out@;
        out.push(Coin { name, price, symbol });
        proof {
            assert(tv[i as int] == row_view(*row));
            assert forall|j: int| 0 <= j <= i implies #[trigger] coins_view(out@)[j]
                == coins_of_table(tv.take(i as int + 1))[j] by {
                if j < i {
                    assert(out@[j] == prev[j]);
                    assert(coins_view(prev)[j] == coins_of_table(tv.take(i as int))[j]);
                }
            }
            assert(coins_view(out@) =~= coins_of_table(tv.take(i as int + 1)));
        }
        i = i + 1;
    }
    assert(tv.take(table@.len() as int) =~= tv);
    out
}

/// Reads the coins listed in `markup`, in the order of the page; this always
/// succeeds, since the listing's selectors compile. Markup without
/// the listing table gives no coins.
pub fn extract(markup: &str) -> (r: Result<Vec<Coin>, ExtractError>)
    ensures
        r is Ok,
        listing_cells(markup@) is Some,
        coins_view(r->Ok_0@) == coins_of_table(listing_cells(markup@)->0),
        listing_cells(markup@) == Some(Seq::<Seq<Option<Seq<char>>>>::empty()) ==> r->Ok_0@.len()
            == 0,
{
    let cells = vec![NAME_SELECTOR, SYMBOL_SELECTOR, PRICE_SELECTOR];
    proof {
        assert(selectors_view(cells@) =~= seq![NAME_SELECTOR@, SYMBOL_SELECTOR@, PRICE_SELECTOR@]);
    }
    match select_cells(markup, ROWS_SELECTOR, &cells) {
        Some(table) => Ok(coins_from_cells(&table)),
        None => Err(ExtractError::BadSelector),
    }
}

} // verus!
