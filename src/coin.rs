//! Coin records and the snapshots that hold them.

use vstd::prelude::*;

verus! {

/// One row of the listing: a coin's name, its ticker symbol and its price in
/// price units (see `PRICE_SCALE`).
pub struct Coin {
    pub name: String,
    pub price: u64,
    pub symbol: String,
}

pub struct CoinView {
    pub name: Seq<char>,
    pub price: u64,
    pub symbol: Seq<char>,
}

impl View for Coin {
    type V = CoinView;

    open spec fn view(&self) -> CoinView {
        CoinView { name: self.name@, price: self.price, symbol: self.symbol@ }
    }
}

pub open spec fn coins_view(coins: Seq<Coin>) -> Seq<CoinView> {
    coins.map_values(|c: Coin| c@)
}

/// A moment as a duration since the Unix epoch.
pub struct Timestamp {
    pub secs_since_epoch: u64,
    pub nanos_since_epoch: u32,
}

/// A snapshot: the coins of one run, in the order of the listing, and when they
/// were captured.
pub struct List {
    pub date: Timestamp,
    pub coins: Vec<Coin>,
}

impl List {
    pub fn new(coins: Vec<Coin>, date: Timestamp) -> (r: List)
        ensures
            r.coins@ == coins@,
            r.date == date,
    {
        List { date, coins }
    }
}

} // verus!
