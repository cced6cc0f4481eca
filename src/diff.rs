//! Comparison of a new listing against the previous snapshot.

use vstd::prelude::*;
use crate::coin::{Coin, CoinView, List, coins_view};

verus! {

/// A report is made where the price moved by at least this many percent.
pub const THRESHOLD_PERCENT: u64 = 3;

/// A coin whose price moved past the threshold. The change in percent is the
/// fraction `change_num / change_den`.
pub struct ChangeReport {
    pub name: String,
    pub symbol: String,
    pub old_price: u64,
    pub new_price: u64,
    pub change_num: i128,
    pub change_den: u128,
}

pub struct ChangeView {
    pub name: Seq<char>,
    pub symbol: Seq<char>,
    pub old_price: u64,
    pub new_price: u64,
    pub change_num: int,
    pub change_den: int,
}

impl View for ChangeReport {
    type V = ChangeView;

    open spec fn view(&self) -> ChangeView {
        ChangeView {
            name: self.name@,
            symbol: self.symbol@,
            old_price: self.old_price,
            new_price: self.new_price,
            change_num: self.change_num as int,
            change_den: self.change_den as int,
        }
    }
}

pub open spec fn reports_view(r: Seq<ChangeReport>) -> Seq<ChangeView> {
    r.map_values(|c: ChangeReport| c@)
}

pub open spec fn abs(x: int) -> int {
    if x < 0 {
        -x
    } else {
        x
    }
}

/// The first coin of `coins` with ticker `symbol`.
pub open spec fn first_with_symbol(coins: Seq<CoinView>, symbol: Seq<char>) -> Option<CoinView>
    decreases coins.len(),
{
    if coins.len() == 0 {
        None
    } else if coins[0].symbol == symbol {
        Some(coins[0])
    } else {
        first_with_symbol(coins.drop_first(), symbol)
    }
}

/// The change `100 * (new - prev) / (new + prev / 2)` is `change_num / change_den`,
/// with both terms doubled so that they are whole numbers.
pub open spec fn change_num(prev: u64, new: u64) -> int {
    200 * (new - prev)
}

pub open spec fn change_den(prev: u64, new: u64) -> int {
    2 * new + prev
}

/// The move is reported where the change is defined (the denominator is not
/// zero; where both prices are zero it is treated as no change) and its size
/// is at least `THRESHOLD_PERCENT`.
pub open spec fn crosses_threshold(prev: u64, new: u64) -> bool {
    change_den(prev, new) > 0 && abs(change_num(prev, new)) >= THRESHOLD_PERCENT * change_den(
        prev,
        new,
    )
}

pub open spec fn report_of(prev: CoinView, new: CoinView) -> ChangeView {
    ChangeView {
        name: new.name,
        symbol: new.symbol,
        old_price: prev.price,
        new_price: new.price,
        change_num: change_num(prev.price, new.price),
        change_den: change_den(prev.price, new.price),
    }
}

/// The reports for `new` against `prev`, in the order of `new`: one for each new
/// coin that has a match by symbol in `prev` and whose price crossed the threshold.
pub open spec fn reports(prev: Seq<CoinView>, new: Seq<CoinView>) -> Seq<ChangeView>
    decreases new.len(),
{
    if new.len() == 0 {
        Seq::empty()
    } else {
        let earlier = reports(prev, new.drop_last());
        let c = new.last();
        match first_with_symbol(prev, c.symbol) {
            Some(o) => if crosses_threshold(o.price, c.price) {
                earlier.push(report_of(o, c))
            } else {
                earlier
            },
            None => earlier,
        }
    }
}

/// With no previous snapshot there is nothing to report.
pub open spec fn diff_spec(prev: Option<Seq<CoinView>>, new: Seq<CoinView>) -> Seq<ChangeView> {
    match prev {
        Some(o) => reports(o, new),
        None => Seq::empty(),
    }
}

pub open spec fn snapshot_coins(prev: Option<&List>) -> Option<Seq<CoinView>> {
    match prev {
        Some(l) => Some(coins_view(l.coins@)),
        None => None,
    }
}

proof fn lemma_first_with_symbol_found(coins: Seq<CoinView>, symbol: Seq<char>)
    requires
        first_with_symbol(coins, symbol) is Some,
    ensures
        exists|i: int|
            0 <= i < coins.len() && coins[i] == first_with_symbol(coins, symbol)->0
                && #[trigger] coins[i].symbol == symbol,
    decreases coins.len(),
{
    if coins[0].symbol != symbol {
        lemma_first_with_symbol_found(coins.drop_first(), symbol);
        let i = choose|i: int|
            0 <= i < coins.drop_first().len() && coins.drop_first()[i] == first_with_symbol(
                coins.drop_first(),
                symbol,
            )->0 && #[trigger] coins.drop_first()[i].symbol == symbol;
        assert(coins[i + 1] == coins.drop_first()[i]);
    }
}

/// `rep` is the report of a coin of `new` against a coin of `prev` with the same symbol.
pub open spec fn pairs_by_symbol(prev: Seq<CoinView>, new: Seq<CoinView>, rep: ChangeView) -> bool {
    exists|i: int, j: int|
        0 <= i < prev.len() && 0 <= j < new.len() && prev[i].symbol == new[j].symbol && rep
            == #[trigger] report_of(prev[i], new[j])
}

/// Every report pairs a coin of the new listing with a coin of the previous
/// snapshot that has the same symbol: a coin with no match in the snapshot is
/// never reported, and a coin of the snapshot is only read through the symbol of
/// a new coin.
pub proof fn lemma_reports_match_by_symbol(prev: Seq<CoinView>, new: Seq<CoinView>)
    ensures
        forall|k: int|
            0 <= k < diff_spec(Some(prev), new).len() ==> pairs_by_symbol(
                prev,
                new,
                #[trigger] diff_spec(Some(prev), new)[k],
            ),
    decreases new.len(),
{
    if new.len() > 0 {
        let earlier = new.drop_last();
        let re = diff_spec(Some(prev), earlier);
        lemma_reports_match_by_symbol(prev, earlier);
        let c = new.last();
        assert forall|k: int| 0 <= k < diff_spec(Some(prev), new).len() implies pairs_by_symbol(
            prev,
            new,
            #[trigger] diff_spec(Some(prev), new)[k],
        ) by {
            let rk = diff_spec(Some(prev), new)[k];
            if k < re.len() {
                assert(rk == re[k]);
                assert(pairs_by_symbol(prev, earlier, re[k]));
                let (i, j) = choose|i: int, j: int|
                    0 <= i < prev.len() && 0 <= j < earlier.len() && prev[i].symbol
                        == earlier[j].symbol && re[k] == #[trigger] report_of(prev[i], earlier[j]);
                assert(new[j] == earlier[j]);
                assert(rk == report_of(prev[i], new[j]));
            } else {
                lemma_first_with_symbol_found(prev, c.symbol);
                let i = choose|i: int|
                    0 <= i < prev.len() && prev[i] == first_with_symbol(prev, c.symbol)->0
                        && #[trigger] prev[i].symbol == c.symbol;
                let j = new.len() - 1;
                assert(rk == report_of(prev[i], new[j]));
            }
        }
    }
}

proof fn lemma_first_with_symbol_skips(prev: Seq<CoinView>, k: int, c: CoinView, symbol: Seq<char>)
    requires
        0 <= k <= prev.len(),
        c.symbol != symbol,
    ensures
        first_with_symbol(prev.insert(k, c), symbol) == first_with_symbol(prev, symbol),
    decreases prev.len(),
{
    let p2 = prev.insert(k, c);
    if k == 0 {
        assert(p2.drop_first() =~= prev);
    } else {
        lemma_first_with_symbol_skips(prev.drop_first(), k - 1, c, symbol);
        assert(p2.drop_first() =~= prev.drop_first().insert(k - 1, c));
        assert(p2[0] == prev[0]);
    }
}

/// Coins of the previous snapshot whose symbol no new coin has are never read:
/// adding one, anywhere, leaves the reports as they were (and so does removing
/// one, read the other way round).
pub proof fn lemma_unmatched_old_coin_ignored(
    prev: Seq<CoinView>,
    k: int,
    c: CoinView,
    new: Seq<CoinView>,
)
    requires
        0 <= k <= prev.len(),
        forall|j: int| 0 <= j < new.len() ==> (#[trigger] new[j]).symbol != c.symbol,
    ensures
        diff_spec(Some(prev.insert(k, c)), new) == diff_spec(Some(prev), new),
    decreases new.len(),
{
    if new.len() > 0 {
        let earlier = new.drop_last();
        assert forall|j: int| 0 <= j < earlier.len() implies (#[trigger] earlier[j]).symbol
            != c.symbol by {
            assert(earlier[j] == new[j]);
        }
        lemma_unmatched_old_coin_ignored(prev, k, c, earlier);
        assert(new[new.len() - 1].symbol != c.symbol);
        lemma_first_with_symbol_skips(prev, k, c, new.last().symbol);
    }
}

/// Index of the first coin with ticker `symbol`.
fn find_by_symbol(coins: &Vec<Coin>, symbol: &String) -> (r: Option<usize>)
    ensures
        match r {
            Some(i) => i < coins@.len() && first_with_symbol(coins_view(coins@), symbol@) == Some(
                coins@[i as int]@,
            ),
            None => first_with_symbol(coins_view(coins@), symbol@) is None,
        },
{
    let ghost v = coins_view(coins@);
    let mut i: usize = 0;
    assert(v.skip(0) =~= v);
    while i < coins.len()
        invariant
            i <= coins@.len(),
            v == coins_view(coins@),
            first_with_symbol(v, symbol@) == first_with_symbol(v.skip(i as int), symbol@),
        decreases coins@.len() - i,
    {
        if coins[i].symbol == *symbol {
            return Some(i);
        }
        assert(v.skip(i as int).drop_first() =~= v.skip(i as int + 1));
        i = i + 1;
    }
    None
}

/// Compares two prices; the report fields where the move crosses the threshold.
fn compare_prices(prev: u64, new: u64) -> (r: Option<(i128, u128)>)
    ensures
        match r {
            Some((n, d)) => crosses_threshold(prev, new) && n == change_num(prev, new) && d
                == change_den(prev, new),
            None => !crosses_threshold(prev, new),
        },
{
    let den: u128 = 2 * (new as u128) + prev as u128;
    let size: u128 = if new >= prev {
        200 * ((new - prev) as u128)
    } else {
        200 * ((prev - new) as u128)
    };
    assert(THRESHOLD_PERCENT * den <= 9 * (u64::MAX as int)) by (nonlinear_arith)
        requires
            den <= 3 * (u64::MAX as int),
            THRESHOLD_PERCENT == 3,
    ;
    if den > 0 && size >= (THRESHOLD_PERCENT as u128) * den {
        let num: i128 = 200 * (new as i128 - prev as i128);
        Some((num, den))
    } else {
        None
    }
}

/// Reports the coins of `coins` whose price moved past the threshold since `prev`.
pub fn diff(prev: Option<&List>, coins: &Vec<Coin>) -> (r: Vec<ChangeReport>)
    ensures
        reports_view(r@) == diff_spec(snapshot_coins(prev), coins_view(coins@)),
        prev is None ==> r@.len() == 0,
{
    let mut out: Vec<ChangeReport> = Vec::new();
    match prev {
        None => {
            assert(reports_view(out@) =~= Seq::<ChangeView>::empty());
            out
        },
        Some(list) => {
            let ghost ov = coins_view(list.coins@);
            let ghost nv = coins_view(coins@);
            let mut i: usize = 0;
            while i < coins.len()
                invariant
                    i <= coins@.len(),
                    ov == coins_view(list.coins@),
                    nv == coins_view(coins@),
                    reports_view(out@) == reports(ov, nv.take(i as int)),
                decreases coins@.len() - i,
            {
                let c = &coins[i];
                proof {
                    assert(nv.take(i as int + 1).drop_last() =~= nv.take(i as int));
                    assert(nv.take(i as int + 1).last() == c@);
                }
                match find_by_symbol(&list.coins, &c.symbol) {
                    Some(k) => {
                        let o = &list.coins[k];
                        match compare_prices(o.price, c.price) {
                            Some((n, d)) => {
                                let rep = ChangeReport {
                                    name: c.name.clone(),
                                    symbol: c.symbol.clone(),
                                    old_price: o.price,
                                    new_price: c.price,
                                    change_num: n,
                                    change_den: d,
                                };
                                out.push(rep);
                                assert(reports_view(out@) =~= reports(ov, nv.take(i as int)).push(
                                    report_of(o@, c@),
                                ));
                            },
                            None => {},
                        }
                    },
                    None => {},
                }
                i = i + 1;
            }
            assert(nv.take(coins@.len() as int) =~= nv);
            out
        },
    }
}

} // verus!
