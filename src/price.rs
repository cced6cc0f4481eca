//! Prices as exact fixed-point amounts, and the numeral grammar they are read from.

use vstd::prelude::*;
use crate::text::{lemma_removed_absent, remove_char, removed};

verus! {

/// Number of price units in one currency unit: a price is held in billionths.
pub const PRICE_SCALE: u64 = 1_000_000_000;

/// Number of fractional digits that a price keeps.
pub const PRICE_DECIMALS: usize = 9;

pub open spec fn is_digit(c: char) -> bool {
    '0' <= c && c <= '9'
}

pub open spec fn digit_value(c: char) -> nat {
    (c as u32 - '0' as u32) as nat
}

pub open spec fn all_digits(s: Seq<char>) -> bool {
    forall|i: int| 0 <= i < s.len() ==> is_digit(#[trigger] s[i])
}

/// The number that a string of decimal digits denotes.
pub open spec fn digits_value(s: Seq<char>) -> nat
    decreases s.len(),
{
    if s.len() == 0 {
        0
    } else {
        digits_value(s.drop_last()) * 10 + digit_value(s.last())
    }
}

/// `s` reads as `whole` or `whole.fraction`, split at `p`: digits before `p`, then
/// nothing or a point and digits, with at least one digit in all.
pub open spec fn numeral_split(s: Seq<char>, p: int) -> bool {
    &&& 0 <= p <= s.len()
    &&& all_digits(s.take(p))
    &&& p == s.len() || (s[p] == '.' && all_digits(s.skip(p + 1)))
    &&& p > 0 || s.len() > p + 1
}

pub open spec fn is_numeral(s: Seq<char>) -> bool {
    exists|p: int| numeral_split(s, p)
}

/// Where a numeral's whole part ends.
pub open spec fn numeral_point(s: Seq<char>) -> int {
    choose|p: int| numeral_split(s, p)
}

/// The fractional part of a numeral, empty where it has no point.
pub open spec fn numeral_fraction(s: Seq<char>) -> Seq<char> {
    let p = numeral_point(s);
    if p < s.len() {
        s.skip(p + 1)
    } else {
        Seq::empty()
    }
}

pub open spec fn is_exponent_mark(c: char) -> bool {
    c == 'e' || c == 'E'
}

/// Where a float's mantissa starts: after a leading `+`, if there is one.
pub open spec fn mantissa_start(s: Seq<char>) -> int {
    if s.len() > 0 && s[0] == '+' {
        1
    } else {
        0
    }
}

/// An exponent: an optional sign, then at least one digit.
pub open spec fn is_exponent(t: Seq<char>) -> bool {
    if t.len() > 0 && (t[0] == '+' || t[0] == '-') {
        t.len() > 1 && all_digits(t.drop_first())
    } else {
        t.len() > 0 && all_digits(t)
    }
}

pub open spec fn exponent_value(t: Seq<char>) -> int {
    if t.len() > 0 && t[0] == '-' {
        -digits_value(t.drop_first())
    } else if t.len() > 0 && t[0] == '+' {
        digits_value(t.drop_first()) as int
    } else {
        digits_value(t) as int
    }
}

/// `s` reads as a non-negative float with its mantissa ending at `q`: an optional
/// `+`, a numeral, then nothing or `e` or `E` and an exponent.
pub open spec fn float_split(s: Seq<char>, q: int) -> bool {
    &&& mantissa_start(s) <= q <= s.len()
    &&& is_numeral(s.subrange(mantissa_start(s), q))
    &&& q == s.len() || (is_exponent_mark(s[q]) && is_exponent(s.skip(q + 1)))
}

pub open spec fn is_float(s: Seq<char>) -> bool {
    exists|q: int| float_split(s, q)
}

pub open spec fn mantissa_end(s: Seq<char>) -> int {
    choose|q: int| float_split(s, q)
}

pub open spec fn mantissa(s: Seq<char>) -> Seq<char> {
    s.subrange(mantissa_start(s), mantissa_end(s))
}

/// The float's exponent, zero where it has none.
pub open spec fn exponent(s: Seq<char>) -> int {
    if mantissa_end(s) < s.len() {
        exponent_value(s.skip(mantissa_end(s) + 1))
    } else {
        0
    }
}

/// The digits of a numeral, without its point.
pub open spec fn numeral_digits(m: Seq<char>) -> Seq<char> {
    m.take(numeral_point(m)) + numeral_fraction(m)
}

/// The first `p` digits of `d`, padded with zeros: where the point stands after
/// `p` digits, the whole part of the number.
pub open spec fn digits_before_point(d: Seq<char>, p: int) -> Seq<char> {
    if p <= 0 {
        Seq::empty()
    } else {
        Seq::new(p as nat, |i: int| if i < d.len() { d[i] } else { '0' })
    }
}

/// A float's amount in price units, truncated: the whole part of the number
/// once its point is moved right by the exponent and by `PRICE_DECIMALS`.
pub open spec fn float_units(s: Seq<char>) -> nat {
    let m = mantissa(s);
    digits_value(
        digits_before_point(
            numeral_digits(m),
            numeral_point(m) + exponent(s) + PRICE_DECIMALS as int,
        ),
    )
}

/// What a cleaned price reads as: its amount, or zero where it is no
/// non-negative float or its amount does not fit a `u64`.
pub open spec fn units_of(s: Seq<char>) -> u64 {
    if is_float(s) && float_units(s) <= u64::MAX {
        float_units(s) as u64
    } else {
        0
    }
}

/// Price text with the currency sign and the thousands separators taken out.
pub open spec fn without_price_marks(s: Seq<char>) -> Seq<char> {
    removed(removed(s, '$'), ',')
}

/// The price that a price text reads as.
pub open spec fn price_of(s: Seq<char>) -> u64 {
    units_of(without_price_marks(s))
}

proof fn lemma_digits_value_prefix(s: Seq<char>, i: int)
    requires
        0 <= i <= s.len(),
    ensures
        digits_value(s.take(i)) <= digits_value(s),
    decreases s.len(),
{
    if i < s.len() {
        lemma_digits_value_prefix(s.drop_last(), i);
        assert(s.drop_last().take(i) =~= s.take(i));
    } else {
        assert(s.take(i) =~= s);
    }
}

proof fn lemma_digits_value_step(s: Seq<char>, i: int)
    requires
        0 <= i < s.len(),
    ensures
        digits_value(s.take(i + 1)) == digits_value(s.take(i)) * 10 + digit_value(s[i]),
{
    assert(s.take(i + 1).drop_last() =~= s.take(i));
}

proof fn lemma_numeral_point_unique(s: Seq<char>, p: int)
    requires
        numeral_split(s, p),
    ensures
        numeral_point(s) == p,
{
    let q = numeral_point(s);
    assert(numeral_split(s, q));
    if q < p {
        assert(s.take(p)[q] == s[q]);
    } else if p < q {
        assert(s.take(q)[p] == s[p]);
    }
}

/// Where the whole part of the numeral `s` ends, or `None` where `s` is no numeral.
fn numeral_point_of(s: &str) -> (r: Option<usize>)
    ensures
        r is Some <==> is_numeral(s@),
        r is Some ==> r->0 == numeral_point(s@),
{
    let n = s.unicode_len();
    let mut p: usize = 0;
    while p < n && '0' <= s.get_char(p) && s.get_char(p) <= '9'
        invariant
            n == s@.len(),
            p <= n,
            all_digits(s@.take(p as int)),
        decreases n - p,
    {
        assert(s@.take(p as int + 1) =~= s@.take(p as int).push(s@[p as int]));
        p = p + 1;
    }
    if p < n && s.get_char(p) != '.' {
        proof {
            assert forall|q: int| !numeral_split(s@, q) by {
                if numeral_split(s@, q) {
                    if q > p {
                        assert(s@.take(q)[p as int] == s@[p as int]);
                    } else if q < p {
                        assert(s@.take(p as int)[q] == s@[q]);
                    }
                }
            }
        }
        return None;
    }
    let mut k: usize = if p < n { p + 1 } else { n };
    while k < n
        invariant
            n == s@.len(),
            p <= k <= n,
            p < n ==> p < k && s@[p as int] == '.',
            p == n ==> k == n,
            all_digits(s@.take(p as int)),
            forall|j: int| p < j < k ==> is_digit(#[trigger] s@[j]),
        decreases n - k,
    {
        let c = s.get_char(k);
        if !('0' <= c && c <= '9') {
            proof {
                assert forall|q: int| !numeral_split(s@, q) by {
                    if numeral_split(s@, q) {
                        if q > p {
                            assert(s@.take(q)[p as int] == s@[p as int]);
                        } else if q < p {
                            assert(s@.take(p as int)[q] == s@[q]);
                        } else {
                            assert(s@.skip(q + 1)[k - q - 1] == s@[k as int]);
                        }
                    }
                }
            }
            return None;
        }
        k = k + 1;
    }
    if p == 0 && n <= 1 {
        proof {
            assert forall|q: int| !numeral_split(s@, q) by {
                if numeral_split(s@, q) && q > 0 {
                    assert(s@.take(q)[0] == s@[0]);
                }
            }
        }
        return None;
    }
    proof {
        if p < n {
            assert(all_digits(s@.skip(p as int + 1))) by {
                assert forall|j: int| 0 <= j < s@.skip(p as int + 1).len() implies is_digit(
                    #[trigger] s@.skip(p as int + 1)[j],
                ) by {
                    assert(s@.skip(p as int + 1)[j] == s@[p + 1 + j]);
                }
            }
        }
        assert(numeral_split(s@, p as int));
        lemma_numeral_point_unique(s@, p as int);
    }
    Some(p)
}

/// The digits of the numeral `m`, whose whole part ends at `p`, without its point.
fn digits_of_numeral(m: &str, p: usize) -> (r: Vec<char>)
    requires
        is_numeral(m@),
        p == numeral_point(m@),
    ensures
        r@ == numeral_digits(m@),
{
    let n = m.unicode_len();
    let ghost nm = m@;
    proof {
        assert(numeral_split(nm, numeral_point(nm)));
    }
    let mut out: Vec<char> = Vec::new();
    let mut i: usize = 0;
    while i < n
        invariant
            n == nm.len(),
            nm == m@,
            p <= n,
            i <= n,
            out@ == (if i <= p {
                nm.take(i as int)
            } else {
                nm.take(p as int) + nm.subrange(p + 1, i as int)
            }),
        decreases n - i,
    {
        let c = m.get_char(i);
        if i != p {
            out.push(c);
        }
        proof {
            if i < p {
                assert(nm.take(i as int + 1) =~= nm.take(i as int).push(c));
            } else if i == p {
                assert(nm.subrange(p + 1, i as int + 1) =~= Seq::<char>::empty());
                assert(nm.take(p as int) + Seq::<char>::empty() =~= nm.take(p as int));
            } else {
                assert(nm.subrange(p + 1, i as int + 1) =~= nm.subrange(p + 1, i as int).push(c));
                assert(nm.take(p as int) + nm.subrange(p + 1, i as int + 1) =~= (nm.take(p as int)
                    + nm.subrange(p + 1, i as int)).push(c));
            }
        }
        i = i + 1;
    }
    proof {
        if p < n {
            assert(nm.subrange(p + 1, n as int) =~= nm.skip(p + 1));
        } else {
            assert(nm.take(n as int) + Seq::<char>::empty() =~= nm.take(p as int));
        }
    }
    out
}

/// Reads an exponent; a magnitude above `cap` is only known to be above it.
fn exponent_of(t: &str, cap: u128) -> (r: Option<i128>)
    requires
        cap <= u64::MAX as u128 + 100,
    ensures
        r is Some <==> is_exponent(t@),
        r is Some && -cap <= exponent_value(t@) <= cap ==> r->0 == exponent_value(t@),
        r is Some && exponent_value(t@) > cap ==> r->0 > cap,
        r is Some && exponent_value(t@) < -cap ==> r->0 < -cap,
{
    let n = t.unicode_len();
    if n == 0 {
        return None;
    }
    let first = t.get_char(0);
    let signed = first == '+' || first == '-';
    let start: usize = if signed { 1 } else { 0 };
    if start >= n {
        return None;
    }
    let ghost ds = t@.skip(start as int);
    proof {
        if !signed {
            assert(ds =~= t@);
        } else {
            assert(ds =~= t@.drop_first());
        }
    }
    let mut mag: u128 = 0;
    let mut i: usize = start;
    while i < n
        invariant
            n == t@.len(),
            start <= i <= n,
            ds == t@.skip(start as int),
            first == t@[0],
            signed == (first == '+' || first == '-'),
            start == (if signed { 1usize } else { 0usize }),
            all_digits(ds.take(i - start)),
            cap <= u64::MAX as u128 + 100,
            mag <= cap + 1,
            mag <= cap ==> mag == digits_value(ds.take(i - start)),
            mag > cap ==> digits_value(ds.take(i - start)) > cap,
        decreases n - i,
    {
        let c = t.get_char(i);
        if !('0' <= c && c <= '9') {
            proof {
                assert(ds[i - start] == c);
                assert(!all_digits(ds));
                if signed {
                    assert(ds =~= t@.drop_first());
                } else {
                    assert(ds =~= t@);
                }
            }
            return None;
        }
        proof {
            assert(ds[i - start] == c);
            lemma_digits_value_step(ds, i - start);
            assert(ds.take(i - start + 1) =~= ds.take(i - start).push(c));
        }
        if mag <= cap {
            let next = mag * 10 + (c as u32 - '0' as u32) as u128;
            mag = if next > cap { cap + 1 } else { next };
        }
        i = i + 1;
    }
    proof {
        assert(ds.take(n - start) =~= ds);
    }
    if first == '-' {
        Some(-(mag as i128))
    } else {
        Some(mag as i128)
    }
}

proof fn lemma_all_zeros(s: Seq<char>)
    requires
        forall|i: int| 0 <= i < s.len() ==> s[i] == '0',
    ensures
        digits_value(s) == 0,
    decreases s.len(),
{
    if s.len() > 0 {
        lemma_all_zeros(s.drop_last());
    }
}

proof fn lemma_digits_value_scaled_prefix(s: Seq<char>, i: int)
    requires
        0 <= i <= s.len(),
    ensures
        digits_value(s) >= digits_value(s.take(i)) * pow10((s.len() - i) as nat),
    decreases s.len(),
{
    if i < s.len() {
        let s0 = s.drop_last();
        lemma_digits_value_scaled_prefix(s0, i);
        assert(s0.take(i) =~= s.take(i));
        let a = digits_value(s.take(i));
        let k = (s0.len() - i) as nat;
        let v0 = digits_value(s0);
        let pk = pow10(k);
        assert(pow10(k + 1) == pk * 10);
        assert(digits_value(s) >= v0 * 10);
        assert(v0 >= a * pk);
        assert(v0 * 10 >= a * (pk * 10)) by (nonlinear_arith)
            requires
                v0 >= a * pk,
        ;
        assert((s.len() - i) as nat == k + 1);
        assert(a * pow10(k + 1) == a * (pk * 10));
        assert(digits_value(s) >= a * pow10(k + 1));
        assert(digits_value(s) >= digits_value(s.take(i)) * pow10((s.len() - i) as nat));
    } else {
        assert(s.take(i) =~= s);
        assert((s.len() - i) as nat == 0);
        assert(pow10(0) == 1);
        let v = digits_value(s);
        assert(v * pow10(0) == v);
        assert(digits_value(s) >= digits_value(s.take(i)) * pow10((s.len() - i) as nat));
    }
}

/// With the point moved far enough right, a mantissa is zero or too large.
proof fn lemma_far_point(d: Seq<char>, p: int)
    requires
        all_digits(d),
        p >= d.len() + 40,
    ensures
        digits_value(digits_before_point(d, p)) == 0 || digits_value(digits_before_point(d, p))
            > u64::MAX,
{
    let w = digits_before_point(d, p);
    if forall|i: int| 0 <= i < d.len() ==> d[i] == '0' {
        lemma_all_zeros(w);
    } else {
        let t = choose|i: int| 0 <= i < d.len() && d[i] != '0';
        assert(is_digit(d[t]));
        lemma_digits_value_step(w, t);
        assert(digits_value(w.take(t + 1)) >= 1);
        lemma_digits_value_scaled_prefix(w, t + 1);
        lemma_pow10_monotone(40, (w.len() - t - 1) as nat);
        reveal_with_fuel(pow10, 41);
        assert(pow10(40) > u64::MAX);
        assert(digits_value(w.take(t + 1)) * pow10((w.len() - t - 1) as nat) >= pow10(
            (w.len() - t - 1) as nat,
        )) by (nonlinear_arith)
            requires
                digits_value(w.take(t + 1)) >= 1,
        ;
    }
}

proof fn lemma_numeral_chars(m: Seq<char>, i: int)
    requires
        is_numeral(m),
        0 <= i < m.len(),
    ensures
        is_digit(m[i]) || m[i] == '.',
{
    let p = choose|p: int| numeral_split(m, p);
    if i < p {
        assert(m.take(p)[i] == m[i]);
    } else if i > p {
        assert(m.skip(p + 1)[i - p - 1] == m[i]);
    }
}

/// Reads a non-negative float into price units: an optional `+`, digits with an
/// optional point, and an optional exponent. Digits below `PRICE_DECIMALS`
/// places are cut; text of another form (a sign `-`, `inf`, `NaN`) and amounts
/// too large for a `u64` read as zero.
pub fn numeral_to_units(s: &str) -> (r: u64)
    ensures
        r == units_of(s@),
{
    let n = s.unicode_len();
    let b: usize = if n > 0 && s.get_char(0) == '+' { 1 } else { 0 };
    let mut q: usize = b;
    while q < n && s.get_char(q) != 'e' && s.get_char(q) != 'E'
        invariant
            n == s@.len(),
            b == mantissa_start(s@),
            b <= q <= n,
            forall|i: int| b <= i < q ==> !is_exponent_mark(#[trigger] s@[i]),
        decreases n - q,
    {
        q = q + 1;
    }
    // Any split of a float ends its mantissa at the first exponent mark.
    proof {
        assert forall|q2: int| float_split(s@, q2) implies q2 == q by {
            if q2 < q {
                assert(!is_exponent_mark(s@[q2]));
            } else if q2 > q {
                lemma_numeral_chars(s@.subrange(b as int, q2), q - b);
                assert(s@.subrange(b as int, q2)[q - b] == s@[q as int]);
            }
        }
    }
    let m = s.substring_char(b, q);
    let p = match numeral_point_of(m) {
        Some(p) => p,
        None => {
            return 0;
        },
    };
    let cap: u128 = n as u128 + 50;
    let e: i128 = if q < n {
        let t = s.substring_char(q + 1, n);
        match exponent_of(t, cap) {
            Some(e) => e,
            None => {
                return 0;
            },
        }
    } else {
        0
    };
    proof {
        assert(float_split(s@, q as int));
        assert(mantissa_end(s@) == q);
        assert(mantissa(s@) == m@);
    }
    let ghost d = numeral_digits(m@);
    let ghost pt = numeral_point(m@) + exponent(s@) + PRICE_DECIMALS as int;
    proof {
        assert(numeral_split(m@, p as int));
        assert(d.len() <= m@.len());
        assert(all_digits(d)) by {
            assert forall|j: int| 0 <= j < d.len() implies is_digit(#[trigger] d[j]) by {
                if j < p {
                    assert(d[j] == m@.take(p as int)[j]);
                } else {
                    assert(d[j] == m@.skip(p + 1)[j - p]);
                }
            }
        }
    }
    if e > cap as i128 {
        proof {
            lemma_far_point(d, pt);
        }
        return 0;
    }
    let point: i128 = p as i128 + e + PRICE_DECIMALS as i128;
    if point <= 0 {
        proof {
            assert(digits_before_point(d, pt) =~= Seq::<char>::empty());
        }
        return 0;
    }
    assert(point == pt);
    let digits = digits_of_numeral(m, p);
    match shifted_value(&digits, point) {
        Some(v) => v,
        None => 0,
    }
}

/// The whole part of the number whose digits are `digits` with the point after
/// `point` of them, where it fits a `u64`.
fn shifted_value(digits: &Vec<char>, point: i128) -> (r: Option<u64>)
    requires
        all_digits(digits@),
        0 < point,
    ensures
        r is Some <==> digits_value(digits_before_point(digits@, point as int)) <= u64::MAX,
        r is Some ==> r->0 == digits_value(digits_before_point(digits@, point as int)),
{
    let ghost w = digits_before_point(digits@, point as int);
    let mut acc: u128 = 0;
    let mut i: u128 = 0;
    while (i as i128) < point
        invariant
            0 < point,
            i <= point,
            w == digits_before_point(digits@, point as int),
            all_digits(digits@),
            acc == digits_value(w.take(i as int)),
            acc <= u64::MAX,
        decreases point - i,
    {
        let c: char = if i < digits.len() as u128 { digits[i as usize] } else { '0' };
        proof {
            assert(w[i as int] == c);
            lemma_digits_value_step(w, i as int);
        }
        let next = acc * 10 + (c as u32 - '0' as u32) as u128;
        if next > u64::MAX as u128 {
            proof {
                lemma_digits_value_prefix(w, i as int + 1);
            }
            return None;
        }
        acc = next;
        i = i + 1;
    }
    proof {
        assert(w.take(point as int) =~= w);
    }
    Some(acc as u64)
}

proof fn lemma_pow10_monotone(a: nat, b: nat)
    requires
        a <= b,
    ensures
        pow10(a) <= pow10(b),
    decreases b,
{
    if a < b {
        lemma_pow10_monotone(a, (b - 1) as nat);
    }
}

/// A currency sign in front of a price and thousands separators inside it do
/// not change what it reads as: `"$12,345.6"` reads as `"12345.6"` does.
pub proof fn lemma_sign_and_separators_ignored(g: Seq<char>)
    requires
        forall|i: int| 0 <= i < g.len() ==> g[i] != '$',
    ensures
        price_of(seq!['$'] + g) == units_of(removed(g, ',')),
{
    let sign = seq!['$'];
    Seq::filter_distributes_over_add(sign, g, |x: char| x != '$');
    reveal_with_fuel(Seq::filter, 2);
    assert(removed(sign, '$') =~= Seq::<char>::empty());
    lemma_removed_absent(g, '$');
    assert(removed(sign + g, '$') =~= g);
}

/// Reads a price text: `$` and `,` are dropped and the rest is read as a
/// non-negative float (see `numeral_to_units`); other text, or too large a
/// number, reads as zero.
pub fn parse_price(s: &str) -> (r: u64)
    ensures
        r == price_of(s@),
{
    let a = remove_char(s, '$');
    let b = remove_char(a.as_str(), ',');
    numeral_to_units(b.as_str())
}

pub open spec fn pow10(k: nat) -> nat
    decreases k,
{
    if k == 0 {
        1
    } else {
        pow10((k - 1) as nat) * 10
    }
}

} // verus!
