//! Normalisation of the text read from the page.

use vstd::prelude::*;

verus! {

/// The characters with the Unicode `White_Space` property.
pub open spec fn is_white_space(c: char) -> bool {
    ('\u{9}' <= c && c <= '\u{d}') || c == ' ' || c == '\u{85}' || c == '\u{a0}' || c
        == '\u{1680}' || ('\u{2000}' <= c && c <= '\u{200a}') || c == '\u{2028}' || c
        == '\u{2029}' || c == '\u{202f}' || c == '\u{205f}' || c == '\u{3000}'
}

pub open spec fn trim_start(s: Seq<char>) -> Seq<char>
    decreases s.len(),
{
    if s.len() > 0 && is_white_space(s[0]) {
        trim_start(s.drop_first())
    } else {
        s
    }
}

pub open spec fn trim_end(s: Seq<char>) -> Seq<char>
    decreases s.len(),
{
    if s.len() > 0 && is_white_space(s.last()) {
        trim_end(s.drop_last())
    } else {
        s
    }
}

/// `s` without its leading and trailing white space.
pub open spec fn trimmed(s: Seq<char>) -> Seq<char> {
    trim_end(trim_start(s))
}

/// `s` with every occurrence of `c` taken out.
pub open spec fn removed(s: Seq<char>, c: char) -> Seq<char> {
    s.filter(|x: char| x != c)
}

/// Removing a character that does not occur changes nothing.
pub proof fn lemma_removed_absent(s: Seq<char>, c: char)
    requires
        forall|i: int| 0 <= i < s.len() ==> s[i] != c,
    ensures
        removed(s, c) == s,
    decreases s.len(),
{
    reveal(Seq::filter);
    if s.len() > 0 {
        lemma_removed_absent(s.drop_last(), c);
        assert(s.drop_last().push(s.last()) =~= s);
    }
}

/// A cell's text as a field holds it: trimmed, then without line feeds.
pub open spec fn cleaned(s: Seq<char>) -> Seq<char> {
    removed(trimmed(s), '\n')
}

/// Relies on `str::trim`: it removes the leading and trailing characters that have
/// the Unicode `White_Space` property.
#[verifier::external_body]
fn trim(s: &str) -> (r: String)
    ensures
        r@ == trimmed(s@),
{
    s.trim().to_string()
}

/// Relies on `str::replace` with a `char` pattern and an empty replacement: every
/// occurrence of `c` is removed and the rest kept in order.
#[verifier::external_body]
pub(crate) fn remove_char(s: &str, c: char) -> (r: String)
    ensures
        r@ == removed(s@, c),
{
    s.replace(c, "")
}

/// Normalises a cell's text: surrounding white space is trimmed, then line feeds
/// inside are dropped.
pub fn clean_text(s: &str) -> (r: String)
    ensures
        r@ == cleaned(s@),
{
    let t = trim(s);
    remove_char(t.as_str(), '\n')
}

} // verus!
