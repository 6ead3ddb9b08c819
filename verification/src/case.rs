//! Case presets and the conversion entry point.
//!
//! A preset bundles the boundaries that delimit a case's words, the
//! pattern that recases them and the delimiter that rejoins them.
//! Converting a string tokenizes it at the host's default word
//! boundaries, applies the preset's pattern and rejoins the words with
//! the preset's delimiter.

use vstd::prelude::*;

use crate::pattern::{
    alt_words, random_casing, toggle_words_spec, word_views, Pattern,
};

verus! {

/// A rule that marks where one word ends and the next begins in a
/// source string.
#[derive(Clone, Copy, Debug, PartialEq, Eq, Structural)]
pub enum BoundaryKind {
    /// A literal space character between two words.
    Space,
}

/// A named casing convention: the boundaries that delimit its words
/// when it is read, the pattern that recases them, and the delimiter
/// that rejoins them when it is written.
pub struct CasePreset {
    /// The boundaries a reader of this case splits on.
    pub boundaries: Vec<BoundaryKind>,
    /// The per-character casing rule.
    pub pattern: Pattern,
    /// The string put between words on output.
    pub delimiter: String,
}

/// The toggle preset: words delimited by spaces, every character
/// uppercase but the leading character of each word, which is lowercase.
pub fn toggle() -> (c: CasePreset)
    ensures
        c.pattern == Pattern::Toggle,
        c.delimiter@ == seq![' '],
        c.boundaries@ == seq![BoundaryKind::Space],
{
    space_preset(Pattern::Toggle)
}

/// The alternating preset: words delimited by spaces, cased characters
/// alternating between lowercase and uppercase across the whole string.
pub fn alternating() -> (c: CasePreset)
    ensures
        c.pattern == Pattern::Alternating,
        c.delimiter@ == seq![' '],
        c.boundaries@ == seq![BoundaryKind::Space],
{
    space_preset(Pattern::Alternating)
}

/// The random preset: words delimited by spaces, each cased character
/// uppercased or lowercased by a fair coin flip.
pub fn random() -> (c: CasePreset)
    ensures
        c.pattern == Pattern::Random,
        c.delimiter@ == seq![' '],
        c.boundaries@ == seq![BoundaryKind::Space],
{
    space_preset(Pattern::Random)
}

/// A space-delimited preset around the given pattern.
fn space_preset(pattern: Pattern) -> (c: CasePreset)
    ensures
        c.pattern == pattern,
        c.delimiter@ == seq![' '],
        c.boundaries@ == seq![BoundaryKind::Space],
{
    let delimiter = String::from_str(" ");
    proof {
        reveal_strlit(" ");
        assert(delimiter@ =~= seq![' ']);
    }
    let mut boundaries: Vec<BoundaryKind> = Vec::new();
    boundaries.push(BoundaryKind::Space);
    proof {
        assert(boundaries@ =~= seq![BoundaryKind::Space]);
    }
    CasePreset { boundaries, pattern, delimiter }
}

/// The words of a string, as the host's splitter finds them at its
/// default boundaries; a function of the string alone.
pub uninterp spec fn split_default(s: Seq<char>) -> Seq<Seq<char>>;

/// Relies on `convert_case::split` with `Boundary::defaults()`: splits
/// an identifier into words at underscores, hyphens, spaces, and
/// letter-case or digit transitions; a pure function of the string
/// alone, and the empty string has no words.
#[verifier::external_body]
fn split_words(s: &str) -> (r: Vec<String>)
    ensures
        word_views(r@) == split_default(s@),
        s@.len() == 0 ==> r@.len() == 0,
{
    convert_case::split(&s, &convert_case::Boundary::defaults())
        .into_iter()
        .map(|w| w.to_string())
        .collect()
}

/// The words joined by the delimiter: the delimiter stands between each
/// pair of neighbouring words.
pub open spec fn join_spec(ws: Seq<Seq<char>>, d: Seq<char>) -> Seq<char>
    decreases ws.len(),
{
    if ws.len() == 0 {
        Seq::empty()
    } else if ws.len() == 1 {
        ws[0]
    } else {
        join_spec(ws.drop_last(), d) + d + ws.last()
    }
}

/// Join the words with the delimiter between each pair of neighbours.
fn join_words(words: &Vec<String>, delimiter: &str) -> (r: String)
    ensures
        r@ == join_spec(word_views(words@), delimiter@),
{
    let n = words.len();
    let mut r = String::new();
    let mut i: usize = 0;
    while i < n
        invariant
            0 <= i <= n,
            n == words@.len(),
            r@ == join_spec(word_views(words@).take(i as int), delimiter@),
        decreases n - i,
    {
        if i > 0 {
            r.append(delimiter);
        }
        r.append(words[i].as_str());
        proof {
            let ws = word_views(words@);
            assert(ws.take(i + 1).drop_last() =~~= ws.take(i as int));
            assert(ws.take(i + 1).last() == words@[i as int]@);
        }
        i = i + 1;
    }
    proof {
        assert(word_views(words@).take(n as int) =~~= word_views(words@));
    }
    r
}

/// Convert a string to the preset's case: split it into words at the
/// host's default boundaries, recase them by the preset's pattern, and
/// join them with the preset's delimiter.
pub fn to_case(s: &str, preset: &CasePreset) -> (r: String)
    ensures
        s@.len() == 0 ==> r@.len() == 0,
        preset.pattern == Pattern::Toggle ==> r@ == join_spec(
            toggle_words_spec(split_default(s@)),
            preset.delimiter@,
        ),
        preset.pattern == Pattern::Alternating ==> r@ == join_spec(
            alt_words(split_default(s@), false),
            preset.delimiter@,
        ),
        preset.pattern == Pattern::Random ==> exists|rs: Seq<Seq<char>>|
            random_casing(split_default(s@), rs) && r@ == join_spec(rs, preset.delimiter@),
{
    let words = split_words(s);
    let recased = preset.pattern.mutate(&words);
    let r = join_words(&recased, preset.delimiter.as_str());
    proof {
        if preset.pattern == Pattern::Random {
            assert(random_casing(split_default(s@), word_views(recased@)) && r@ == join_spec(
                word_views(recased@),
                preset.delimiter@,
            ));
        }
    }
    r
}

} // verus!
