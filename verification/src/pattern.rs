//! The three casing patterns: toggle, alternating and random.
//!
//! A pattern maps a sequence of already-tokenized words to a new sequence
//! of words with a per-character casing rule applied. Only the casing of
//! cased characters changes; every other character passes through.

use vstd::prelude::*;

use crate::chars::{
    cased, char_is_lower, char_is_upper, char_to_lower, char_to_upper, lower_chars, push_char,
    upper_chars,
};

verus! {

/// The views of a sequence of words.
pub open spec fn word_views(ws: Seq<String>) -> Seq<Seq<char>> {
    ws.map_values(|w: String| w@)
}

/// The uppercase mapping of a whole word, character by character.
pub open spec fn upper_seq(w: Seq<char>) -> Seq<char>
    decreases w.len(),
{
    if w.len() == 0 {
        Seq::empty()
    } else {
        upper_seq(w.drop_last()) + upper_chars(w.last())
    }
}

/// Toggle case of one word: the first character lowercased, every
/// remaining character uppercased; the empty word stays empty.
pub open spec fn toggle_word_spec(w: Seq<char>) -> Seq<char> {
    if w.len() == 0 {
        Seq::empty()
    } else {
        lower_chars(w[0]) + upper_seq(w.skip(1))
    }
}

/// Toggle case of a sequence of words: each word independently.
pub open spec fn toggle_words_spec(ws: Seq<Seq<char>>) -> Seq<Seq<char>> {
    ws.map_values(|w: Seq<char>| toggle_word_spec(w))
}

/// Lowercase the first character of the word and uppercase the rest.
pub fn toggle_word(word: &str) -> (r: String)
    ensures
        r@ == toggle_word_spec(word@),
{
    let n = word.unicode_len();
    if n == 0 {
        let r = String::new();
        assert(r@ =~= toggle_word_spec(word@));
        return r;
    }
    let mut r = char_to_lower(word.get_char(0));
    let mut i: usize = 1;
    while i < n
        invariant
            1 <= i <= n,
            n == word@.len(),
            r@ == lower_chars(word@[0]) + upper_seq(word@.skip(1).take(i - 1)),
        decreases n - i,
    {
        let u = char_to_upper(word.get_char(i));
        r.append(u.as_str());
        proof {
            let rest = word@.skip(1);
            assert(rest.take(i as int).drop_last() =~= rest.take(i - 1));
            assert(rest.take(i as int).last() == word@[i as int]);
        }
        i = i + 1;
    }
    proof {
        assert(word@.skip(1).take(n - 1) =~= word@.skip(1));
    }
    r
}

/// A character with its case chosen by a flag: uppercased when the flag
/// is set, lowercased when it is not; a caseless character passes through
/// unchanged, whatever the flag says.
pub open spec fn cased_as(c: char, up: bool) -> Seq<char> {
    if !cased(c) {
        seq![c]
    } else if up {
        upper_chars(c)
    } else {
        lower_chars(c)
    }
}

/// How one character leaves the alternation flag: a cased character
/// inverts it, any other character leaves it alone.
pub open spec fn flip(c: char, up: bool) -> bool {
    if cased(c) {
        !up
    } else {
        up
    }
}

/// The alternation flag after walking a whole word, starting from `up`.
pub open spec fn alt_flag(w: Seq<char>, up: bool) -> bool
    decreases w.len(),
{
    if w.len() == 0 {
        up
    } else {
        flip(w.last(), alt_flag(w.drop_last(), up))
    }
}

/// Alternating case of one word, starting from flag `up`: each cased
/// character takes the case the flag indicates and inverts it.
pub open spec fn alt_seq(w: Seq<char>, up: bool) -> Seq<char>
    decreases w.len(),
{
    if w.len() == 0 {
        Seq::empty()
    } else {
        alt_seq(w.drop_last(), up) + cased_as(w.last(), alt_flag(w.drop_last(), up))
    }
}

/// The alternation flag after walking a whole sequence of words: the flag
/// carries across word boundaries.
pub open spec fn alt_words_flag(ws: Seq<Seq<char>>, up: bool) -> bool
    decreases ws.len(),
{
    if ws.len() == 0 {
        up
    } else {
        alt_flag(ws.last(), alt_words_flag(ws.drop_last(), up))
    }
}

/// Alternating case of a sequence of words, threading one flag across
/// all of them, starting from `up`.
pub open spec fn alt_words(ws: Seq<Seq<char>>, up: bool) -> Seq<Seq<char>>
    decreases ws.len(),
{
    if ws.len() == 0 {
        Seq::empty()
    } else {
        alt_words(ws.drop_last(), up).push(
            alt_seq(ws.last(), alt_words_flag(ws.drop_last(), up)),
        )
    }
}

/// Alternate the case of one word, starting from flag `up`; returns the
/// recased word and the flag left for the next word.
fn alternate_word(word: &str, up: bool) -> (r: (String, bool))
    ensures
        r.0@ == alt_seq(word@, up),
        r.1 == alt_flag(word@, up),
{
    let n = word.unicode_len();
    let mut r = String::new();
    let mut cur = up;
    let mut i: usize = 0;
    while i < n
        invariant
            0 <= i <= n,
            n == word@.len(),
            r@ == alt_seq(word@.take(i as int), up),
            cur == alt_flag(word@.take(i as int), up),
        decreases n - i,
    {
        let c = word.get_char(i);
        if char_is_upper(c) || char_is_lower(c) {
            if cur {
                let u = char_to_upper(c);
                r.append(u.as_str());
            } else {
                let l = char_to_lower(c);
                r.append(l.as_str());
            }
            cur = !cur;
        } else {
            push_char(&mut r, c);
        }
        proof {
            assert(word@.take(i + 1).drop_last() =~= word@.take(i as int));
            assert(word@.take(i + 1).last() == word@[i as int]);
        }
        i = i + 1;
    }
    proof {
        assert(word@.take(n as int) =~= word@);
    }
    (r, cur)
}

/// Random case of one word under a given sequence of coin flips, one
/// flip per character: each cased character takes the case its flip
/// indicates; flips at caseless positions are ignored.
pub open spec fn rand_seq(w: Seq<char>, flags: Seq<bool>) -> Seq<char>
    decreases w.len(),
{
    if w.len() == 0 {
        Seq::empty()
    } else {
        rand_seq(w.drop_last(), flags.drop_last()) + cased_as(w.last(), flags.last())
    }
}

/// One possible outcome of the random pattern on one word: some sequence
/// of coin flips, one per character, yields exactly the recased word.
pub open spec fn random_word_casing(w: Seq<char>, r: Seq<char>) -> bool {
    exists|flags: Seq<bool>| flags.len() == w.len() && r == #[trigger] rand_seq(w, flags)
}

/// One possible outcome of the random pattern: for each word, some
/// sequence of coin flips yields exactly that recased word.
pub open spec fn random_casing(ws: Seq<Seq<char>>, rs: Seq<Seq<char>>) -> bool {
    &&& rs.len() == ws.len()
    &&& forall|i: int| 0 <= i < ws.len() ==> random_word_casing(ws[i], #[trigger] rs[i])
}

/// Relies on `rand::random`: draws a fresh uniformly random `bool` from
/// the thread-local generator. Nothing is promised of the outcome.
#[verifier::external_body]
fn coin() -> bool {
    rand::random()
}

/// Recase one word by the given coin flips, one per character: a cased
/// character becomes uppercase where its flip is set and lowercase where
/// it is not; every other character passes through.
pub fn random_word_with(word: &str, flags: &Vec<bool>) -> (r: String)
    requires
        flags@.len() == word@.len(),
    ensures
        r@ == rand_seq(word@, flags@),
{
    let n = word.unicode_len();
    let mut r = String::new();
    let mut i: usize = 0;
    while i < n
        invariant
            0 <= i <= n,
            n == word@.len(),
            flags@.len() == word@.len(),
            r@ == rand_seq(word@.take(i as int), flags@.take(i as int)),
        decreases n - i,
    {
        let c = word.get_char(i);
        if char_is_upper(c) || char_is_lower(c) {
            if flags[i] {
                let u = char_to_upper(c);
                r.append(u.as_str());
            } else {
                let l = char_to_lower(c);
                r.append(l.as_str());
            }
        } else {
            push_char(&mut r, c);
        }
        proof {
            assert(word@.take(i + 1).drop_last() =~= word@.take(i as int));
            assert(flags@.take(i + 1).drop_last() =~= flags@.take(i as int));
            assert(word@.take(i + 1).last() == word@[i as int]);
            assert(flags@.take(i + 1).last() == flags@[i as int]);
        }
        i = i + 1;
    }
    proof {
        assert(word@.take(n as int) =~= word@);
        assert(flags@.take(n as int) =~= flags@);
    }
    r
}

/// Recase one word with a fresh coin flip for each cased character.
fn random_word(word: &str) -> (r: String)
    ensures
        random_word_casing(word@, r@),
{
    let n = word.unicode_len();
    let mut r = String::new();
    let ghost mut flags: Seq<bool> = Seq::empty();
    let mut i: usize = 0;
    while i < n
        invariant
            0 <= i <= n,
            n == word@.len(),
            flags.len() == i,
            r@ == rand_seq(word@.take(i as int), flags),
        decreases n - i,
    {
        let c = word.get_char(i);
        let ghost prev = flags;
        if char_is_upper(c) || char_is_lower(c) {
            let f = coin();
            proof {
                flags = flags.push(f);
            }
            if f {
                let u = char_to_upper(c);
                r.append(u.as_str());
            } else {
                let l = char_to_lower(c);
                r.append(l.as_str());
            }
        } else {
            proof {
                flags = flags.push(false);
            }
            push_char(&mut r, c);
        }
        proof {
            assert(word@.take(i + 1).drop_last() =~= word@.take(i as int));
            assert(flags.drop_last() =~= prev);
            assert(word@.take(i + 1).last() == word@[i as int]);
        }
        i = i + 1;
    }
    proof {
        assert(word@.take(n as int) =~= word@);
        assert(flags.len() == word@.len() && r@ == rand_seq(word@, flags));
    }
    r
}

/// A character whose case mappings are single characters, as they are
/// for all of ASCII: recasing it cannot change a word's length.
pub open spec fn single_char_map(c: char) -> bool {
    lower_chars(c).len() == 1 && upper_chars(c).len() == 1
}

proof fn lemma_upper_seq_len(w: Seq<char>)
    requires
        forall|j: int| 0 <= j < w.len() ==> single_char_map(#[trigger] w[j]),
    ensures
        upper_seq(w).len() == w.len(),
    decreases w.len(),
{
    if w.len() > 0 {
        assert forall|j: int| 0 <= j < w.drop_last().len() implies single_char_map(
            #[trigger] w.drop_last()[j],
        ) by {
            assert(w.drop_last()[j] == w[j]);
        }
        lemma_upper_seq_len(w.drop_last());
    }
}

proof fn lemma_toggle_word_len(w: Seq<char>)
    requires
        forall|j: int| 0 <= j < w.len() ==> single_char_map(#[trigger] w[j]),
    ensures
        toggle_word_spec(w).len() == w.len(),
{
    if w.len() > 0 {
        assert forall|j: int| 0 <= j < w.skip(1).len() implies single_char_map(
            #[trigger] w.skip(1)[j],
        ) by {
            assert(w.skip(1)[j] == w[j + 1]);
        }
        lemma_upper_seq_len(w.skip(1));
    }
}

proof fn lemma_alt_seq_len(w: Seq<char>, up: bool)
    requires
        forall|j: int| 0 <= j < w.len() ==> single_char_map(#[trigger] w[j]),
    ensures
        alt_seq(w, up).len() == w.len(),
    decreases w.len(),
{
    if w.len() > 0 {
        assert forall|j: int| 0 <= j < w.drop_last().len() implies single_char_map(
            #[trigger] w.drop_last()[j],
        ) by {
            assert(w.drop_last()[j] == w[j]);
        }
        lemma_alt_seq_len(w.drop_last(), up);
    }
}

proof fn lemma_rand_seq_len(w: Seq<char>, flags: Seq<bool>)
    requires
        forall|j: int| 0 <= j < w.len() ==> single_char_map(#[trigger] w[j]),
    ensures
        rand_seq(w, flags).len() == w.len(),
    decreases w.len(),
{
    if w.len() > 0 {
        assert forall|j: int| 0 <= j < w.drop_last().len() implies single_char_map(
            #[trigger] w.drop_last()[j],
        ) by {
            assert(w.drop_last()[j] == w[j]);
        }
        lemma_rand_seq_len(w.drop_last(), flags.drop_last());
    }
}

proof fn lemma_alt_words_len(ws: Seq<Seq<char>>, up: bool)
    ensures
        alt_words(ws, up).len() == ws.len(),
    decreases ws.len(),
{
    if ws.len() > 0 {
        lemma_alt_words_len(ws.drop_last(), up);
    }
}

proof fn lemma_alt_words_index(ws: Seq<Seq<char>>, up: bool, i: int)
    requires
        0 <= i < ws.len(),
    ensures
        alt_words(ws, up).len() == ws.len(),
        alt_words(ws, up)[i] == alt_seq(ws[i], alt_words_flag(ws.take(i), up)),
    decreases ws.len(),
{
    lemma_alt_words_len(ws, up);
    if i == ws.len() - 1 {
        assert(ws.take(i) =~~= ws.drop_last());
        lemma_alt_words_len(ws.drop_last(), up);
    } else {
        lemma_alt_words_index(ws.drop_last(), up, i);
        assert(ws.drop_last().take(i) =~~= ws.take(i));
        assert(ws.drop_last()[i] == ws[i]);
    }
}

/// Law: toggle case keeps the number of words; and each word whose
/// characters all have single-character case mappings keeps its length.
pub proof fn lemma_toggle_preserves_counts(ws: Seq<Seq<char>>)
    ensures
        toggle_words_spec(ws).len() == ws.len(),
        forall|i: int|
            0 <= i < ws.len() && (forall|j: int|
                0 <= j < ws[i].len() ==> single_char_map(#[trigger] ws[i][j]))
                ==> (#[trigger] toggle_words_spec(ws)[i]).len() == ws[i].len(),
{
    assert forall|i: int|
        0 <= i < ws.len() && (forall|j: int|
            0 <= j < ws[i].len() ==> single_char_map(#[trigger] ws[i][j]))
            implies (#[trigger] toggle_words_spec(ws)[i]).len() == ws[i].len() by {
        lemma_toggle_word_len(ws[i]);
    }
}

/// Law: alternating case keeps the number of words; and each word whose
/// characters all have single-character case mappings keeps its length,
/// whatever the incoming alternation flag is.
pub proof fn lemma_alternating_preserves_counts(ws: Seq<Seq<char>>, up: bool)
    ensures
        alt_words(ws, up).len() == ws.len(),
        forall|i: int|
            0 <= i < ws.len() && (forall|j: int|
                0 <= j < ws[i].len() ==> single_char_map(#[trigger] ws[i][j]))
                ==> (#[trigger] alt_words(ws, up)[i]).len() == ws[i].len(),
{
    lemma_alt_words_len(ws, up);
    assert forall|i: int|
        0 <= i < ws.len() && (forall|j: int|
            0 <= j < ws[i].len() ==> single_char_map(#[trigger] ws[i][j]))
            implies (#[trigger] alt_words(ws, up)[i]).len() == ws[i].len() by {
        lemma_alt_words_index(ws, up, i);
        lemma_alt_seq_len(ws[i], alt_words_flag(ws.take(i), up));
    }
}

/// Law: every outcome of the random pattern keeps the number of words;
/// and each word whose characters all have single-character case mappings
/// keeps its length, whatever the coin flips were.
pub proof fn lemma_random_preserves_counts(ws: Seq<Seq<char>>, rs: Seq<Seq<char>>)
    ensures
        random_casing(ws, rs) ==> rs.len() == ws.len(),
        forall|i: int|
            random_casing(ws, rs) && 0 <= i < ws.len() && (forall|j: int|
                0 <= j < ws[i].len() ==> single_char_map(#[trigger] ws[i][j]))
                ==> (#[trigger] rs[i]).len() == ws[i].len(),
{
    assert forall|i: int|
        random_casing(ws, rs) && 0 <= i < ws.len() && (forall|j: int|
            0 <= j < ws[i].len() ==> single_char_map(#[trigger] ws[i][j]))
            implies (#[trigger] rs[i]).len() == ws[i].len() by {
        assert(random_word_casing(ws[i], rs[i]));
        let fl = choose|flags: Seq<bool>|
            flags.len() == ws[i].len() && rs[i] == #[trigger] rand_seq(ws[i], flags);
        lemma_rand_seq_len(ws[i], fl);
    }
}

/// Law: the alternation flag walks word sequences one after the other;
/// the flag left by the first sequence is where the second one starts.
pub proof fn lemma_alternating_flag_carries(
    ws1: Seq<Seq<char>>,
    ws2: Seq<Seq<char>>,
    up: bool,
)
    ensures
        alt_words_flag(ws1 + ws2, up) == alt_words_flag(ws2, alt_words_flag(ws1, up)),
    decreases ws2.len(),
{
    if ws2.len() == 0 {
        assert(ws1 + ws2 =~~= ws1);
    } else {
        lemma_alternating_flag_carries(ws1, ws2.drop_last(), up);
        assert((ws1 + ws2).drop_last() =~~= ws1 + ws2.drop_last());
        assert((ws1 + ws2).last() == ws2.last());
    }
}

/// Law: the alternation carries seamlessly across word boundaries.
/// Alternating a concatenation of two word sequences is alternating the
/// first and then the second, the second starting from the flag the
/// first left behind: no word restarts the alternation.
pub proof fn lemma_alternating_carries_across_words(
    ws1: Seq<Seq<char>>,
    ws2: Seq<Seq<char>>,
    up: bool,
)
    ensures
        alt_words(ws1 + ws2, up) == alt_words(ws1, up) + alt_words(
            ws2,
            alt_words_flag(ws1, up),
        ),
    decreases ws2.len(),
{
    if ws2.len() == 0 {
        assert(ws1 + ws2 =~~= ws1);
        assert(alt_words(ws1, up) + alt_words(ws2, alt_words_flag(ws1, up)) =~~= alt_words(
            ws1,
            up,
        ));
    } else {
        lemma_alternating_carries_across_words(ws1, ws2.drop_last(), up);
        lemma_alternating_flag_carries(ws1, ws2.drop_last(), up);
        assert((ws1 + ws2).drop_last() =~~= ws1 + ws2.drop_last());
        assert((ws1 + ws2).last() == ws2.last());
        assert(alt_words(ws1, up) + alt_words(ws2, alt_words_flag(ws1, up)) =~~= (alt_words(
            ws1,
            up,
        ) + alt_words(ws2.drop_last(), alt_words_flag(ws1, up))).push(
            alt_seq(
                ws2.last(),
                alt_words_flag(ws2.drop_last(), alt_words_flag(ws1, up)),
            ),
        ));
    }
}

/// A casing pattern: the per-character rule a case preset applies to the
/// words of an identifier.
#[derive(Clone, Copy, Debug, PartialEq, Eq, Structural)]
pub enum Pattern {
    /// Each word: first character lowercased, the rest uppercased.
    Toggle,
    /// Cased characters alternate between lowercase and uppercase, the
    /// alternation carrying across word boundaries; it starts lowercase.
    Alternating,
    /// Each cased character is uppercased or lowercased by an independent
    /// fair coin flip.
    Random,
}

impl Pattern {
    /// Apply the pattern to a sequence of words. The number of words
    /// never changes; for `Toggle` and `Alternating` the result is an
    /// exact function of the input, for `Random` every result is some
    /// outcome of per-character coin flips.
    pub fn mutate(&self, words: &Vec<String>) -> (r: Vec<String>)
        ensures
            r@.len() == words@.len(),
            *self == Pattern::Toggle ==> word_views(r@) == toggle_words_spec(word_views(words@)),
            *self == Pattern::Alternating ==> word_views(r@) == alt_words(
                word_views(words@),
                false,
            ),
            *self == Pattern::Random ==> random_casing(word_views(words@), word_views(r@)),
    {
        match self {
            Pattern::Toggle => mutate_toggle(words),
            Pattern::Alternating => mutate_alternating(words),
            Pattern::Random => mutate_random(words),
        }
    }
}

/// Toggle every word independently.
fn mutate_toggle(words: &Vec<String>) -> (r: Vec<String>)
    ensures
        r@.len() == words@.len(),
        word_views(r@) == toggle_words_spec(word_views(words@)),
{
    let n = words.len();
    let mut r: Vec<String> = Vec::new();
    let mut i: usize = 0;
    while i < n
        invariant
            0 <= i <= n,
            n == words@.len(),
            r@.len() == i,
            word_views(r@) =~~= toggle_words_spec(word_views(words@).take(i as int)),
        decreases n - i,
    {
        let w = toggle_word(words[i].as_str());
        let ghost prev = r@;
        r.push(w);
        proof {
            let ws = word_views(words@);
            assert forall|j: int| 0 <= j < i + 1 implies word_views(r@)[j] == toggle_words_spec(
                ws.take(i + 1),
            )[j] by {
                if j < i {
                    assert(word_views(prev)[j] == toggle_words_spec(ws.take(i as int))[j]);
                    assert(r@[j] == prev[j]);
                    assert(ws.take(i as int)[j] == ws.take(i + 1)[j]);
                } else {
                    assert(r@[j] == w);
                    assert(ws.take(i + 1)[j] == words@[i as int]@);
                }
            }
            assert(word_views(r@) =~~= toggle_words_spec(ws.take(i + 1)));
        }
        i = i + 1;
    }
    proof {
        assert(word_views(words@).take(n as int) =~~= word_views(words@));
    }
    r
}

/// Alternate across all words, carrying one flag, starting lowercase.
fn mutate_alternating(words: &Vec<String>) -> (r: Vec<String>)
    ensures
        r@.len() == words@.len(),
        word_views(r@) == alt_words(word_views(words@), false),
{
    let n = words.len();
    let mut r: Vec<String> = Vec::new();
    let mut cur = false;
    let mut i: usize = 0;
    while i < n
        invariant
            0 <= i <= n,
            n == words@.len(),
            r@.len() == i,
            word_views(r@) =~~= alt_words(word_views(words@).take(i as int), false),
            cur == alt_words_flag(word_views(words@).take(i as int), false),
        decreases n - i,
    {
        let (w, next) = alternate_word(words[i].as_str(), cur);
        r.push(w);
        cur = next;
        proof {
            let ws = word_views(words@);
            assert(ws.take(i + 1).drop_last() =~~= ws.take(i as int));
            assert(ws.take(i + 1).last() == ws[i as int]);
            assert(word_views(r@) =~~= alt_words(ws.take(i + 1), false));
        }
        i = i + 1;
    }
    proof {
        assert(word_views(words@).take(n as int) =~~= word_views(words@));
    }
    r
}

/// Recase every word with fresh coin flips.
fn mutate_random(words: &Vec<String>) -> (r: Vec<String>)
    ensures
        r@.len() == words@.len(),
        random_casing(word_views(words@), word_views(r@)),
{
    let n = words.len();
    let mut r: Vec<String> = Vec::new();
    let mut i: usize = 0;
    while i < n
        invariant
            0 <= i <= n,
            n == words@.len(),
            r@.len() == i,
            forall|j: int|
                0 <= j < i ==> random_word_casing(word_views(words@)[j], #[trigger] word_views(
                    r@,
                )[j]),
        decreases n - i,
    {
        let w = random_word(words[i].as_str());
        let ghost prev = r@;
        r.push(w);
        proof {
            let ws = word_views(words@);
            assert forall|j: int| 0 <= j < i + 1 implies random_word_casing(
                ws[j],
                #[trigger] word_views(r@)[j],
            ) by {
                if j < i {
                    assert(r@[j] == prev[j]);
                    assert(random_word_casing(ws[j], word_views(prev)[j]));
                } else {
                    assert(r@[j] == w);
                    assert(ws[j] == words@[i as int]@);
                }
            }
        }
        i = i + 1;
    }
    r
}

} // verus!
