use convert_case_extras::case::{alternating, random, to_case, toggle};
use convert_case_extras::pattern::{random_word_with, toggle_word, Pattern};
use rand::rngs::StdRng;
use rand::{RngExt, SeedableRng};

fn owned(words: &[&str]) -> Vec<String> {
    words.iter().map(|w| (*w).to_string()).collect()
}

#[test]
fn toggle_case() {
    assert_eq!(to_case("test_toggle", &toggle()), "tEST tOGGLE");
}

#[test]
fn toggle_word_basic() {
    assert_eq!(toggle_word("Case"), "cASE");
    assert_eq!(toggle_word(""), "");
}

#[test]
fn toggle_word_single_char() {
    assert_eq!(toggle_word("X"), "x");
}

#[test]
fn toggle_word_caseless() {
    assert_eq!(toggle_word("123"), "123");
}

#[test]
fn toggle_words() {
    assert_eq!(
        Pattern::Toggle.mutate(&owned(&["Case", "CONVERSION", "library"])),
        owned(&["cASE", "cONVERSION", "lIBRARY"]),
    );
}

#[test]
fn alternating_carries_across_words() {
    assert_eq!(
        Pattern::Alternating.mutate(&owned(&["Case", "CONVERSION", "library"])),
        owned(&["cAsE", "cOnVeRsIoN", "lIbRaRy"]),
    );
}

#[test]
fn alternating_two_words() {
    assert_eq!(
        Pattern::Alternating.mutate(&owned(&["Another", "Example"])),
        owned(&["aNoThEr", "ExAmPlE"]),
    );
}

#[test]
fn toggle_preserves_counts() {
    let words = owned(&["Case", "CONVERSION", "library", "x", ""]);
    let out = Pattern::Toggle.mutate(&words);
    assert_eq!(out.len(), words.len());
    for (o, w) in out.iter().zip(words.iter()) {
        assert_eq!(o.chars().count(), w.chars().count());
    }
}

#[test]
fn alternating_continues_where_the_last_word_left_off() {
    // An odd number of cased characters in the first word shifts the
    // phase of the second; an even number leaves it unchanged.
    assert_eq!(
        Pattern::Alternating.mutate(&owned(&["Abc", "de"])),
        owned(&["aBc", "De"]),
    );
    let all = Pattern::Alternating.mutate(&owned(&["Case", "CONVERSION"]));
    let alone = Pattern::Alternating.mutate(&owned(&["CONVERSION"]));
    assert_eq!(all[1], alone[0]);
}

#[test]
fn alternating_skips_caseless() {
    assert_eq!(
        Pattern::Alternating.mutate(&owned(&["a1b2c", "12-3.4"])),
        owned(&["a1B2c", "12-3.4"]),
    );
}

#[test]
fn toggle_full_string() {
    assert_eq!(to_case("My variable NAME", &toggle()), "mY vARIABLE nAME");
}

#[test]
fn alternating_full_string() {
    assert_eq!(to_case("My variable NAME", &alternating()), "mY vArIaBlE nAmE");
}

#[test]
fn empty_input() {
    let no_words: Vec<String> = Vec::new();
    assert_eq!(Pattern::Toggle.mutate(&no_words), no_words);
    assert_eq!(Pattern::Alternating.mutate(&no_words), no_words);
    assert_eq!(Pattern::Random.mutate(&no_words), no_words);
    assert_eq!(to_case("", &toggle()), "");
}

#[test]
fn toggle_not_idempotent() {
    let once = Pattern::Toggle.mutate(&owned(&["Case"]));
    let twice = Pattern::Toggle.mutate(&once);
    assert_ne!(twice, owned(&["Case"]));
    assert_eq!(twice, owned(&["cASE"]));
}

#[test]
fn random_with_fixed_flags_is_deterministic() {
    let word = "My variable NAME";
    let mut rng = StdRng::seed_from_u64(7);
    let flags: Vec<bool> = (0..word.chars().count()).map(|_| rng.random::<bool>()).collect();
    let first = random_word_with(word, &flags);
    let mut rng = StdRng::seed_from_u64(7);
    let again: Vec<bool> = (0..word.chars().count()).map(|_| rng.random::<bool>()).collect();
    assert_eq!(flags, again);
    assert_eq!(first, random_word_with(word, &again));
}

#[test]
fn random_flags_pick_each_case() {
    assert_eq!(random_word_with("a1b", &vec![true, true, false]), "A1b");
    assert_eq!(random_word_with("a1b", &vec![false, false, true]), "a1B");
}

#[test]
fn random_preserves_structure() {
    let out = Pattern::Random.mutate(&owned(&["a1b2"]));
    assert_eq!(out.len(), 1);
    let chars: Vec<char> = out[0].chars().collect();
    assert_eq!(chars.len(), 4);
    assert!(chars[0] == 'a' || chars[0] == 'A');
    assert_eq!(chars[1], '1');
    assert!(chars[2] == 'b' || chars[2] == 'B');
    assert_eq!(chars[3], '2');
}

#[test]
fn random_unseeded_shows_both_cases() {
    let word: String = "a".repeat(40);
    let mut saw_upper = false;
    let mut saw_lower = false;
    for _ in 0..30 {
        let out = Pattern::Random.mutate(&owned(&[word.as_str()]));
        if out[0].chars().any(|c| c == 'A') {
            saw_upper = true;
        }
        if out[0].chars().any(|c| c == 'a') {
            saw_lower = true;
        }
    }
    assert!(saw_upper);
    assert!(saw_lower);
}

#[test]
fn random_full_string_keeps_shape() {
    let out = to_case("test toggle", &random());
    let original = "test toggle";
    assert_eq!(out.chars().count(), original.chars().count());
    for (o, i) in out.chars().zip(original.chars()) {
        assert!(o == i.to_ascii_uppercase() || o == i.to_ascii_lowercase());
    }
}

#[test]
fn presets_are_space_delimited() {
    let preset = toggle();
    assert_eq!(preset.delimiter, " ");
    assert_eq!(preset.boundaries.len(), 1);
    assert_eq!(alternating().delimiter, " ");
    assert_eq!(random().pattern, Pattern::Random);
}
