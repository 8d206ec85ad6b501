use codex_utils_fuzzy_match::lowering::{lower_text, LoweredText};
use codex_utils_fuzzy_match::matcher::match_lowered;
use codex_utils_fuzzy_match::{fuzzy_indices, fuzzy_match};

#[test]
fn ascii_basic_indices() {
    let (idx, score) = match fuzzy_match("hello", "hl") {
        Some(v) => v,
        None => panic!("expected a match"),
    };
    assert_eq!(idx, vec![0, 2]);
    assert_eq!(score, -99);
}

#[test]
fn unicode_dotted_i_istanbul_highlighting() {
    let (idx, score) = match fuzzy_match("İstanbul", "is") {
        Some(v) => v,
        None => panic!("expected a match"),
    };
    assert_eq!(idx, vec![0, 1]);
    assert_eq!(score, -99);
}

#[test]
fn unicode_german_sharp_s_casefold() {
    assert!(fuzzy_match("straße", "strasse").is_none());
}

#[test]
fn prefer_contiguous_match_over_spread() {
    let (_idx_a, score_a) = match fuzzy_match("abc", "abc") {
        Some(v) => v,
        None => panic!("expected a match"),
    };
    let (_idx_b, score_b) = match fuzzy_match("a-b-c", "abc") {
        Some(v) => v,
        None => panic!("expected a match"),
    };
    assert_eq!(score_a, -100);
    assert_eq!(score_b, -98);
    assert!(score_a < score_b);
}

#[test]
fn start_of_string_bonus_applies() {
    let (_idx_a, score_a) = match fuzzy_match("file_name", "file") {
        Some(v) => v,
        None => panic!("expected a match"),
    };
    let (_idx_b, score_b) = match fuzzy_match("my_file_name", "file") {
        Some(v) => v,
        None => panic!("expected a match"),
    };
    assert_eq!(score_a, -100);
    assert_eq!(score_b, 0);
    assert!(score_a < score_b);
}

#[test]
fn empty_needle_matches_with_max_score_and_no_indices() {
    let (idx, score) = match fuzzy_match("anything", "") {
        Some(v) => v,
        None => panic!("empty needle should match"),
    };
    assert!(idx.is_empty());
    assert_eq!(score, i32::MAX);
}

#[test]
fn case_insensitive_matching_basic() {
    let (idx, score) = match fuzzy_match("FooBar", "foO") {
        Some(v) => v,
        None => panic!("expected a match"),
    };
    assert_eq!(idx, vec![0, 1, 2]);
    assert_eq!(score, -100);
}

#[test]
fn indices_are_deduped_for_multichar_lowercase_expansion() {
    let needle = "\u{0069}\u{0307}";
    let (idx, score) = match fuzzy_match("İ", needle) {
        Some(v) => v,
        None => panic!("expected a match"),
    };
    assert_eq!(idx, vec![0]);
    assert_eq!(score, -100);
}

#[test]
fn empty_needle_on_empty_haystack() {
    assert_eq!(fuzzy_match("", ""), Some((Vec::new(), i32::MAX)));
    assert_eq!(fuzzy_indices("", ""), Some(Vec::new()));
}

#[test]
fn empty_haystack_does_not_match() {
    assert_eq!(fuzzy_match("", "a"), None);
    assert_eq!(fuzzy_indices("", "a"), None);
}

#[test]
fn order_violated_does_not_match() {
    assert_eq!(fuzzy_match("hello", "lh"), None);
}

#[test]
fn indices_strictly_ascending_within_haystack() {
    let (idx, score) = fuzzy_match("aXbXcX", "abc").unwrap();
    assert_eq!(idx, vec![0, 2, 4]);
    assert!(idx.windows(2).all(|w| w[0] < w[1]));
    assert!(idx.iter().all(|&i| i < 6));
    assert!(idx.len() <= 3);
    assert_eq!(score, -98);
}

#[test]
fn repeated_needle_characters_take_distinct_positions() {
    let (idx, score) = fuzzy_match("banana", "aa").unwrap();
    assert_eq!(idx, vec![1, 3]);
    assert_eq!(score, 1);
}

#[test]
fn ascii_case_does_not_change_result() {
    assert_eq!(fuzzy_match("FooBar", "foO"), fuzzy_match("foobar", "foo"));
    assert_eq!(fuzzy_match("FooBar", "BAR"), fuzzy_match("foobar", "bar"));
    assert_eq!(fuzzy_match("FooBar", "rab"), None);
    assert_eq!(fuzzy_match("foobar", "rab"), None);
}

#[test]
fn contiguous_scores_lower_than_spread_at_same_start() {
    let (_, contiguous) = fuzzy_match("xabcx", "abc").unwrap();
    let (_, spread) = fuzzy_match("xab--c", "abc").unwrap();
    assert_eq!(contiguous, 0);
    assert_eq!(spread, 2);
    assert!(contiguous < spread);
}

#[test]
fn prefix_bonus_is_exactly_one_hundred() {
    let (_, at_start) = fuzzy_match("a-bc", "abc").unwrap();
    let (_, later) = fuzzy_match("xa-bc", "abc").unwrap();
    assert_eq!(at_start, -99);
    assert_eq!(later, 1);
    assert_eq!(at_start, later - 100);
}

#[test]
fn greedy_takes_first_occurrence_forward() {
    let (idx, score) = fuzzy_match("abcabc", "cb").unwrap();
    assert_eq!(idx, vec![2, 4]);
    assert_eq!(score, 1);
    let (idx, score) = fuzzy_match("axbab", "ab").unwrap();
    assert_eq!(idx, vec![0, 2]);
    assert_eq!(score, -99);
}

#[test]
fn expansion_in_haystack_counts_lowered_characters() {
    let (idx, score) = fuzzy_match("xİs", "s").unwrap();
    assert_eq!(idx, vec![2]);
    assert_eq!(score, 0);
    let (idx, score) = fuzzy_match("İs", "i\u{0307}s").unwrap();
    assert_eq!(idx, vec![0, 1]);
    assert_eq!(score, -100);
}

#[test]
fn indices_only_variant_matches_full_match() {
    assert_eq!(fuzzy_indices("hello", "hl"), Some(vec![0, 2]));
    assert_eq!(fuzzy_indices("hello", "lh"), None);
    assert_eq!(fuzzy_indices("İ", "i\u{0307}"), Some(vec![0]));
    assert_eq!(fuzzy_indices("anything", ""), Some(Vec::new()));
}

#[test]
fn lowering_lowercases_and_tracks_origins() {
    let t = lower_text("AbC");
    assert_eq!(t.chars, vec!['a', 'b', 'c']);
    assert_eq!(t.origins, vec![0, 1, 2]);
    let t = lower_text("İx");
    assert_eq!(t.chars, vec!['i', '\u{0307}', 'x']);
    assert_eq!(t.origins, vec![0, 0, 1]);
    let t = lower_text("ΣÉ");
    assert_eq!(t.chars, vec!['σ', 'é']);
}

#[test]
fn match_on_lowered_text() {
    let text = LoweredText { chars: vec!['h', 'e', 'l', 'l', 'o'], origins: vec![0, 1, 2, 3, 4] };
    assert_eq!(match_lowered(&text, &vec!['h', 'l']), Some((vec![0, 2], -99)));
    assert_eq!(match_lowered(&text, &vec!['l', 'h']), None);
    let text = LoweredText { chars: vec!['i', '\u{0307}', 's'], origins: vec![0, 0, 1] };
    assert_eq!(match_lowered(&text, &vec!['\u{0307}', 's']), Some((vec![0, 1], -99)));
    assert_eq!(match_lowered(&text, &Vec::new()), Some((Vec::new(), -99)));
}
