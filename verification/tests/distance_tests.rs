use fuzzy_string_matcher::damerau_levenshtein;

#[test]
fn a_word_is_at_distance_zero_from_itself() {
    assert_eq!(damerau_levenshtein("", ""), 0);
    assert_eq!(damerau_levenshtein("x", "x"), 0);
    assert_eq!(damerau_levenshtein("aa", "aa"), 0);
    assert_eq!(damerau_levenshtein("hello", "hello"), 0);
    assert_eq!(damerau_levenshtein("日本語", "日本語"), 0);
}

#[test]
fn the_empty_word_is_as_far_as_the_other_is_long() {
    assert_eq!(damerau_levenshtein("", "abc"), 3);
    assert_eq!(damerau_levenshtein("abc", ""), 3);
    assert_eq!(damerau_levenshtein("", "x"), 1);
    assert_eq!(damerau_levenshtein("x", ""), 1);
    assert_eq!(damerau_levenshtein("", "héllo"), 5);
    assert_eq!(damerau_levenshtein("héllo", ""), 5);
}

#[test]
fn the_order_of_the_words_does_not_matter() {
    let pairs = [
        ("kitten", "sitting"),
        ("saturday", "sunday"),
        ("ca", "abc"),
        ("flaw", "lawn"),
        ("abab", "baba"),
        ("", "word"),
        ("teh", "he"),
    ];
    for (a, b) in pairs {
        assert_eq!(damerau_levenshtein(a, b), damerau_levenshtein(b, a));
    }
}

#[test]
fn one_substitution_costs_one() {
    assert_eq!(damerau_levenshtein("cat", "bat"), 1);
    assert_eq!(damerau_levenshtein("a", "b"), 1);
}

#[test]
fn one_swap_of_neighbours_costs_one() {
    assert_eq!(damerau_levenshtein("ab", "ba"), 1);
    assert_eq!(damerau_levenshtein("abcd", "acbd"), 1);
    assert_eq!(damerau_levenshtein("teh", "the"), 1);
}

#[test]
fn one_insertion_or_deletion_costs_one() {
    assert_eq!(damerau_levenshtein("cat", "cats"), 1);
    assert_eq!(damerau_levenshtein("cats", "cat"), 1);
    assert_eq!(damerau_levenshtein("x", "yx"), 1);
    assert_eq!(damerau_levenshtein("spelling", "speling"), 1);
}

#[test]
fn known_distances() {
    assert_eq!(damerau_levenshtein("hello", "helo"), 1);
    assert_eq!(damerau_levenshtein("hello", "help"), 2);
    assert_eq!(damerau_levenshtein("hello", "world"), 4);
    assert_eq!(damerau_levenshtein("kitten", "sitting"), 3);
    assert_eq!(damerau_levenshtein("kitten", "kitchen"), 2);
    assert_eq!(damerau_levenshtein("kitten", "mitten"), 1);
    assert_eq!(damerau_levenshtein("saturday", "sunday"), 3);
    assert_eq!(damerau_levenshtein("flaw", "lawn"), 2);
    assert_eq!(damerau_levenshtein("apple", "banana"), 5);
    assert_eq!(damerau_levenshtein("abab", "baba"), 2);
}

#[test]
fn a_swapped_pair_is_not_edited_again() {
    // With swaps over any distance this would be 2: swap, then insert between.
    assert_eq!(damerau_levenshtein("ca", "abc"), 3);
    assert_eq!(damerau_levenshtein("abc", "ca"), 3);
}

#[test]
fn characters_are_compared_as_code_points() {
    assert_eq!(damerau_levenshtein("héllo", "hello"), 1);
    assert_eq!(damerau_levenshtein("日本語", "日本"), 1);
    assert_eq!(damerau_levenshtein("日本", "本日"), 1);
    assert_eq!(damerau_levenshtein("Cat", "cat"), 1);
}

#[test]
fn the_distance_is_at_most_the_longer_length() {
    assert_eq!(damerau_levenshtein("abc", "xyz"), 3);
    assert_eq!(damerau_levenshtein("ab", "wxyz"), 4);
    assert!(damerau_levenshtein("apple", "banana") <= 6);
}
