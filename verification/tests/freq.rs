use charfreq::filter::FreqGetter;
use charfreq::freq::{get_freq, merge_freq_maps, FreqMap};
use regex::Regex;

#[test]
fn test_get_freq() {
    let input = "araarrrqqqwqqqq";
    let freq = get_freq(&input);
    assert_eq!(freq.get('a'), Some(3));
    assert_eq!(freq.get('r'), Some(4));
    assert_eq!(freq.get('q'), Some(7));
    assert_eq!(freq.get('w'), Some(1));
}

#[test]
fn test_filter_set() {
    let input = "araarrrqqqwqyyyyyqqq   ";

    let filter_set: Vec<char> = vec!['a', 'r'];

    let freq = FreqGetter::new().filter_set(filter_set).get(&input);

    assert_eq!(freq.get('a'), Some(3));
    assert_eq!(freq.get('r'), Some(4));
    assert_eq!(freq.get('q'), None);
    assert_eq!(freq.get('w'), None);
    assert_eq!(freq.get(' '), None);
}

#[test]
fn test_filter_regex() {
    let input = "araarrrqqqwqyyyyyqqq   ";

    let regex = Regex::new(r"\w").unwrap();

    let freq = FreqGetter::new().filter_regex(regex).get(&input);

    assert_eq!(freq.get('a'), Some(3));
    assert_eq!(freq.get('r'), Some(4));
    assert_eq!(freq.get('q'), Some(7));
    assert_eq!(freq.get('w'), Some(1));
    assert_eq!(freq.get(' '), None);
}

#[test]
fn test_merge() {
    let input1 = "araarrrqqqwqyyyyyqqq";
    let input2 = "uuuuuuuuuuuuuuuuuuuuuuuqqq";
    let mut freq1 = get_freq(&input1);
    let freq2 = get_freq(&input2);
    merge_freq_maps(&mut freq1, &freq2);

    assert_eq!(freq1.get('a'), Some(3));
    assert_eq!(freq1.get('r'), Some(4));
    assert_eq!(freq1.get('q'), Some(10));
    assert_eq!(freq1.get('w'), Some(1));
    assert_eq!(freq1.get('u'), Some(23));
}

#[test]
fn test_unconditional_count_has_no_other_keys() {
    let freq = get_freq("araarrrqqqwqqqq");
    assert_eq!(freq.len(), 4);
}

#[test]
fn test_set_filter_counts_exactly_the_set() {
    let freq = FreqGetter::new()
        .filter_set(vec!['a', 'r'])
        .get("araarrrqqqwqyyyyyqqq   ");
    assert_eq!(freq.len(), 2);
    assert_eq!(freq.get('a'), Some(3));
    assert_eq!(freq.get('r'), Some(4));
    assert_eq!(freq.get('y'), None);
}

#[test]
fn test_word_pattern_counts_exactly_the_word_characters() {
    let regex = Regex::new(r"\w").unwrap();
    let freq = FreqGetter::new()
        .filter_regex(regex)
        .get("araarrrqqqwqyyyyyqqq   ");
    assert_eq!(freq.len(), 5);
    assert_eq!(freq.get('y'), Some(5));
}

#[test]
fn test_merge_two_counts_covers_all_keys() {
    let mut merged = get_freq("araarrrqqqwqyyyyyqqq");
    let other = get_freq("uuuuuuuuuuuuuuuuuuuuuuuqqq");
    merge_freq_maps(&mut merged, &other);
    assert_eq!(merged.len(), 6);
    assert_eq!(merged.get('y'), Some(5));
}

#[test]
fn test_merge_empty_map_changes_nothing() {
    let mut freq = get_freq("araarrrqqqwqqqq");
    let empty = FreqMap::new();
    merge_freq_maps(&mut freq, &empty);
    assert_eq!(freq.len(), 4);
    assert_eq!(freq.get('a'), Some(3));
    assert_eq!(freq.get('r'), Some(4));
    assert_eq!(freq.get('q'), Some(7));
    assert_eq!(freq.get('w'), Some(1));
}

#[test]
fn test_merge_into_empty_map_copies_counts() {
    let mut merged = FreqMap::new();
    let freq = get_freq("araarrrqqqwqqqq");
    merge_freq_maps(&mut merged, &freq);
    assert_eq!(merged.len(), 4);
    assert_eq!(merged.get('a'), Some(3));
    assert_eq!(merged.get('q'), Some(7));
}

#[test]
fn test_merge_order_does_not_matter() {
    let parts = ["aab", "bbc", "ca"];

    let mut left = get_freq(parts[0]);
    let m2 = get_freq(parts[1]);
    merge_freq_maps(&mut left, &m2);
    let m3 = get_freq(parts[2]);
    merge_freq_maps(&mut left, &m3);

    let mut right = get_freq(parts[2]);
    let m1 = get_freq(parts[0]);
    merge_freq_maps(&mut right, &m1);
    let m2b = get_freq(parts[1]);
    merge_freq_maps(&mut right, &m2b);

    assert_eq!(left.len(), right.len());
    for c in ['a', 'b', 'c'] {
        assert_eq!(left.get(c), right.get(c));
    }
    assert_eq!(left.get('a'), Some(3));
    assert_eq!(left.get('b'), Some(3));
    assert_eq!(left.get('c'), Some(2));
}

#[test]
fn test_evaluate_is_repeatable() {
    let unconditional = FreqGetter::new();
    let with_set = FreqGetter::new().filter_set(vec!['a']);
    let with_pattern = FreqGetter::new().filter_regex(Regex::new(r"\w").unwrap());
    for _ in 0..3 {
        assert!(unconditional.filter_char(' '));
        assert!(with_set.filter_char('a'));
        assert!(!with_set.filter_char('b'));
        assert!(with_pattern.filter_char('a'));
        assert!(!with_pattern.filter_char(' '));
    }
}

#[test]
fn test_empty_input_yields_empty_map() {
    assert_eq!(get_freq("").len(), 0);
    assert_eq!(FreqGetter::new().filter_set(vec!['a']).get("").len(), 0);
    let regex = Regex::new(r"\w").unwrap();
    assert_eq!(FreqGetter::new().filter_regex(regex).get("").len(), 0);
}

#[test]
fn test_empty_set_rejects_everything() {
    let freq = FreqGetter::new().filter_set(vec![]).get("abc");
    assert_eq!(freq.len(), 0);
    assert_eq!(freq.get('a'), None);
}

#[test]
fn test_pattern_without_matches_counts_nothing() {
    let regex = Regex::new("z").unwrap();
    let freq = FreqGetter::new().filter_regex(regex).get("abc");
    assert_eq!(freq.len(), 0);
}

#[test]
fn test_to_vec_lists_each_entry_once() {
    let freq = get_freq("aabbbc");
    let mut pairs = freq.to_vec();
    pairs.sort();
    assert_eq!(pairs, vec![('a', 2), ('b', 3), ('c', 1)]);
}

#[test]
fn test_later_filter_replaces_earlier_one() {
    let freq = FreqGetter::new()
        .filter_regex(Regex::new(r"\w").unwrap())
        .filter_set(vec!['a'])
        .get("a b");
    assert_eq!(freq.len(), 1);
    assert_eq!(freq.get('a'), Some(1));
    assert_eq!(freq.get('b'), None);
}
