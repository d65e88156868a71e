use weasel::fitness::{chars_eq, fitness_score, FitnessCache};

fn chars(s: &str) -> Vec<char> {
    s.chars().collect()
}

#[test]
fn fitness_score_counts_matching_positions() {
    assert_eq!(fitness_score(&chars("abc"), &chars("abd")), 2);
    assert_eq!(fitness_score(&chars("abc"), &chars("abc")), 3);
    assert_eq!(fitness_score(&chars("xyz"), &chars("abc")), 0);
}

#[test]
fn fitness_score_with_unequal_lengths_uses_shorter() {
    assert_eq!(fitness_score(&chars("ab"), &chars("abcd")), 2);
    assert_eq!(fitness_score(&chars("abcd"), &chars("ab")), 2);
    assert_eq!(fitness_score(&chars(""), &chars("abc")), 0);
    assert_eq!(fitness_score(&chars("abc"), &chars("")), 0);
}

#[test]
fn score_of_target_is_its_length() {
    let target = chars("methinks");
    let mut cache = FitnessCache::new(target.clone());
    assert_eq!(cache.score(&target), target.len());
}

#[test]
fn score_is_memoized_and_repeatable() {
    let mut cache = FitnessCache::new(chars("abc"));
    let x = chars("abd");
    let first = cache.score(&x);
    let second = cache.score(&x);
    assert_eq!(first, second);
    assert_eq!(first, 2);
    assert_eq!(cache.num_entries(), 1);
}

#[test]
fn repeated_scoring_never_grows_cache_beyond_first_insertion() {
    let mut cache = FitnessCache::new(chars("weasel"));
    let x = chars("wbasel");
    for _ in 0..10 {
        let f = cache.score(&x);
        assert_eq!(f, 5);
        assert_eq!(cache.num_entries(), 1);
    }
    let y = chars("weasel");
    cache.score(&y);
    assert_eq!(cache.num_entries(), 2);
}

#[test]
fn score_is_bounded_by_target_length() {
    let target = chars("abc");
    let mut cache = FitnessCache::new(target.clone());
    for s in ["aaa", "abc", "cba", "xyz", "abb"] {
        let f = cache.score(&chars(s));
        assert!(f <= target.len());
    }
}

#[test]
fn max_value_tracks_largest_recorded_fitness() {
    let mut cache = FitnessCache::new(chars("abc"));
    assert_eq!(cache.max_value(), 0);
    cache.score(&chars("xyz"));
    assert_eq!(cache.max_value(), 0);
    cache.score(&chars("abz"));
    assert_eq!(cache.max_value(), 2);
    cache.score(&chars("ayz"));
    assert_eq!(cache.max_value(), 2);
    cache.score(&chars("abc"));
    assert_eq!(cache.max_value(), 3);
}

#[test]
fn chars_eq_compares_content() {
    assert!(chars_eq(&chars("ab"), &chars("ab")));
    assert!(!chars_eq(&chars("ab"), &chars("ba")));
    assert!(!chars_eq(&chars("ab"), &chars("abc")));
    assert!(chars_eq(&chars(""), &chars("")));
}
