use weasel::config::{Config, Problem};
use weasel::engine::{
    best_of, ga_with_crossover, ga_with_tournament_selection, mutation_hill_climber,
    replace_first_match, worst_of,
};
use weasel::fitness::FitnessCache;

fn chars(s: &str) -> Vec<char> {
    s.chars().collect()
}

fn population(strings: &[&str]) -> Vec<Vec<char>> {
    strings.iter().map(|s| chars(s)).collect()
}

#[test]
fn best_of_picks_first_individual_of_maximal_fitness() {
    let mut cache = FitnessCache::new(chars("ab"));
    let group = population(&["aa", "ab", "ab", "bb"]);
    let (best, fit) = best_of(&mut cache, &group);
    assert_eq!(best, chars("ab"));
    assert_eq!(fit, 2);
    assert_eq!(cache.num_entries(), 3);
}

#[test]
fn worst_of_picks_first_individual_of_minimal_fitness() {
    let mut cache = FitnessCache::new(chars("ab"));
    let group = population(&["ab", "ba", "ba", "aa"]);
    let (worst, fit) = worst_of(&mut cache, &group);
    assert_eq!(worst, chars("ba"));
    assert_eq!(fit, 0);
}

#[test]
fn replace_first_match_overwrites_earliest_matching_slot() {
    let mut pop = population(&["aa", "ab", "aa"]);
    replace_first_match(&mut pop, &chars("aa"), chars("bb"));
    assert_eq!(pop, population(&["bb", "ab", "aa"]));
}

#[test]
fn hill_climber_on_singleton_problem_needs_no_mutation_attempts() {
    let problem = Problem::new(chars("a"), chars("a")).unwrap();
    let config = Config::new(1, 1, 1, 1).unwrap();
    let (result, _cache) = mutation_hill_climber(&problem, &config);
    assert_eq!(result.iterations, 0);
    assert_eq!(result.evaluations, 1);
}

#[test]
fn tournament_ga_on_singleton_problem_ends_after_one_generation() {
    let problem = Problem::new(chars("a"), chars("a")).unwrap();
    let config = Config::new(2, 1, 1, 1).unwrap();
    let (result, _cache) = ga_with_tournament_selection(&problem, &config);
    assert_eq!(result.iterations, 1);
    assert_eq!(result.evaluations, 1);
}

#[test]
fn crossover_ga_on_singleton_problem_ends_after_one_generation() {
    let problem = Problem::new(chars("a"), chars("a")).unwrap();
    let config = Config::new(2, 1, 1, 1).unwrap();
    let (result, _cache) = ga_with_crossover(&problem, &config);
    assert_eq!(result.iterations, 1);
    assert_eq!(result.evaluations, 1);
}

#[test]
fn hill_climber_reaches_small_target() {
    let problem = Problem::new(chars("ab"), chars("abab")).unwrap();
    let config = Config::new(1, 1, 4, 1).unwrap();
    let (result, cache) = mutation_hill_climber(&problem, &config);
    assert!(result.evaluations >= 1);
    assert!(result.evaluations <= result.iterations + 1);
    assert_eq!(result.evaluations, cache.num_entries());
    assert_eq!(cache.max_value(), 4);
}

#[test]
fn tournament_ga_reaches_small_target() {
    let problem = Problem::new(chars("ab"), chars("ab")).unwrap();
    let config = Config::new(4, 1, 2, 2).unwrap();
    let (result, cache) = ga_with_tournament_selection(&problem, &config);
    assert!(result.evaluations >= 1);
    assert!(result.evaluations <= 4 + result.iterations);
    assert!(result.iterations >= 1);
    assert_eq!(result.evaluations, cache.num_entries());
    assert_eq!(cache.max_value(), 2);
}

#[test]
fn crossover_ga_with_full_mutation_terminates_quickly() {
    let problem = Problem::new(chars("ab"), chars("ab")).unwrap();
    let config = Config::new(4, 1, 1, 2).unwrap();
    let (result, cache) = ga_with_crossover(&problem, &config);
    assert!(result.iterations <= 10_000);
    assert!(result.evaluations >= 1);
    assert!(result.evaluations <= 4 + result.iterations);
    assert_eq!(result.evaluations, cache.num_entries());
    assert_eq!(cache.max_value(), 2);
}

#[test]
fn crossover_ga_reaches_three_symbol_target() {
    let problem = Problem::new(chars("abc"), chars("cab")).unwrap();
    let config = Config::new(6, 1, 3, 3).unwrap();
    let (result, cache) = ga_with_crossover(&problem, &config);
    assert!(result.evaluations >= 1);
    assert!(result.evaluations <= 6 + result.iterations);
    assert_eq!(cache.max_value(), 3);
}
