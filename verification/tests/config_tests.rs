use weasel::config::{default_problem, Config, ConfigError, Problem};

fn chars(s: &str) -> Vec<char> {
    s.chars().collect()
}

#[test]
fn config_new_accepts_valid_parameters() {
    let config = Config::new(100, 1, 28, 10).unwrap();
    assert_eq!(config.population_size, 100);
    assert_eq!(config.mutation_num, 1);
    assert_eq!(config.mutation_den, 28);
    assert_eq!(config.tournament_size, 10);
}

#[test]
fn config_new_rejects_zero_population() {
    assert_eq!(Config::new(0, 1, 28, 10), Err(ConfigError::ZeroPopulationSize));
}

#[test]
fn config_new_rejects_bad_tournament_size() {
    assert_eq!(Config::new(10, 1, 28, 0), Err(ConfigError::InvalidTournamentSize));
    assert_eq!(Config::new(10, 1, 28, 11), Err(ConfigError::InvalidTournamentSize));
    assert!(Config::new(10, 1, 28, 10).is_ok());
}

#[test]
fn config_new_rejects_bad_mutation_rate() {
    assert_eq!(Config::new(10, 1, 0, 2), Err(ConfigError::InvalidMutationRate));
    assert_eq!(Config::new(10, 2, 1, 2), Err(ConfigError::InvalidMutationRate));
    assert!(Config::new(10, 1, 1, 2).is_ok());
    assert!(Config::new(10, 0, 1, 2).is_ok());
}

#[test]
fn config_default_matches_documented_values() {
    let config = Config::default();
    assert_eq!(config.population_size, 100);
    assert_eq!(config.mutation_num, 1);
    assert_eq!(config.mutation_den, 28);
    assert_eq!(config.tournament_size, 10);
}

#[test]
fn problem_new_accepts_target_over_alphabet() {
    let problem = Problem::new(chars("ab"), chars("abba")).unwrap();
    assert_eq!(problem.alphabet, chars("ab"));
    assert_eq!(problem.target, chars("abba"));
}

#[test]
fn problem_new_rejects_ill_formed_inputs() {
    assert!(Problem::new(chars(""), chars("ab")).is_none());
    assert!(Problem::new(chars("ab"), chars("")).is_none());
    assert!(Problem::new(chars("ab"), chars("abc")).is_none());
}

#[test]
fn default_problem_is_the_weasel_sentence() {
    let problem = default_problem();
    let target: String = problem.target.iter().collect();
    let alphabet: String = problem.alphabet.iter().collect();
    assert_eq!(target, "methinks it is like a weasel");
    assert_eq!(alphabet, "abcdefghijklmnopqrstuvwxyz ");
}
