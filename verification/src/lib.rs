//! An evolutionary string search: a target string over a fixed alphabet is
//! approached by a mutation-only hill climber, a tournament-selection genetic
//! algorithm, and a genetic algorithm with uniform crossover. Fitness is the
//! per-position match count against the target, memoized so each distinct
//! genotype is scored at most once per run.

pub mod config;
pub mod engine;
pub mod fitness;
pub mod generator;
