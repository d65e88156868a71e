//! The three search loops — mutation hill climber, tournament-selection
//! genetic algorithm, and crossover genetic algorithm — together with the
//! tournament scans and the population replacement step they share.

use vstd::prelude::*;
use vstd::pervasive::VecAdditionalExecFns;
use crate::config::{Config, Problem, RunResult};
use crate::fitness::{
    clone_chars, lemma_match_count_le, lemma_match_count_self, match_count, FitnessCache,
};
use crate::generator::{generate_crossover, generate_mutated, generate_random_string, sample};

verus! {

/// Relies on std::time::SystemTime: the milliseconds since the Unix epoch,
/// or 0 for a clock before it. The result depends on the wall clock, so
/// nothing is promised of it.
#[verifier::external_body]
fn now_millis() -> u64 {
    match std::time::SystemTime::now().duration_since(std::time::UNIX_EPOCH) {
        Ok(d) => d.as_millis() as u64,
        Err(_) => 0,
    }
}

/// A population of exactly `n` individuals, each of length `len` and drawn
/// from `alphabet`.
pub open spec fn population_wf(p: Seq<Seq<char>>, n: nat, len: nat, alphabet: Seq<char>) -> bool {
    &&& p.len() == n
    &&& forall|i: int| 0 <= i < p.len() ==> (#[trigger] p[i]).len() == len
    &&& forall|i: int, j: int|
        0 <= i < p.len() && 0 <= j < p[i].len() ==> alphabet.contains(#[trigger] p[i][j])
}

/// Over a one-symbol alphabet, an individual of the target's length over
/// that alphabet can only be the target itself (the target is well formed
/// over the same alphabet).
proof fn lemma_singleton_uniform(problem: Problem, x: Seq<char>)
    requires
        problem.wf(),
        problem.alphabet@.len() == 1,
        x.len() == problem.target@.len(),
        forall|j: int| 0 <= j < x.len() ==> problem.alphabet@.contains(#[trigger] x[j]),
    ensures
        x == problem.target@,
{
    assert forall|j: int| 0 <= j < x.len() implies x[j] == problem.target@[j] by {
        let a = problem.alphabet@;
        let qx = choose|q: int| 0 <= q < a.len() && a[q] == x[j];
        assert(crate::config::alphabet_has(a, problem.target@[j]));
        let qt = choose|q: int| 0 <= q < a.len() && a[q] == problem.target@[j];
        assert(qx == 0 && qt == 0);
    }
    assert(x =~= problem.target@);
}

/// Over a one-symbol alphabet, every member of a well-formed population is
/// the target itself.
proof fn lemma_population_uniform(problem: Problem, p: Seq<Seq<char>>, n: nat)
    requires
        problem.wf(),
        problem.alphabet@.len() == 1,
        population_wf(p, n, problem.target@.len(), problem.alphabet@),
    ensures
        forall|i: int| 0 <= i < p.len() ==> #[trigger] p[i] == problem.target@,
{
    assert forall|i: int| 0 <= i < p.len() implies #[trigger] p[i] == problem.target@ by {
        assert forall|j: int|
            0 <= j < p[i].len() implies problem.alphabet@.contains(#[trigger] p[i][j]) by {}
        lemma_singleton_uniform(problem, p[i]);
    }
}

/// `i` indexes the first member of `dv` whose fitness against `tv` equals
/// the maximum over `dv`.
pub open spec fn is_first_best(dv: Seq<Seq<char>>, tv: Seq<char>, i: int) -> bool {
    &&& 0 <= i < dv.len()
    &&& forall|j: int|
        0 <= j < dv.len() ==> match_count(#[trigger] dv[j], tv) <= match_count(dv[i], tv)
    &&& forall|j: int| 0 <= j < i ==> match_count(#[trigger] dv[j], tv) < match_count(dv[i], tv)
}

/// `i` indexes the first member of `dv` whose fitness against `tv` equals
/// the minimum over `dv`.
pub open spec fn is_first_worst(dv: Seq<Seq<char>>, tv: Seq<char>, i: int) -> bool {
    &&& 0 <= i < dv.len()
    &&& forall|j: int|
        0 <= j < dv.len() ==> match_count(#[trigger] dv[j], tv) >= match_count(dv[i], tv)
    &&& forall|j: int| 0 <= j < i ==> match_count(#[trigger] dv[j], tv) > match_count(dv[i], tv)
}

/// Scores every individual of `group` and returns the first one, in group
/// order, whose fitness equals the group's maximum, together with that
/// fitness (ties are broken in favour of the earliest individual drawn).
pub fn best_of(cache: &mut FitnessCache, group: &Vec<Vec<char>>) -> (r: (Vec<char>, usize))
    requires
        old(cache).wf(),
        group.deep_view().len() > 0,
    ensures
        final(cache).wf(),
        final(cache).target_view() == old(cache).target_view(),
        forall|k: Seq<char>|
            final(cache).contains_key(k) <==> old(cache).contains_key(k)
                || group.deep_view().contains(k),
        forall|i: int|
            0 <= i < group.deep_view().len() ==> final(cache).contains_key(
                #[trigger] group.deep_view()[i],
            ),
        final(cache).len() >= old(cache).len(),
        r.1 as nat == match_count(r.0@, old(cache).target_view()),
        exists|i: int|
            #[trigger] is_first_best(group.deep_view(), old(cache).target_view(), i) && r.0@
                == group.deep_view()[i],
{
    let ghost dv = group.deep_view();
    let ghost tv = old(cache).target_view();
    proof {
        assert(dv[0] == group@[0]@);
    }
    let mut best = clone_chars(&group[0]);
    let mut best_fit = cache.score(&group[0]);
    proof {
        assert(dv.contains(dv[0]));
    }
    let ghost mut bi: int = 0;
    let mut j: usize = 1;
    while j < group.len()
        invariant
            cache.wf(),
            cache.target_view() == tv,
            dv == group.deep_view(),
            dv.len() == group@.len(),
            1 <= j <= dv.len(),
            0 <= bi < j,
            best@ == dv[bi],
            best_fit as nat == match_count(dv[bi], tv),
            forall|q: int| 0 <= q < j ==> match_count(#[trigger] dv[q], tv) <= match_count(dv[bi], tv),
            forall|q: int| 0 <= q < bi ==> match_count(#[trigger] dv[q], tv) < match_count(dv[bi], tv),
            forall|q: int| 0 <= q < j ==> cache.contains_key(#[trigger] dv[q]),
            forall|k: Seq<char>| old(cache).contains_key(k) ==> cache.contains_key(k),
            forall|k: Seq<char>|
                cache.contains_key(k) ==> old(cache).contains_key(k) || dv.contains(k),
            cache.len() >= old(cache).len(),
        decreases dv.len() - j,
    {
        proof {
            assert(dv[j as int] == group@[j as int]@);
            assert(dv.contains(dv[j as int]));
        }
        let f = cache.score(&group[j]);
        if f > best_fit {
            best = clone_chars(&group[j]);
            best_fit = f;
            proof {
                bi = j as int;
            }
        }
        j = j + 1;
    }
    proof {
        assert(is_first_best(dv, tv, bi));
        assert forall|k: Seq<char>|
            cache.contains_key(k) <==> old(cache).contains_key(k) || dv.contains(k) by {
            if dv.contains(k) {
                let q = choose|q: int| 0 <= q < dv.len() && dv[q] == k;
                assert(cache.contains_key(dv[q]));
            }
        }
    }
    (best, best_fit)
}

/// Scores every individual of `group` and returns the first one, in group
/// order, whose fitness equals the group's minimum, together with that
/// fitness (ties are broken in favour of the earliest individual drawn).
pub fn worst_of(cache: &mut FitnessCache, group: &Vec<Vec<char>>) -> (r: (Vec<char>, usize))
    requires
        old(cache).wf(),
        group.deep_view().len() > 0,
    ensures
        final(cache).wf(),
        final(cache).target_view() == old(cache).target_view(),
        forall|k: Seq<char>|
            final(cache).contains_key(k) <==> old(cache).contains_key(k)
                || group.deep_view().contains(k),
        forall|i: int|
            0 <= i < group.deep_view().len() ==> final(cache).contains_key(
                #[trigger] group.deep_view()[i],
            ),
        final(cache).len() >= old(cache).len(),
        r.1 as nat == match_count(r.0@, old(cache).target_view()),
        exists|i: int|
            #[trigger] is_first_worst(group.deep_view(), old(cache).target_view(), i) && r.0@
                == group.deep_view()[i],
{
    let ghost dv = group.deep_view();
    let ghost tv = old(cache).target_view();
    proof {
        assert(dv[0] == group@[0]@);
    }
    let mut worst = clone_chars(&group[0]);
    let mut worst_fit = cache.score(&group[0]);
    proof {
        assert(dv.contains(dv[0]));
    }
    let ghost mut wi: int = 0;
    let mut j: usize = 1;
    while j < group.len()
        invariant
            cache.wf(),
            cache.target_view() == tv,
            dv == group.deep_view(),
            dv.len() == group@.len(),
            1 <= j <= dv.len(),
            0 <= wi < j,
            worst@ == dv[wi],
            worst_fit as nat == match_count(dv[wi], tv),
            forall|q: int| 0 <= q < j ==> match_count(#[trigger] dv[q], tv) >= match_count(dv[wi], tv),
            forall|q: int| 0 <= q < wi ==> match_count(#[trigger] dv[q], tv) > match_count(dv[wi], tv),
            forall|q: int| 0 <= q < j ==> cache.contains_key(#[trigger] dv[q]),
            forall|k: Seq<char>| old(cache).contains_key(k) ==> cache.contains_key(k),
            forall|k: Seq<char>|
                cache.contains_key(k) ==> old(cache).contains_key(k) || dv.contains(k),
            cache.len() >= old(cache).len(),
        decreases dv.len() - j,
    {
        proof {
            assert(dv[j as int] == group@[j as int]@);
            assert(dv.contains(dv[j as int]));
        }
        let f = cache.score(&group[j]);
        if f < worst_fit {
            worst = clone_chars(&group[j]);
            worst_fit = f;
            proof {
                wi = j as int;
            }
        }
        j = j + 1;
    }
    proof {
        assert(is_first_worst(dv, tv, wi));
        assert forall|k: Seq<char>|
            cache.contains_key(k) <==> old(cache).contains_key(k) || dv.contains(k) by {
            if dv.contains(k) {
                let q = choose|q: int| 0 <= q < dv.len() && dv[q] == k;
                assert(cache.contains_key(dv[q]));
            }
        }
    }
    (worst, worst_fit)
}

/// `after` is `before` with slot `i` — the first slot holding `victim` —
/// overwritten by `child`.
pub open spec fn replaced_first_at(
    before: Seq<Seq<char>>,
    after: Seq<Seq<char>>,
    victim: Seq<char>,
    child: Seq<char>,
    i: int,
) -> bool {
    &&& 0 <= i < before.len()
    &&& before[i] == victim
    &&& forall|j: int| 0 <= j < i ==> before[j] != victim
    &&& after == before.update(i, child)
}

/// Overwrites the first population slot whose content equals `victim` with
/// `child`. Where several slots hold the victim's content, the earliest one
/// is the one replaced.
pub fn replace_first_match(population: &mut Vec<Vec<char>>, victim: &Vec<char>, child: Vec<char>)
    requires
        old(population).deep_view().contains(victim@),
    ensures
        exists|i: int|
            #[trigger] replaced_first_at(
                old(population).deep_view(),
                final(population).deep_view(),
                victim@,
                child@,
                i,
            ),
{
    let ghost dv = old(population).deep_view();
    let mut i: usize = 0;
    while i < population.len()
        invariant
            *population == *old(population),
            dv == old(population).deep_view(),
            dv.len() == population@.len(),
            i <= dv.len(),
            forall|j: int| 0 <= j < i ==> dv[j] != victim@,
        decreases dv.len() - i,
    {
        proof {
            assert(dv[i as int] == population@[i as int]@);
        }
        if crate::fitness::chars_eq(&population[i], victim) {
            let ghost slot = i as int;
            population.set(i, child);
            proof {
                assert forall|k: int|
                    0 <= k < population.deep_view().len() implies population.deep_view()[k]
                    == dv.update(slot, child@)[k] by {
                    assert(population.deep_view()[k] == population@[k]@);
                }
                assert(population.deep_view() =~= dv.update(slot, child@));
                assert(replaced_first_at(dv, population.deep_view(), victim@, child@, slot));
            }
            return ;
        }
        i = i + 1;
    }
    proof {
        let w = choose|j: int| 0 <= j < dv.len() && dv[j] == victim@;
        assert(false);
    }
}

/// Local search by mutation alone: one random individual is repeatedly
/// mutated, and a mutant replaces it exactly when its fitness is strictly
/// better, until an individual matches the target at every position.
/// Returns the run's counters together with the fitness cache; the cache's
/// size is the number of distinct genotypes scored, reported as
/// `evaluations`. The loop gives up only when the iteration counter reaches
/// `usize::MAX`; on any earlier exit the cache holds the target-level
/// fitness.
pub fn mutation_hill_climber(problem: &Problem, config: &Config) -> (r: (RunResult, FitnessCache))
    requires
        problem.wf(),
        config.wf(),
    ensures
        r.1.wf(),
        r.1.target_view() == problem.target@,
        r.0.evaluations == r.1.len(),
        r.0.evaluations >= 1,
        r.0.evaluations <= r.0.iterations + 1,
        r.1.keys_have_len(problem.target@.len()),
        r.0.iterations < usize::MAX ==> r.1.contains_fitness(problem.target@.len() as nat)
            && r.1.contains_key(problem.target@),
        problem.alphabet@.len() == 1 ==> r.0.iterations == 0 && r.0.evaluations == 1,
{
    let start = now_millis();
    let target_len = problem.target.len();
    let mut individual = generate_random_string(&problem.alphabet, target_len);
    let mut cache = FitnessCache::new(clone_chars(&problem.target));
    let mut iterations: usize = 0;
    let mut fitness = cache.score(&individual);
    proof {
        if problem.alphabet@.len() == 1 {
            lemma_singleton_uniform(*problem, individual@);
            lemma_match_count_self(problem.target@);
        }
    }
    while fitness < target_len && iterations < usize::MAX
        invariant
            problem.wf(),
            config.wf(),
            cache.wf(),
            cache.target_view() == problem.target@,
            target_len == problem.target@.len(),
            individual@.len() == target_len,
            fitness as nat == match_count(individual@, problem.target@),
            cache.contains_key(individual@),
            cache.len() <= iterations + 1,
            forall|k: Seq<char>| cache.contains_key(k) ==> k.len() == target_len,
            problem.alphabet@.len() == 1 ==> (fitness == target_len && iterations == 0
                && cache.len() == 1),
        decreases usize::MAX - iterations,
    {
        let mutated = generate_mutated(
            &problem.alphabet,
            &individual,
            config.mutation_num,
            config.mutation_den,
        );
        let mutated_fitness = cache.score(&mutated);
        if mutated_fitness > fitness {
            individual = mutated;
            fitness = mutated_fitness;
        }
        iterations = iterations + 1;
    }
    proof {
        cache.lemma_keys_have_len_from_contains(problem.target@.len());
        if iterations < usize::MAX {
            lemma_match_count_le(individual@, problem.target@);
            cache.lemma_key_fitness(individual@);
            cache.lemma_target_scored();
        }
    }
    let evaluations = cache.num_entries();
    let end = now_millis();
    let elapsed_millis = if end >= start {
        end - start
    } else {
        0
    };
    (RunResult { iterations, evaluations, elapsed_millis }, cache)
}

/// One tournament generation shared by both genetic algorithms: the offspring
/// replaces the first slot holding the content of a fresh tournament's worst
/// member, and the running best fitness becomes the cache-wide maximum (which
/// may belong to a genotype no longer present in the population — a designed,
/// permissive convergence criterion).
fn replace_and_track(
    problem: &Problem,
    config: &Config,
    population: &mut Vec<Vec<char>>,
    cache: &mut FitnessCache,
    child: Vec<char>,
) -> (best: usize)
    requires
        problem.wf(),
        config.wf(),
        old(cache).wf(),
        old(cache).target_view() == problem.target@,
        population_wf(
            old(population).deep_view(),
            config.population_size as nat,
            problem.target@.len(),
            problem.alphabet@,
        ),
        child@.len() == problem.target@.len(),
        forall|j: int| 0 <= j < child@.len() ==> problem.alphabet@.contains(#[trigger] child@[j]),
    ensures
        final(cache).wf(),
        final(cache).target_view() == problem.target@,
        population_wf(
            final(population).deep_view(),
            config.population_size as nat,
            problem.target@.len(),
            problem.alphabet@,
        ),
        final(cache).len() >= old(cache).len(),
        forall|k: Seq<char>| old(cache).contains_key(k) ==> final(cache).contains_key(k),
        forall|k: Seq<char>|
            final(cache).contains_key(k) ==> old(cache).contains_key(k) || old(
                population,
            ).deep_view().contains(k),
        forall|i: int|
            0 <= i < final(population).deep_view().len() ==> old(population).deep_view().contains(
                #[trigger] final(population).deep_view()[i],
            ) || final(population).deep_view()[i] == child@,
        forall|k: Seq<char>|
            old(cache).contains_key(k) ==> best as nat >= match_count(k, problem.target@),
        best as nat <= problem.target@.len(),
        best > 0 ==> final(cache).contains_fitness(best as nat),
{
    let ghost tlen = problem.target@.len();
    let group = sample(population, config.tournament_size);
    let (victim, _victim_fit) = worst_of(cache, &group);
    proof {
        let dv = group.deep_view();
        let i = choose|i: int|
            #[trigger] is_first_worst(dv, problem.target@, i) && victim@ == dv[i];
        assert(population.deep_view().contains(victim@));
        assert forall|k: Seq<char>|
            cache.contains_key(k) implies old(cache).contains_key(k) || old(
            population,
        ).deep_view().contains(k) by {
            if dv.contains(k) {
                let q = choose|q: int| 0 <= q < dv.len() && dv[q] == k;
                assert(old(population).deep_view().contains(dv[q]));
            }
        }
    }
    replace_first_match(population, &victim, child);
    proof {
        let olddv = old(population).deep_view();
        let i = choose|i: int|
            #[trigger] replaced_first_at(olddv, population.deep_view(), victim@, child@, i);
        assert forall|k: int|
            0 <= k < population.deep_view().len() implies (#[trigger] population.deep_view()[k]).len()
            == tlen by {
            if k != i {
                assert(population.deep_view()[k] == olddv[k]);
            }
        }
        assert forall|k: int, j: int|
            0 <= k < population.deep_view().len() && 0 <= j < population.deep_view()[k].len()
            implies problem.alphabet@.contains(#[trigger] population.deep_view()[k][j]) by {
            if k != i {
                assert(population.deep_view()[k] == olddv[k]);
                assert(problem.alphabet@.contains(olddv[k][j]));
            } else {
                assert(population.deep_view()[k] == child@);
            }
        }
        assert forall|k: int|
            0 <= k < population.deep_view().len() implies olddv.contains(
            #[trigger] population.deep_view()[k],
        ) || population.deep_view()[k] == child@ by {
            if k != i {
                assert(population.deep_view()[k] == olddv[k]);
                assert(olddv.contains(olddv[k]));
            }
        }
    }
    let best = cache.max_value();
    proof {
        if best > 0 {
            cache.lemma_fitness_bounded(best as nat);
        }
        assert forall|k: Seq<char>|
            old(cache).contains_key(k) implies best as nat >= match_count(
            k,
            problem.target@,
        ) by {
            assert(cache.contains_key(k));
            let e = choose|e: int| 0 <= e < cache.len() && cache.key_at(e) == k;
            assert(cache.fitness_at(e) == match_count(k, problem.target@));
        }
    }
    best
}

/// Population search with tournament selection and mutation only: each
/// generation, the best of one tournament is mutated into an offspring, and
/// the offspring overwrites the first slot holding the content of a second,
/// independent tournament's worst member. The loop ends when some scored
/// genotype matches the target at every position; it gives up only when the
/// iteration counter reaches `usize::MAX`, and on any earlier exit the cache
/// holds the target-level fitness.
pub fn ga_with_tournament_selection(problem: &Problem, config: &Config) -> (r: (
    RunResult,
    FitnessCache,
))
    requires
        problem.wf(),
        config.wf(),
    ensures
        r.1.wf(),
        r.1.target_view() == problem.target@,
        r.0.evaluations == r.1.len(),
        r.0.evaluations >= 1,
        r.0.evaluations <= config.population_size + r.0.iterations,
        r.1.keys_have_len(problem.target@.len()),
        r.0.iterations >= 1,
        r.0.iterations < usize::MAX ==> r.1.contains_fitness(problem.target@.len() as nat)
            && r.1.contains_key(problem.target@),
        problem.alphabet@.len() == 1 ==> r.0.iterations == 1 && r.0.evaluations == 1,
{
    let start = now_millis();
    let target_len = problem.target.len();
    let mut population = initial_population(problem, config);
    let mut cache = FitnessCache::new(clone_chars(&problem.target));
    let mut best_fitness: usize = 0;
    let mut iterations: usize = 0;
    let ghost mut ever: Set<Seq<char>> = population.deep_view().to_set();
    proof {
        broadcast use vstd::seq_lib::seq_to_set_is_finite;

        population.deep_view().lemma_cardinality_of_set();
        assert forall|i: int|
            0 <= i < population.deep_view().len() implies ever.contains(
            #[trigger] population.deep_view()[i],
        ) by {
            assert(population.deep_view().contains(population.deep_view()[i]));
        }
    }
    while best_fitness < target_len && iterations < usize::MAX
        invariant
            problem.wf(),
            config.wf(),
            cache.wf(),
            cache.target_view() == problem.target@,
            target_len == problem.target@.len(),
            population_wf(
                population.deep_view(),
                config.population_size as nat,
                target_len as nat,
                problem.alphabet@,
            ),
            best_fitness as nat <= target_len as nat,
            best_fitness > 0 ==> cache.contains_fitness(best_fitness as nat),
            iterations > 0 ==> cache.len() >= 1,
            best_fitness > 0 ==> iterations >= 1,
            ever.finite(),
            ever.len() <= config.population_size + iterations,
            forall|k: Seq<char>| cache.contains_key(k) ==> ever.contains(k),
            forall|i: int|
                0 <= i < population.deep_view().len() ==> ever.contains(
                    #[trigger] population.deep_view()[i],
                ),
            forall|k: Seq<char>| cache.contains_key(k) ==> k.len() == target_len,
            problem.alphabet@.len() == 1 ==> iterations <= 1,
            problem.alphabet@.len() == 1 && iterations == 1 ==> best_fitness == target_len,
            problem.alphabet@.len() == 1 ==> forall|k: Seq<char>|
                cache.contains_key(k) ==> k == problem.target@,
        decreases usize::MAX - iterations,
    {
        let group = sample(&population, config.tournament_size);
        proof {
            let gdv = group.deep_view();
            assert forall|q: int|
                0 <= q < gdv.len() implies ever.contains(#[trigger] gdv[q]) && gdv[q].len()
                == target_len by {
                assert(population.deep_view().contains(gdv[q]));
                let p = choose|p: int|
                    0 <= p < population.deep_view().len() && population.deep_view()[p] == gdv[q];
                assert(ever.contains(population.deep_view()[p]));
            }
            if problem.alphabet@.len() == 1 {
                lemma_population_uniform(
                    *problem,
                    population.deep_view(),
                    config.population_size as nat,
                );
                assert forall|q: int| 0 <= q < gdv.len() implies #[trigger] gdv[q]
                    == problem.target@ by {
                    assert(population.deep_view().contains(gdv[q]));
                    let p = choose|p: int|
                        0 <= p < population.deep_view().len() && population.deep_view()[p]
                            == gdv[q];
                }
            }
        }
        let (parent, _parent_fit) = best_of(&mut cache, &group);
        proof {
            let gdv = group.deep_view();
            let i = choose|i: int|
                #[trigger] is_first_best(gdv, problem.target@, i) && parent@ == gdv[i];
            assert(population.deep_view().contains(parent@));
            let pi = choose|p: int|
                0 <= p < population.deep_view().len() && population.deep_view()[p] == parent@;
            assert forall|j: int|
                0 <= j < parent@.len() implies problem.alphabet@.contains(
                #[trigger] parent@[j],
            ) by {
                assert(problem.alphabet@.contains(population.deep_view()[pi][j]));
            }
            assert forall|k: Seq<char>|
                cache.contains_key(k) implies ever.contains(k) && k.len() == target_len by {
                if gdv.contains(k) {
                    let q = choose|q: int| 0 <= q < gdv.len() && gdv[q] == k;
                    assert(ever.contains(gdv[q]) && gdv[q].len() == target_len);
                }
            }
            if problem.alphabet@.len() == 1 {
                assert forall|k: Seq<char>| cache.contains_key(k) implies k == problem.target@ by {
                    if gdv.contains(k) {
                        let q = choose|q: int| 0 <= q < gdv.len() && gdv[q] == k;
                    }
                }
                assert(gdv[0] == problem.target@);
                assert(cache.contains_key(problem.target@));
            }
        }
        let child = generate_mutated(
            &problem.alphabet,
            &parent,
            config.mutation_num,
            config.mutation_den,
        );
        proof {
            assert forall|j: int|
                0 <= j < child@.len() implies problem.alphabet@.contains(#[trigger] child@[j]) by {
                assert(child@[j] == parent@[j] || problem.alphabet@.contains(child@[j]));
            }
            ever = ever.insert(child@);
            if problem.alphabet@.len() == 1 {
                lemma_singleton_uniform(*problem, child@);
            }
        }
        best_fitness = replace_and_track(problem, config, &mut population, &mut cache, child);
        iterations = iterations + 1;
        proof {
            assert forall|i: int|
                0 <= i < population.deep_view().len() implies ever.contains(
                #[trigger] population.deep_view()[i],
            ) by {}
            assert forall|k: Seq<char>|
                cache.contains_key(k) implies ever.contains(k) && k.len() == target_len by {}
            if problem.alphabet@.len() == 1 {
                lemma_match_count_self(problem.target@);
                assert(best_fitness as nat >= problem.target@.len());
                assert forall|k: Seq<char>| cache.contains_key(k) implies k == problem.target@ by {}
            }
        }
    }
    proof {
        cache.lemma_keys_have_len_from_contains(problem.target@.len());
        if iterations < usize::MAX {
            assert(cache.contains_fitness(target_len as nat));
            cache.lemma_target_scored();
        }
        cache.lemma_len_bounded_by_key_superset(ever);
        if problem.alphabet@.len() == 1 {
            let s = Set::<Seq<char>>::empty().insert(problem.target@);
            cache.lemma_len_bounded_by_key_superset(s);
        }
    }
    let evaluations = cache.num_entries();
    let end = now_millis();
    let elapsed_millis = if end >= start {
        end - start
    } else {
        0
    };
    (RunResult { iterations, evaluations, elapsed_millis }, cache)
}

/// Population search with tournament selection, uniform crossover, and
/// mutation: each generation, two independently selected tournament winners
/// are recombined position by position, the child is mutated, and it then
/// overwrites the first slot holding the content of a further tournament's
/// worst member. The loop ends when some scored genotype matches the target
/// at every position; it gives up only when the iteration counter reaches
/// `usize::MAX`, and on any earlier exit the cache holds the target-level
/// fitness.
pub fn ga_with_crossover(problem: &Problem, config: &Config) -> (r: (RunResult, FitnessCache))
    requires
        problem.wf(),
        config.wf(),
    ensures
        r.1.wf(),
        r.1.target_view() == problem.target@,
        r.0.evaluations == r.1.len(),
        r.0.evaluations >= 1,
        r.0.evaluations <= config.population_size + r.0.iterations,
        r.1.keys_have_len(problem.target@.len()),
        r.0.iterations >= 1,
        r.0.iterations < usize::MAX ==> r.1.contains_fitness(problem.target@.len() as nat)
            && r.1.contains_key(problem.target@),
        problem.alphabet@.len() == 1 ==> r.0.iterations == 1 && r.0.evaluations == 1,
{
    let start = now_millis();
    let target_len = problem.target.len();
    let mut population = initial_population(problem, config);
    let mut cache = FitnessCache::new(clone_chars(&problem.target));
    let mut best_fitness: usize = 0;
    let mut iterations: usize = 0;
    let ghost mut ever: Set<Seq<char>> = population.deep_view().to_set();
    proof {
        broadcast use vstd::seq_lib::seq_to_set_is_finite;

        population.deep_view().lemma_cardinality_of_set();
        assert forall|i: int|
            0 <= i < population.deep_view().len() implies ever.contains(
            #[trigger] population.deep_view()[i],
        ) by {
            assert(population.deep_view().contains(population.deep_view()[i]));
        }
    }
    while best_fitness < target_len && iterations < usize::MAX
        invariant
            problem.wf(),
            config.wf(),
            cache.wf(),
            cache.target_view() == problem.target@,
            target_len == problem.target@.len(),
            population_wf(
                population.deep_view(),
                config.population_size as nat,
                target_len as nat,
                problem.alphabet@,
            ),
            best_fitness as nat <= target_len as nat,
            best_fitness > 0 ==> cache.contains_fitness(best_fitness as nat),
            iterations > 0 ==> cache.len() >= 1,
            best_fitness > 0 ==> iterations >= 1,
            ever.finite(),
            ever.len() <= config.population_size + iterations,
            forall|k: Seq<char>| cache.contains_key(k) ==> ever.contains(k),
            forall|i: int|
                0 <= i < population.deep_view().len() ==> ever.contains(
                    #[trigger] population.deep_view()[i],
                ),
            forall|k: Seq<char>| cache.contains_key(k) ==> k.len() == target_len,
            problem.alphabet@.len() == 1 ==> iterations <= 1,
            problem.alphabet@.len() == 1 && iterations == 1 ==> best_fitness == target_len,
            problem.alphabet@.len() == 1 ==> forall|k: Seq<char>|
                cache.contains_key(k) ==> k == problem.target@,
        decreases usize::MAX - iterations,
    {
        let group_a = sample(&population, config.tournament_size);
        proof {
            let gdv = group_a.deep_view();
            assert forall|q: int|
                0 <= q < gdv.len() implies ever.contains(#[trigger] gdv[q]) && gdv[q].len()
                == target_len by {
                assert(population.deep_view().contains(gdv[q]));
                let p = choose|p: int|
                    0 <= p < population.deep_view().len() && population.deep_view()[p] == gdv[q];
                assert(ever.contains(population.deep_view()[p]));
            }
            if problem.alphabet@.len() == 1 {
                lemma_population_uniform(
                    *problem,
                    population.deep_view(),
                    config.population_size as nat,
                );
                assert forall|q: int| 0 <= q < gdv.len() implies #[trigger] gdv[q]
                    == problem.target@ by {
                    assert(population.deep_view().contains(gdv[q]));
                    let p = choose|p: int|
                        0 <= p < population.deep_view().len() && population.deep_view()[p]
                            == gdv[q];
                }
            }
        }
        let (parent_a, _fit_a) = best_of(&mut cache, &group_a);
        proof {
            let gdv = group_a.deep_view();
            let i = choose|i: int|
                #[trigger] is_first_best(gdv, problem.target@, i) && parent_a@ == gdv[i];
            assert(population.deep_view().contains(parent_a@));
            let pi = choose|p: int|
                0 <= p < population.deep_view().len() && population.deep_view()[p] == parent_a@;
            assert forall|j: int|
                0 <= j < parent_a@.len() implies problem.alphabet@.contains(
                #[trigger] parent_a@[j],
            ) by {
                assert(problem.alphabet@.contains(population.deep_view()[pi][j]));
            }
            assert forall|k: Seq<char>|
                cache.contains_key(k) implies ever.contains(k) && k.len() == target_len by {
                if gdv.contains(k) {
                    let q = choose|q: int| 0 <= q < gdv.len() && gdv[q] == k;
                    assert(ever.contains(gdv[q]) && gdv[q].len() == target_len);
                }
            }
            if problem.alphabet@.len() == 1 {
                assert forall|k: Seq<char>| cache.contains_key(k) implies k == problem.target@ by {
                    if gdv.contains(k) {
                        let q = choose|q: int| 0 <= q < gdv.len() && gdv[q] == k;
                    }
                }
                assert(gdv[0] == problem.target@);
                assert(cache.contains_key(problem.target@));
            }
        }
        let group_b = sample(&population, config.tournament_size);
        proof {
            let gdv = group_b.deep_view();
            assert forall|q: int|
                0 <= q < gdv.len() implies ever.contains(#[trigger] gdv[q]) && gdv[q].len()
                == target_len by {
                assert(population.deep_view().contains(gdv[q]));
                let p = choose|p: int|
                    0 <= p < population.deep_view().len() && population.deep_view()[p] == gdv[q];
                assert(ever.contains(population.deep_view()[p]));
            }
            if problem.alphabet@.len() == 1 {
                assert forall|q: int| 0 <= q < gdv.len() implies #[trigger] gdv[q]
                    == problem.target@ by {
                    assert(population.deep_view().contains(gdv[q]));
                    let p = choose|p: int|
                        0 <= p < population.deep_view().len() && population.deep_view()[p]
                            == gdv[q];
                }
            }
        }
        let (parent_b, _fit_b) = best_of(&mut cache, &group_b);
        proof {
            let gdv = group_b.deep_view();
            let i = choose|i: int|
                #[trigger] is_first_best(gdv, problem.target@, i) && parent_b@ == gdv[i];
            assert(population.deep_view().contains(parent_b@));
            let pi = choose|p: int|
                0 <= p < population.deep_view().len() && population.deep_view()[p] == parent_b@;
            assert forall|j: int|
                0 <= j < parent_b@.len() implies problem.alphabet@.contains(
                #[trigger] parent_b@[j],
            ) by {
                assert(problem.alphabet@.contains(population.deep_view()[pi][j]));
            }
            assert forall|k: Seq<char>|
                cache.contains_key(k) implies ever.contains(k) && k.len() == target_len by {
                if gdv.contains(k) {
                    let q = choose|q: int| 0 <= q < gdv.len() && gdv[q] == k;
                    assert(ever.contains(gdv[q]) && gdv[q].len() == target_len);
                }
            }
            if problem.alphabet@.len() == 1 {
                assert forall|k: Seq<char>| cache.contains_key(k) implies k == problem.target@ by {
                    if gdv.contains(k) {
                        let q = choose|q: int| 0 <= q < gdv.len() && gdv[q] == k;
                    }
                }
                assert(cache.contains_key(problem.target@));
            }
        }
        let crossed = generate_crossover(&parent_a, &parent_b);
        let child = generate_mutated(
            &problem.alphabet,
            &crossed,
            config.mutation_num,
            config.mutation_den,
        );
        proof {
            assert forall|j: int|
                0 <= j < child@.len() implies problem.alphabet@.contains(#[trigger] child@[j]) by {
                assert(crossed@[j] == parent_a@[j] || crossed@[j] == parent_b@[j]);
            }
            ever = ever.insert(child@);
            if problem.alphabet@.len() == 1 {
                lemma_singleton_uniform(*problem, child@);
            }
        }
        best_fitness = replace_and_track(problem, config, &mut population, &mut cache, child);
        iterations = iterations + 1;
        proof {
            assert forall|i: int|
                0 <= i < population.deep_view().len() implies ever.contains(
                #[trigger] population.deep_view()[i],
            ) by {}
            assert forall|k: Seq<char>|
                cache.contains_key(k) implies ever.contains(k) && k.len() == target_len by {}
            if problem.alphabet@.len() == 1 {
                lemma_match_count_self(problem.target@);
                assert(best_fitness as nat >= problem.target@.len());
                assert forall|k: Seq<char>| cache.contains_key(k) implies k == problem.target@ by {}
            }
        }
    }
    proof {
        cache.lemma_keys_have_len_from_contains(problem.target@.len());
        if iterations < usize::MAX {
            assert(cache.contains_fitness(target_len as nat));
            cache.lemma_target_scored();
        }
        cache.lemma_len_bounded_by_key_superset(ever);
        if problem.alphabet@.len() == 1 {
            let s = Set::<Seq<char>>::empty().insert(problem.target@);
            cache.lemma_len_bounded_by_key_superset(s);
        }
    }
    let evaluations = cache.num_entries();
    let end = now_millis();
    let elapsed_millis = if end >= start {
        end - start
    } else {
        0
    };
    (RunResult { iterations, evaluations, elapsed_millis }, cache)
}

/// The population sizes the first experiment sweeps over.
pub open spec fn question1_sizes() -> Seq<usize> {
    seq![10usize, 50usize, 100usize, 250usize, 500usize, 1000usize]
}

/// First experiment: how does population size affect the number of distinct
/// genotypes scored? For each size in the ladder, both genetic algorithms run
/// on the default problem with the default mutation rate and tournaments of
/// 10. Returns the sizes, the crossover GA's evaluation counts, and the
/// tournament GA's evaluation counts, index for index.
pub fn question1() -> (r: (Vec<usize>, Vec<usize>, Vec<usize>))
    ensures
        r.0@ == question1_sizes(),
        r.1@.len() == r.0@.len(),
        r.2@.len() == r.0@.len(),
        forall|i: int| 0 <= i < r.1@.len() ==> #[trigger] r.1@[i] >= 1,
        forall|i: int| 0 <= i < r.2@.len() ==> #[trigger] r.2@[i] >= 1,
{
    let problem = crate::config::default_problem();
    let mut sizes: Vec<usize> = Vec::new();
    sizes.push(10);
    sizes.push(50);
    sizes.push(100);
    sizes.push(250);
    sizes.push(500);
    sizes.push(1000);
    proof {
        assert(sizes@ =~= question1_sizes());
    }
    let mut crossover_evals: Vec<usize> = Vec::new();
    let mut tournament_evals: Vec<usize> = Vec::new();
    let mut i: usize = 0;
    while i < sizes.len()
        invariant
            problem.wf(),
            sizes@ == question1_sizes(),
            i <= sizes@.len(),
            crossover_evals@.len() == i,
            tournament_evals@.len() == i,
            forall|j: int| 0 <= j < i ==> #[trigger] crossover_evals@[j] >= 1,
            forall|j: int| 0 <= j < i ==> #[trigger] tournament_evals@[j] >= 1,
        decreases sizes@.len() - i,
    {
        let population_size = sizes[i];
        proof {
            assert(population_size >= 10);
        }
        let config = Config {
            population_size,
            mutation_num: 1,
            mutation_den: problem.target.len(),
            tournament_size: 10,
        };
        let (crossover_result, _) = ga_with_crossover(&problem, &config);
        crossover_evals.push(crossover_result.evaluations);
        let (tournament_result, _) = ga_with_tournament_selection(&problem, &config);
        tournament_evals.push(tournament_result.evaluations);
        i = i + 1;
    }
    (sizes, crossover_evals, tournament_evals)
}

/// The mutation-rate numerators the second experiment sweeps over; entry `m`
/// stands for the rate `m / (10 * L)` with `L` the default target's length,
/// i.e. the multiples 0.1, 0.2, 0.5, 1, 2 and 5 of `1 / L`.
pub open spec fn question2_rate_numerators() -> Seq<usize> {
    seq![1usize, 2usize, 5usize, 10usize, 20usize, 50usize]
}

/// Second experiment: how does the mutation rate affect the number of
/// distinct genotypes scored? For each rate in the ladder, both genetic
/// algorithms run on the default problem with the default population size of
/// 100 and tournaments of 10. Returns the rate numerators (over the
/// denominator ten times the target's length), the crossover GA's evaluation
/// counts, and the tournament GA's evaluation counts, index for index.
pub fn question2() -> (r: (Vec<usize>, Vec<usize>, Vec<usize>))
    ensures
        r.0@ == question2_rate_numerators(),
        r.1@.len() == r.0@.len(),
        r.2@.len() == r.0@.len(),
        forall|i: int| 0 <= i < r.1@.len() ==> #[trigger] r.1@[i] >= 1,
        forall|i: int| 0 <= i < r.2@.len() ==> #[trigger] r.2@[i] >= 1,
{
    let problem = crate::config::default_problem();
    proof {
        reveal_strlit("methinks it is like a weasel");
        assert(problem.target@.len() == 28);
    }
    let mutation_den = 10 * problem.target.len();
    let mut numerators: Vec<usize> = Vec::new();
    numerators.push(1);
    numerators.push(2);
    numerators.push(5);
    numerators.push(10);
    numerators.push(20);
    numerators.push(50);
    proof {
        assert(numerators@ =~= question2_rate_numerators());
    }
    let mut crossover_evals: Vec<usize> = Vec::new();
    let mut tournament_evals: Vec<usize> = Vec::new();
    let mut i: usize = 0;
    while i < numerators.len()
        invariant
            problem.wf(),
            numerators@ == question2_rate_numerators(),
            mutation_den == 280,
            i <= numerators@.len(),
            crossover_evals@.len() == i,
            tournament_evals@.len() == i,
            forall|j: int| 0 <= j < i ==> #[trigger] crossover_evals@[j] >= 1,
            forall|j: int| 0 <= j < i ==> #[trigger] tournament_evals@[j] >= 1,
        decreases numerators@.len() - i,
    {
        let mutation_num = numerators[i];
        proof {
            assert(mutation_num <= 50);
        }
        let config = Config {
            population_size: 100,
            mutation_num,
            mutation_den,
            tournament_size: 10,
        };
        let (crossover_result, _) = ga_with_crossover(&problem, &config);
        crossover_evals.push(crossover_result.evaluations);
        let (tournament_result, _) = ga_with_tournament_selection(&problem, &config);
        tournament_evals.push(tournament_result.evaluations);
        i = i + 1;
    }
    (numerators, crossover_evals, tournament_evals)
}

/// A fresh population of `population_size` random individuals of the
/// target's length.
fn initial_population(problem: &Problem, config: &Config) -> (r: Vec<Vec<char>>)
    requires
        problem.wf(),
        config.wf(),
    ensures
        population_wf(
            r.deep_view(),
            config.population_size as nat,
            problem.target@.len(),
            problem.alphabet@,
        ),
{
    let target_len = problem.target.len();
    let mut population: Vec<Vec<char>> = Vec::new();
    let mut p: usize = 0;
    while p < config.population_size
        invariant
            problem.wf(),
            target_len == problem.target@.len(),
            p <= config.population_size,
            population@.len() == p,
            forall|i: int|
                0 <= i < population@.len() ==> (#[trigger] population@[i])@.len() == target_len,
            forall|i: int, j: int|
                0 <= i < population@.len() && 0 <= j < population@[i]@.len()
                    ==> problem.alphabet@.contains(#[trigger] population@[i]@[j]),
        decreases config.population_size - p,
    {
        population.push(generate_random_string(&problem.alphabet, target_len));
        p = p + 1;
    }
    proof {
        assert forall|i: int|
            0 <= i < population.deep_view().len() implies (#[trigger] population.deep_view()[i]).len()
            == target_len by {
            assert(population.deep_view()[i] =~= population@[i]@);
        }
        assert forall|i: int, j: int|
            0 <= i < population.deep_view().len() && 0 <= j < population.deep_view()[i].len()
            implies problem.alphabet@.contains(#[trigger] population.deep_view()[i][j]) by {
            assert(population.deep_view()[i] =~= population@[i]@);
            assert(problem.alphabet@.contains(population@[i]@[j]));
        }
    }
    population
}

} // verus!
