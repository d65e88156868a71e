//! The immutable data a run is configured with: the search problem (alphabet
//! and target), the algorithm parameters, and the record a run returns.

use vstd::prelude::*;
use vstd::string::StrSliceExecFns;

verus! {

/// The search problem: a fixed alphabet of symbols and the target string the
/// search is to reproduce, both immutable for a run's lifetime.
pub struct Problem {
    pub alphabet: Vec<char>,
    pub target: Vec<char>,
}

impl Problem {
    /// The alphabet is nonempty, the target is nonempty, and every target
    /// symbol is drawn from the alphabet.
    pub open spec fn wf(self) -> bool {
        &&& self.alphabet@.len() > 0
        &&& self.target@.len() > 0
        &&& forall|i: int|
            0 <= i < self.target@.len() ==> alphabet_has(self.alphabet@, #[trigger] self.target@[i])
    }

    /// Builds a problem, rejecting an empty alphabet, an empty target, or a
    /// target symbol outside the alphabet.
    pub fn new(alphabet: Vec<char>, target: Vec<char>) -> (r: Option<Problem>)
        ensures
            r is Some <==> (alphabet@.len() > 0 && target@.len() > 0 && forall|i: int|
                0 <= i < target@.len() ==> alphabet_has(alphabet@, #[trigger] target@[i])),
            r is Some ==> r.unwrap().alphabet@ == alphabet@ && r.unwrap().target@ == target@
                && r.unwrap().wf(),
    {
        if alphabet.len() == 0 || target.len() == 0 {
            return None;
        }
        let mut i: usize = 0;
        while i < target.len()
            invariant
                i <= target@.len(),
                forall|j: int| 0 <= j < i ==> alphabet_has(alphabet@, #[trigger] target@[j]),
            decreases target@.len() - i,
        {
            if !contains_char(&alphabet, target[i]) {
                return None;
            }
            i = i + 1;
        }
        Some(Problem { alphabet, target })
    }
}

/// Whether `c` occurs in `s`.
pub open spec fn alphabet_has(s: Seq<char>, c: char) -> bool {
    s.contains(c)
}

/// True exactly when `c` occurs in `v`.
pub fn contains_char(v: &Vec<char>, c: char) -> (r: bool)
    ensures
        r <==> alphabet_has(v@, c),
{
    let mut i: usize = 0;
    while i < v.len()
        invariant
            i <= v@.len(),
            forall|j: int| 0 <= j < i ==> v@[j] != c,
        decreases v@.len() - i,
    {
        if v[i] == c {
            proof {
                assert(v@[i as int] == c);
            }
            return true;
        }
        i = i + 1;
    }
    false
}

/// Algorithm parameters. The mutation rate is the rational
/// `mutation_num / mutation_den`, a probability in [0, 1].
#[derive(Clone, Copy, Debug, PartialEq, Eq, Structural)]
pub struct Config {
    pub population_size: usize,
    pub mutation_num: usize,
    pub mutation_den: usize,
    pub tournament_size: usize,
}

/// Why a configuration was rejected.
#[derive(Clone, Copy, Debug, PartialEq, Eq, Structural)]
pub enum ConfigError {
    /// The population must hold at least one individual.
    ZeroPopulationSize,
    /// The tournament must draw at least one individual and no more than the
    /// population holds (sampling is without replacement).
    InvalidTournamentSize,
    /// The mutation rate must be a probability: denominator positive,
    /// numerator no greater than the denominator.
    InvalidMutationRate,
}

impl Config {
    /// The population is nonempty, the tournament fits inside it, and the
    /// mutation rate is a well-formed probability.
    pub open spec fn wf(self) -> bool {
        &&& self.population_size >= 1
        &&& 1 <= self.tournament_size <= self.population_size
        &&& self.mutation_den >= 1
        &&& self.mutation_num <= self.mutation_den
    }

    /// Validates and builds a configuration, failing fast exactly when the
    /// population is empty, the tournament size is zero or exceeds the
    /// population, or the mutation rate is not a probability.
    pub fn new(
        population_size: usize,
        mutation_num: usize,
        mutation_den: usize,
        tournament_size: usize,
    ) -> (r: Result<Config, ConfigError>)
        ensures
            r is Ok <==> (Config { population_size, mutation_num, mutation_den, tournament_size }).wf(),
            r is Ok ==> r.unwrap() == (Config {
                population_size,
                mutation_num,
                mutation_den,
                tournament_size,
            }),
            population_size == 0 ==> r == Err::<Config, ConfigError>(
                ConfigError::ZeroPopulationSize,
            ),
            population_size >= 1 && (tournament_size == 0 || tournament_size > population_size)
                ==> r == Err::<Config, ConfigError>(ConfigError::InvalidTournamentSize),
            population_size >= 1 && 1 <= tournament_size <= population_size && (mutation_den == 0
                || mutation_num > mutation_den) ==> r == Err::<Config, ConfigError>(
                ConfigError::InvalidMutationRate,
            ),
    {
        if population_size == 0 {
            Err(ConfigError::ZeroPopulationSize)
        } else if tournament_size == 0 || tournament_size > population_size {
            Err(ConfigError::InvalidTournamentSize)
        } else if mutation_den == 0 || mutation_num > mutation_den {
            Err(ConfigError::InvalidMutationRate)
        } else {
            Ok(Config { population_size, mutation_num, mutation_den, tournament_size })
        }
    }
}

impl Default for Config {
    /// The default parameters: a population of 100, a mutation rate of one
    /// over the default target's length, and tournaments of 10.
    fn default() -> (r: Config)
        ensures
            r.population_size == 100,
            r.mutation_num == 1,
            r.mutation_den == default_target_view().len(),
            r.tournament_size == 10,
            r.wf(),
    {
        proof {
            reveal_strlit("methinks it is like a weasel");
        }
        Config { population_size: 100, mutation_num: 1, mutation_den: 28, tournament_size: 10 }
    }
}

/// The default goal string, as a sequence of symbols.
pub open spec fn default_target_view() -> Seq<char> {
    "methinks it is like a weasel"@
}

/// The default alphabet, as a sequence of symbols.
pub open spec fn default_alphabet_view() -> Seq<char> {
    "abcdefghijklmnopqrstuvwxyz "@
}

/// The default goal string.
pub fn default_target_text() -> (s: &'static str)
    ensures
        s@ == default_target_view(),
        s@.len() == 28,
{
    proof {
        reveal_strlit("methinks it is like a weasel");
    }
    "methinks it is like a weasel"
}

/// The default alphabet: the lowercase letters and the space.
pub fn default_alphabet_text() -> (s: &'static str)
    ensures
        s@ == default_alphabet_view(),
        s@.len() == 27,
{
    proof {
        reveal_strlit("abcdefghijklmnopqrstuvwxyz ");
    }
    "abcdefghijklmnopqrstuvwxyz "
}

/// The characters of `s`, as a vector.
pub fn str_to_chars(s: &str) -> (r: Vec<char>)
    ensures
        r@ == s@,
{
    let n = s.unicode_len();
    let mut r: Vec<char> = Vec::new();
    let mut i: usize = 0;
    while i < n
        invariant
            i <= n,
            n == s@.len(),
            r@ == s@.take(i as int),
        decreases n - i,
    {
        r.push(s.get_char(i));
        proof {
            assert(s@.take(i as int).push(s@[i as int]) =~= s@.take(i as int + 1));
        }
        i = i + 1;
    }
    proof {
        assert(s@.take(n as int) =~= s@);
    }
    r
}

/// The default problem: the default target over the default alphabet.
pub fn default_problem() -> (r: Problem)
    ensures
        r.wf(),
        r.target@ == default_target_view(),
        r.alphabet@ == default_alphabet_view(),
{
    proof {
        reveal_strlit("methinks it is like a weasel");
        reveal_strlit("abcdefghijklmnopqrstuvwxyz ");
    }
    let alphabet = str_to_chars(default_alphabet_text());
    let target = str_to_chars(default_target_text());
    proof {
        assert forall|i: int|
            0 <= i < target@.len() implies alphabet_has(alphabet@, #[trigger] target@[i]) by {
            let c = target@[i];
            let a = alphabet@;
            assert(c == 'm' || c == 'e' || c == 't' || c == 'h' || c == 'i' || c == 'n' || c == 'k'
                || c == 's' || c == ' ' || c == 'l' || c == 'a' || c == 'w');
            assert(a[0] == 'a' && a[4] == 'e' && a[7] == 'h' && a[8] == 'i' && a[10] == 'k' && a[11]
                == 'l' && a[12] == 'm' && a[13] == 'n' && a[18] == 's' && a[19] == 't' && a[22]
                == 'w' && a[26] == ' ');
        }
    }
    Problem { alphabet, target }
}

/// What a completed run reports: how many generations or mutation attempts
/// were executed, how many distinct genotypes were scored (the fitness
/// cache's final size), and the wall-clock time taken, in milliseconds.
#[derive(Clone, Copy, Debug)]
pub struct RunResult {
    pub iterations: usize,
    pub evaluations: usize,
    pub elapsed_millis: u64,
}

} // verus!
