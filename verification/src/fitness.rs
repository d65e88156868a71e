//! Fitness of an individual against a target string, and the cache that
//! memoizes it so each distinct genotype is scored at most once per run.

use vstd::prelude::*;

verus! {

/// Number of positions at which `x` and `t` hold the same symbol, counting
/// only positions that exist in both (the shorter sequence bounds the count).
pub open spec fn match_count(x: Seq<char>, t: Seq<char>) -> nat
    decreases x.len(),
{
    if x.len() == 0 || t.len() == 0 {
        0
    } else {
        (if x[0] == t[0] {
            1nat
        } else {
            0nat
        }) + match_count(x.drop_first(), t.drop_first())
    }
}

/// The match count never exceeds either length.
pub proof fn lemma_match_count_le(x: Seq<char>, t: Seq<char>)
    ensures
        match_count(x, t) <= x.len(),
        match_count(x, t) <= t.len(),
    decreases x.len(),
{
    if x.len() == 0 || t.len() == 0 {
    } else {
        lemma_match_count_le(x.drop_first(), t.drop_first());
    }
}

/// A sequence matched against itself matches at every position: the fitness
/// of the target is exactly its length, never exceeded.
pub proof fn lemma_match_count_self(t: Seq<char>)
    ensures
        match_count(t, t) == t.len(),
    decreases t.len(),
{
    if t.len() == 0 {
    } else {
        lemma_match_count_self(t.drop_first());
    }
}

/// A sequence of the target's length that matches it at every position is
/// the target: full fitness pins the content.
pub proof fn lemma_match_count_full(x: Seq<char>, t: Seq<char>)
    requires
        x.len() == t.len(),
        match_count(x, t) == t.len(),
    ensures
        x == t,
    decreases t.len(),
{
    if t.len() == 0 {
        assert(x =~= t);
    } else {
        lemma_match_count_le(x.drop_first(), t.drop_first());
        assert(x[0] == t[0]);
        lemma_match_count_full(x.drop_first(), t.drop_first());
        assert forall|i: int| 0 <= i < x.len() implies x[i] == t[i] by {
            if i > 0 {
                assert(x.drop_first()[i - 1] == t.drop_first()[i - 1]);
            }
        }
        assert(x =~= t);
    }
}

/// Per-position match count of `individual` against `target`.
pub fn fitness_score(individual: &Vec<char>, target: &Vec<char>) -> (r: usize)
    ensures
        r as nat == match_count(individual@, target@),
{
    let n = if individual.len() < target.len() {
        individual.len()
    } else {
        target.len()
    };
    let mut count: usize = 0;
    let mut i: usize = 0;
    proof {
        assert(individual@.skip(0) =~= individual@);
        assert(target@.skip(0) =~= target@);
    }
    while i < n
        invariant
            i <= n,
            n <= individual@.len(),
            n <= target@.len(),
            count <= i,
            count + match_count(individual@.skip(i as int), target@.skip(i as int)) == match_count(
                individual@,
                target@,
            ),
        decreases n - i,
    {
        proof {
            let xs = individual@.skip(i as int);
            let ts = target@.skip(i as int);
            assert(xs[0] == individual@[i as int]);
            assert(ts[0] == target@[i as int]);
            assert(xs.drop_first() =~= individual@.skip(i as int + 1));
            assert(ts.drop_first() =~= target@.skip(i as int + 1));
        }
        if individual[i] == target[i] {
            count = count + 1;
        }
        i = i + 1;
    }
    proof {
        if individual@.len() <= target@.len() {
            assert(individual@.skip(n as int).len() == 0);
        } else {
            assert(target@.skip(n as int).len() == 0);
        }
    }
    count
}

/// True exactly when the two vectors hold the same characters in the same order.
pub fn chars_eq(a: &Vec<char>, b: &Vec<char>) -> (r: bool)
    ensures
        r <==> a@ == b@,
{
    if a.len() != b.len() {
        return false;
    }
    let mut i: usize = 0;
    while i < a.len()
        invariant
            i <= a@.len(),
            a@.len() == b@.len(),
            forall|j: int| 0 <= j < i ==> a@[j] == b@[j],
        decreases a@.len() - i,
    {
        if a[i] != b[i] {
            return false;
        }
        i = i + 1;
    }
    proof {
        assert(a@ =~= b@);
    }
    true
}

/// Memoizing fitness evaluator: maps each genotype ever scored to its match
/// count against the fixed target. Keys are unique and a key's value never
/// changes after insertion, so the number of entries is the number of
/// distinct genotypes scored.
pub struct FitnessCache {
    target: Vec<char>,
    entries: Vec<(Vec<char>, usize)>,
}

impl FitnessCache {
    /// The target the cache scores against.
    pub closed spec fn target_view(self) -> Seq<char> {
        self.target@
    }

    /// Number of distinct genotypes scored so far.
    pub closed spec fn len(self) -> nat {
        self.entries@.len()
    }

    /// The genotype stored at entry `i`.
    pub closed spec fn key_at(self, i: int) -> Seq<char> {
        self.entries@[i].0@
    }

    /// The fitness stored at entry `i`.
    pub closed spec fn fitness_at(self, i: int) -> nat {
        self.entries@[i].1 as nat
    }

    /// Whether `k` has been scored.
    pub open spec fn contains_key(self, k: Seq<char>) -> bool {
        exists|i: int| 0 <= i < self.len() && self.key_at(i) == k
    }

    /// Whether some scored genotype has fitness `f`.
    pub open spec fn contains_fitness(self, f: nat) -> bool {
        exists|i: int| 0 <= i < self.len() && self.fitness_at(i) == f
    }

    /// Every entry holds the true match count of its key, and keys are unique.
    pub open spec fn wf(self) -> bool {
        &&& forall|i: int|
            0 <= i < self.len() ==> #[trigger] self.fitness_at(i) == match_count(
                self.key_at(i),
                self.target_view(),
            )
        &&& forall|i: int, j: int|
            0 <= i < j < self.len() ==> #[trigger] self.key_at(i) != #[trigger] self.key_at(j)
    }

    /// A fresh, empty cache for the given target.
    pub fn new(target: Vec<char>) -> (r: FitnessCache)
        ensures
            r.wf(),
            r.len() == 0,
            r.target_view() == target@,
    {
        FitnessCache { target, entries: Vec::new() }
    }

    /// Number of distinct genotypes scored so far.
    pub fn num_entries(&self) -> (n: usize)
        ensures
            n as nat == self.len(),
    {
        self.entries.len()
    }

    /// Fitness of `x`: on the first call for a given content the match count
    /// is computed and inserted; on repeat calls the cached value is returned
    /// and the cache does not grow.
    pub fn score(&mut self, x: &Vec<char>) -> (r: usize)
        requires
            old(self).wf(),
        ensures
            score_post(*old(self), *final(self), x@, r as nat),
            final(self).wf(),
            final(self).target_view() == old(self).target_view(),
            r as nat == match_count(x@, old(self).target_view()),
            final(self).contains_key(x@),
            forall|k: Seq<char>|
                final(self).contains_key(k) <==> old(self).contains_key(k) || k == x@,
            old(self).contains_key(x@) ==> final(self).len() == old(self).len(),
            !old(self).contains_key(x@) ==> final(self).len() == old(self).len() + 1,
    {
        let mut i: usize = 0;
        while i < self.entries.len()
            invariant
                self == old(self),
                old(self).wf(),
                i <= self.entries@.len(),
                forall|j: int| 0 <= j < i ==> old(self).key_at(j) != x@,
            decreases self.entries@.len() - i,
        {
            if chars_eq(&self.entries[i].0, x) {
                proof {
                    assert(self.key_at(i as int) == x@);
                    assert(self.fitness_at(i as int) == match_count(
                        self.key_at(i as int),
                        self.target_view(),
                    ));
                    assert(self.contains_key(x@));
                }
                return self.entries[i].1;
            }
            i = i + 1;
        }
        let f = fitness_score(x, &self.target);
        let key = clone_chars(x);
        self.entries.push((key, f));
        proof {
            let n = old(self).len() as int;
            assert(self.len() == n + 1);
            assert(self.key_at(n) == x@);
            assert(self.fitness_at(n) == match_count(x@, self.target_view()));
            assert forall|i: int| 0 <= i < self.len() implies #[trigger] self.fitness_at(i)
                == match_count(self.key_at(i), self.target_view()) by {
                if i < n {
                    assert(self.key_at(i) == old(self).key_at(i));
                    assert(self.fitness_at(i) == old(self).fitness_at(i));
                    assert(old(self).fitness_at(i) == match_count(
                        old(self).key_at(i),
                        old(self).target_view(),
                    ));
                }
            }
            assert forall|i: int, j: int| 0 <= i < j < self.len() implies #[trigger] self.key_at(i)
                != #[trigger] self.key_at(j) by {
                if j < n {
                    assert(old(self).key_at(i) != old(self).key_at(j));
                } else {
                    assert(self.key_at(j) == x@);
                    assert(old(self).key_at(i) != x@);
                }
            }
            assert forall|k: Seq<char>|
                self.contains_key(k) <==> old(self).contains_key(k) || k == x@ by {
                if old(self).contains_key(k) {
                    let j = choose|j: int| 0 <= j < old(self).len() && old(self).key_at(j) == k;
                    assert(self.key_at(j) == k);
                }
                if self.contains_key(k) {
                    let j = choose|j: int| 0 <= j < self.len() && self.key_at(j) == k;
                    if j < n {
                        assert(old(self).key_at(j) == k);
                    }
                }
            }
        }
        f
    }

    /// Largest fitness recorded so far, or 0 when nothing has been scored.
    pub fn max_value(&self) -> (m: usize)
        ensures
            self.len() == 0 ==> m == 0,
            self.len() > 0 ==> self.contains_fitness(m as nat),
            forall|i: int| 0 <= i < self.len() ==> #[trigger] self.fitness_at(i) <= m as nat,
    {
        let mut m: usize = 0;
        let mut i: usize = 0;
        let mut found = false;
        while i < self.entries.len()
            invariant
                i <= self.entries@.len(),
                !found ==> m == 0 && i == 0,
                found ==> i > 0 && self.contains_fitness(m as nat),
                forall|j: int| 0 <= j < i ==> #[trigger] self.fitness_at(j) <= m as nat,
            decreases self.entries@.len() - i,
        {
            if !found || self.entries[i].1 > m {
                m = self.entries[i].1;
                found = true;
                proof {
                    assert(self.fitness_at(i as int) == m as nat);
                }
            }
            i = i + 1;
        }
        m
    }

    /// Every recorded fitness is bounded by the target's length.
    pub proof fn lemma_fitness_bounded(self, f: nat)
        requires
            self.wf(),
            self.contains_fitness(f),
        ensures
            f <= self.target_view().len(),
    {
        let i = choose|i: int| 0 <= i < self.len() && self.fitness_at(i) == f;
        lemma_match_count_le(self.key_at(i), self.target_view());
    }

    /// Every key has length `n`.
    pub open spec fn keys_have_len(self, n: nat) -> bool {
        forall|i: int| 0 <= i < self.len() ==> (#[trigger] self.key_at(i)).len() == n
    }

    /// The key-length bound in its existential form implies it entry by
    /// entry.
    pub proof fn lemma_keys_have_len_from_contains(self, n: nat)
        requires
            forall|k: Seq<char>| self.contains_key(k) ==> k.len() == n,
        ensures
            self.keys_have_len(n),
    {
        assert forall|i: int| 0 <= i < self.len() implies (#[trigger] self.key_at(i)).len()
            == n by {
            assert(self.contains_key(self.key_at(i)));
        }
    }

    /// Where every key has the target's length and some entry records the
    /// target-level fitness, the target's own content has been scored.
    pub proof fn lemma_target_scored(self)
        requires
            self.wf(),
            self.keys_have_len(self.target_view().len()),
            self.contains_fitness(self.target_view().len()),
        ensures
            self.contains_key(self.target_view()),
    {
        let i = choose|i: int|
            0 <= i < self.len() && self.fitness_at(i) == self.target_view().len();
        lemma_match_count_full(self.key_at(i), self.target_view());
    }

    /// Keys are unique, so a finite set holding every key bounds the
    /// cache's size.
    pub proof fn lemma_len_bounded_by_key_superset(self, s: Set<Seq<char>>)
        requires
            self.wf(),
            s.finite(),
            forall|k: Seq<char>| self.contains_key(k) ==> s.contains(k),
        ensures
            self.len() <= s.len(),
    {
        let ks = self.entries@.map_values(|e: (Vec<char>, usize)| e.0@);
        assert forall|i: int, j: int|
            0 <= i < ks.len() && 0 <= j < ks.len() && i != j implies ks[i] != ks[j] by {
            if i < j {
                assert(self.key_at(i) != self.key_at(j));
            } else {
                assert(self.key_at(j) != self.key_at(i));
            }
        }
        ks.unique_seq_to_set();
        assert forall|k: Seq<char>| ks.to_set().contains(k) implies s.contains(k) by {
            let i = choose|i: int| 0 <= i < ks.len() && ks[i] == k;
            assert(self.key_at(i) == k);
            assert(self.contains_key(k));
        }
        vstd::set_lib::lemma_len_subset(ks.to_set(), s);
    }

    /// A scored genotype's match count is recorded as some entry's fitness.
    pub proof fn lemma_key_fitness(self, k: Seq<char>)
        requires
            self.wf(),
            self.contains_key(k),
        ensures
            self.contains_fitness(match_count(k, self.target_view())),
    {
        let i = choose|i: int| 0 <= i < self.len() && self.key_at(i) == k;
        assert(self.fitness_at(i) == match_count(k, self.target_view()));
    }
}

/// What one `score` call does: how the cache after the call (`post`) relates
/// to the cache before it (`pre`), the genotype scored, and the fitness
/// returned.
pub open spec fn score_post(pre: FitnessCache, post: FitnessCache, x: Seq<char>, r: nat) -> bool {
    &&& post.wf()
    &&& post.target_view() == pre.target_view()
    &&& r == match_count(x, pre.target_view())
    &&& post.contains_key(x)
    &&& forall|k: Seq<char>| post.contains_key(k) <==> pre.contains_key(k) || k == x
    &&& (pre.contains_key(x) ==> post.len() == pre.len())
    &&& (!pre.contains_key(x) ==> post.len() == pre.len() + 1)
}

/// Memoization law: scoring the same genotype twice in succession returns
/// the same fitness both times — fitness is a pure function of content — and
/// across the two calls the cache grows by at most one entry; the second
/// call, and every later one for that content, leaves the cache's size
/// unchanged, so repeated scoring never grows the cache beyond the first
/// insertion.
pub proof fn lemma_score_memoized(
    c0: FitnessCache,
    c1: FitnessCache,
    c2: FitnessCache,
    x: Seq<char>,
    r1: nat,
    r2: nat,
)
    requires
        score_post(c0, c1, x, r1),
        score_post(c1, c2, x, r2),
    ensures
        r1 == r2,
        c2.len() <= c0.len() + 1,
        c2.len() == c1.len(),
{
}

/// Element-for-element copy of a character vector.
pub fn clone_chars(x: &Vec<char>) -> (r: Vec<char>)
    ensures
        r@ == x@,
{
    let mut r: Vec<char> = Vec::new();
    let mut i: usize = 0;
    while i < x.len()
        invariant
            i <= x@.len(),
            r@ == x@.take(i as int),
        decreases x@.len() - i,
    {
        r.push(x[i]);
        proof {
            assert(x@.take(i as int).push(x@[i as int]) =~= x@.take(i as int + 1));
        }
        i = i + 1;
    }
    proof {
        assert(x@.take(x@.len() as int) =~= x@);
    }
    r
}

} // verus!
