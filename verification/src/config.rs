//! The run configuration and the enumeration-and-ranking core.

use crate::ring::{modular_distance, ring_add, ring_sub, spec_distance};
use vstd::arithmetic::div_mod::{
    lemma_add_mod_noop_right, lemma_div_basics_2, lemma_div_denominator,
    lemma_fundamental_div_mod, lemma_mod_bound, lemma_mod_decreases, lemma_small_mod,
    lemma_sub_mod_noop, lemma_sub_mod_noop_right,
};
use vstd::arithmetic::mul::lemma_mul_inequality;
use vstd::arithmetic::power::{
    lemma1_pow, lemma_pow0, lemma_pow1, lemma_pow_adds, lemma_pow_increases, lemma_pow_positive,
    lemma_square_is_pow2, pow,
};
use vstd::prelude::*;

verus! {

/// One run's immutable inputs: the ring bounds, the search radius, the base
/// combination, and the caller's choice of output shape.
pub struct Config {
    /// Inclusive lower bound of the ring.
    pub min: u64,
    /// Inclusive upper bound of the ring.
    pub max: u64,
    /// Radius: each digit may be shifted by up to this many steps in either
    /// direction.
    pub range: u64,
    /// The base combination, one value per dial, each within `[min, max]`.
    pub combination: Vec<u64>,
    /// Whether the caller wants tabular output (rendering happens outside
    /// the core; the flag is only carried along).
    pub csv: bool,
}

/// A configuration fault, detected before any candidate is produced.
#[derive(Clone, Copy, Debug, PartialEq, Eq)]
pub enum ConfigError {
    /// `min > max`: the ring is empty.
    InvalidRingBounds,
    /// No base digits were supplied.
    EmptyCombination,
    /// A base digit lies outside `[min, max]`.
    DigitOutOfRange,
    /// `(2 * range + 1)^k` does not fit the numeric range used for
    /// enumeration.
    SearchSpaceOverflow,
}

/// One generated combination together with its error score.
pub struct Candidate {
    /// The candidate combination, one digit per position of the base.
    pub digits: Vec<u64>,
    /// The sum, over positions, of the cyclic distance between this
    /// candidate's digit and the base digit.
    pub errors: u64,
}

impl Config {
    /// The ring size: the number of distinct values a digit can take.
    pub open spec fn spec_modulus(&self) -> int {
        self.max - self.min + 1
    }

    /// The ring bounds describe a non-empty ring.
    pub open spec fn wf_bounds(&self) -> bool {
        self.min <= self.max
    }

    /// The number of distinct values a digit can take, `max - min + 1`.
    pub fn modulus(&self) -> (r: u64)
        requires
            self.wf_bounds(),
            self.max - self.min < u64::MAX,
        ensures
            r == self.spec_modulus(),
    {
        self.max - self.min + 1
    }

    /// The given value is a member of the ring.
    pub open spec fn digit_ok(&self, d: int) -> bool {
        self.min <= d <= self.max
    }

    /// Every base digit is a member of the ring.
    pub open spec fn combination_ok(&self) -> bool {
        forall|i: int|
            0 <= i < self.combination@.len() ==> self.digit_ok(#[trigger] self.combination@[i] as int)
    }

    /// The count of distinct offsets considered per digit: `-range ..= range`.
    pub open spec fn spec_base(&self) -> int {
        2 * self.range + 1
    }

    /// The total number of candidates: one per ordered tuple of per-digit
    /// offsets.
    pub open spec fn spec_count(&self) -> int {
        pow(self.spec_base(), self.combination@.len())
    }

    /// The configuration is accepted by the enumerator: at least one digit,
    /// a non-empty ring, every base digit on the ring, and a candidate count
    /// that fits the numeric range used for enumeration.
    pub open spec fn valid(&self) -> bool {
        &&& self.combination@.len() >= 1
        &&& self.wf_bounds()
        &&& self.combination_ok()
        &&& self.spec_count() <= u64::MAX
    }

    /// The offset index applied to position `i` by candidate number `delta`:
    /// digit `i` of `delta` written in base `2 * range + 1`, least
    /// significant position first.
    pub open spec fn spec_offset(&self, delta: int, i: int) -> int {
        (delta / pow(self.spec_base(), i as nat)) % self.spec_base()
    }

    /// Digit `i` of candidate number `delta`: the base digit shifted to a
    /// zero-based offset from `min`, moved by the decoded offset minus the
    /// radius, reduced modulo the ring size, and shifted back.
    pub open spec fn spec_digit(&self, delta: int, i: int) -> int {
        self.min + (self.combination@[i] - self.min + self.spec_offset(delta, i)
            - self.range) % self.spec_modulus()
    }

    /// `g` is exactly candidate number `delta` of this configuration.
    pub open spec fn is_guess_for(&self, g: Seq<u64>, delta: int) -> bool {
        &&& g.len() == self.combination@.len()
        &&& forall|i: int| 0 <= i < g.len() ==> #[trigger] g[i] == self.spec_digit(delta, i)
    }

    /// The error score of the first `n` positions of `g`: the sum of the
    /// cyclic distances between `g` and the base combination there.
    pub open spec fn spec_errors_prefix(&self, g: Seq<u64>, n: int) -> int
        decreases n,
    {
        if n <= 0 {
            0
        } else {
            self.spec_errors_prefix(g, n - 1) + spec_distance(
                g[n - 1] - self.min,
                self.combination@[n - 1] - self.min,
                self.spec_modulus(),
            )
        }
    }

    /// The error score of `g`: the sum over all positions of the cyclic
    /// distance between `g`'s digit and the base digit.
    pub open spec fn spec_errors(&self, g: Seq<u64>) -> int {
        self.spec_errors_prefix(g, g.len() as int)
    }

    /// `gs` paired with the generation indices `p` is the guess list of this
    /// configuration: `p` is a permutation of the candidate numbers, entry
    /// `j` is candidate number `p[j]`, the error scores never decrease along
    /// the list, and candidates with equal scores keep their generation
    /// order.
    pub open spec fn guess_list_ok(&self, gs: Seq<Vec<u64>>, p: Seq<int>) -> bool {
        &&& is_perm_of(p, self.spec_count())
        &&& gs.len() == p.len()
        &&& forall|j: int| 0 <= j < gs.len() ==> self.is_guess_for((#[trigger] gs[j])@, p[j])
        &&& forall|i: int, j: int|
            #![trigger gs[i], gs[j]]
            0 <= i < j < gs.len() ==> self.spec_errors(gs[i]@) <= self.spec_errors(gs[j]@)
        &&& forall|i: int, j: int|
            #![trigger p[i], p[j]]
            0 <= i < j < gs.len() && self.spec_errors(gs[i]@) == self.spec_errors(gs[j]@)
                ==> p[i] < p[j]
    }

    /// Every candidate digit lands back on the ring.
    pub proof fn lemma_digit_in_range(&self, delta: int, i: int)
        requires
            self.wf_bounds(),
        ensures
            self.min <= self.spec_digit(delta, i) <= self.max,
    {
        lemma_mod_bound(
            self.combination@[i] - self.min + self.spec_offset(delta, i) - self.range,
            self.spec_modulus(),
        );
    }

    /// The decoded offset index lies in `[0, 2 * range]`.
    pub proof fn lemma_offset_bound(&self, delta: int, i: int)
        ensures
            0 <= self.spec_offset(delta, i) < self.spec_base(),
    {
        lemma_mod_bound(delta / pow(self.spec_base(), i as nat), self.spec_base());
    }

    /// A candidate digit is at most `range` steps away from the base digit
    /// it was derived from.
    pub proof fn lemma_digit_error_bound(&self, delta: int, i: int)
        requires
            self.wf_bounds(),
            self.combination_ok(),
            0 <= i < self.combination@.len(),
        ensures
            0 <= spec_distance(
                self.spec_digit(delta, i) - self.min,
                self.combination@[i] - self.min,
                self.spec_modulus(),
            ) <= self.range,
    {
        let m = self.spec_modulus();
        let a = self.combination@[i] - self.min;
        let dn = self.spec_offset(delta, i);
        let t = dn - self.range;
        self.lemma_offset_bound(delta, i);
        let x = self.spec_digit(delta, i) - self.min;
        assert(x == (a + t) % m);
        lemma_small_mod(a as nat, m as nat);
        lemma_sub_mod_noop(a + t, a, m);
        assert((x - a) % m == t % m);
        lemma_sub_mod_noop_right(a, a + t, m);
        assert((a - x) % m == (-t) % m);
        lemma_mod_bound(t, m);
        lemma_mod_bound(-t, m);
        if t >= 0 {
            lemma_mod_decreases(t as nat, m as nat);
        } else {
            lemma_mod_decreases((-t) as nat, m as nat);
        }
    }

    /// Prefix error scores only grow as more positions are counted.
    pub proof fn lemma_errors_prefix_mono(&self, g: Seq<u64>, i: int, j: int)
        requires
            self.wf_bounds(),
            0 <= i <= j,
        ensures
            0 <= self.spec_errors_prefix(g, i) <= self.spec_errors_prefix(g, j),
        decreases j,
    {
        if j > 0 {
            lemma_mod_bound(g[j - 1] - self.min - (self.combination@[j - 1] - self.min),
                self.spec_modulus());
            lemma_mod_bound(self.combination@[j - 1] - self.min - (g[j - 1] - self.min),
                self.spec_modulus());
            if i == j {
                self.lemma_errors_prefix_mono(g, i - 1, j - 1);
            } else {
                self.lemma_errors_prefix_mono(g, i, j - 1);
            }
        }
    }

    /// The error score of `guess` against the base combination: the sum,
    /// over positions, of the cyclic distance between the two digits there.
    #[verifier::loop_isolation(false)]
    pub fn errors(&self, guess: &[u64]) -> (r: u64)
        requires
            self.wf_bounds(),
            self.max - self.min < u64::MAX,
            self.combination_ok(),
            guess@.len() == self.combination@.len(),
            forall|i: int| 0 <= i < guess@.len() ==> self.digit_ok(#[trigger] guess@[i] as int),
            self.spec_errors(guess@) <= u64::MAX,
        ensures
            r == self.spec_errors(guess@),
    {
        let m: u64 = self.modulus();
        let n: usize = self.combination.len();
        let mut sum: u64 = 0;
        let mut i: usize = 0;
        while i < n
            invariant
                i <= n,
                sum == self.spec_errors_prefix(guess@, i as int),
            decreases n - i,
        {
            proof {
                self.lemma_errors_prefix_mono(guess@, i + 1, n as int);
            }
            let d: u64 = modular_distance(guess[i] - self.min, self.combination[i] - self.min, m);
            sum = sum + d;
            i = i + 1;
        }
        sum
    }

    /// Validates the configuration and computes the candidate count
    /// `(2 * range + 1)^k`, reporting the first configuration fault found:
    /// an empty combination, inverted ring bounds, a base digit off the
    /// ring, or a candidate count that does not fit a `u64`.
    #[verifier::loop_isolation(false)]
    fn candidate_count(&self) -> (r: Result<u64, ConfigError>)
        ensures
            match r {
                Ok(last) => self.valid() && last == self.spec_count(),
                Err(e) => !self.valid() && match e {
                    ConfigError::EmptyCombination => self.combination@.len() == 0,
                    ConfigError::InvalidRingBounds => self.combination@.len() > 0
                        && !self.wf_bounds(),
                    ConfigError::DigitOutOfRange => self.combination@.len() > 0
                        && self.wf_bounds() && !self.combination_ok(),
                    ConfigError::SearchSpaceOverflow => self.combination@.len() > 0
                        && self.wf_bounds() && self.combination_ok()
                        && self.spec_count() > u64::MAX,
                },
            },
    {
        let k: usize = self.combination.len();
        if k == 0 {
            return Err(ConfigError::EmptyCombination);
        }
        if self.min > self.max {
            return Err(ConfigError::InvalidRingBounds);
        }
        let mut i: usize = 0;
        while i < k
            invariant
                i <= k,
                forall|j: int| 0 <= j < i ==> self.digit_ok(#[trigger] self.combination@[j] as int),
            decreases k - i,
        {
            let c: u64 = self.combination[i];
            if c < self.min || c > self.max {
                return Err(ConfigError::DigitOutOfRange);
            }
            i = i + 1;
        }
        if self.range > (u64::MAX - 1) / 2 {
            proof {
                lemma_pow1(self.spec_base());
                lemma_pow_increases(self.spec_base() as nat, 1, k as nat);
            }
            return Err(ConfigError::SearchSpaceOverflow);
        }
        let base: u64 = 2 * self.range + 1;
        let mut last: u64 = 1;
        let mut e: usize = 0;
        proof {
            lemma_pow0(base as int);
        }
        while e < k
            invariant
                e <= k,
                last == pow(base as int, e as nat),
            decreases k - e,
        {
            proof {
                lemma_pow_adds(base as int, e as nat, 1);
                lemma_pow1(base as int);
                lemma_fundamental_div_mod(u64::MAX as int, base as int);
                lemma_mod_bound(u64::MAX as int, base as int);
            }
            if last > u64::MAX / base {
                proof {
                    let bi = base as int;
                    let q = u64::MAX as int / bi;
                    let rm = u64::MAX as int % bi;
                    assert(last as int * bi > u64::MAX) by (nonlinear_arith)
                        requires
                            last as int >= q + 1,
                            u64::MAX as int == bi * q + rm,
                            0 <= rm < bi,
                            bi > 0,
                    ;
                    assert(pow(bi, (e + 1) as nat) == last as int * bi);
                    lemma_pow_increases(base as nat, (e + 1) as nat, k as nat);
                    assert(self.spec_count() > u64::MAX);
                }
                return Err(ConfigError::SearchSpaceOverflow);
            }
            proof {
                let bi = base as int;
                let q = u64::MAX as int / bi;
                let rm = u64::MAX as int % bi;
                assert(last as int * bi <= u64::MAX) by (nonlinear_arith)
                    requires
                        last as int <= q,
                        u64::MAX as int == bi * q + rm,
                        0 <= rm,
                        bi > 0,
                ;
            }
            last = last * base;
            e = e + 1;
        }
        Ok(last)
    }

    /// Produces candidate number `delta` for every `delta` in
    /// `0 .. last`, in that order, together with each candidate's error
    /// score.
    #[verifier::loop_isolation(false)]
    fn generate(&self, base: u64, last: u64) -> (r: (Vec<Vec<u64>>, Vec<u64>))
        requires
            self.valid(),
            self.max - self.min < u64::MAX,
            base == self.spec_base(),
            last == self.spec_count(),
        ensures
            r.0@.len() == last,
            r.1@.len() == last,
            forall|j: int| 0 <= j < last ==> self.is_guess_for((#[trigger] r.0@[j])@, j),
            forall|j: int| 0 <= j < last ==> (#[trigger] r.1@[j]) == self.spec_errors(r.0@[j]@),
    {
        let k: usize = self.combination.len();
        let m: u64 = self.modulus();
        let mut guesses: Vec<Vec<u64>> = Vec::new();
        let mut keys: Vec<u64> = Vec::new();
        let mut delta: u64 = 0;
        while delta < last
            invariant
                delta <= last,
                guesses@.len() == delta,
                keys@.len() == delta,
                forall|j: int|
                    0 <= j < delta ==> self.is_guess_for((#[trigger] guesses@[j])@, j),
                forall|j: int|
                    0 <= j < delta ==> (#[trigger] keys@[j]) == self.spec_errors(guesses@[j]@),
            decreases last - delta,
        {
            let mut guess: Vec<u64> = Vec::new();
            let mut d: u64 = delta;
            let mut i: usize = 0;
            proof {
                lemma_pow0(base as int);
                lemma_div_basics_2(delta as int);
            }
            while i < k
                invariant
                    i <= k,
                    guess@.len() == i,
                    d == delta as int / pow(base as int, i as nat),
                    forall|j: int|
                        0 <= j < i ==> (#[trigger] guess@[j]) == self.spec_digit(delta as int, j),
                decreases k - i,
            {
                let dn: u64 = d % base;
                proof {
                    assert(dn == self.spec_offset(delta as int, i as int));
                    lemma_pow_positive(base as int, i as nat);
                    lemma_div_denominator(delta as int, pow(base as int, i as nat), base as int);
                    lemma_pow_adds(base as int, i as nat, 1);
                    lemma_pow1(base as int);
                }
                d = d / base;
                let c: u64 = self.combination[i];
                let offset: u64 = c - self.min;
                proof {
                    lemma_mod_bound(dn as int, m as int);
                    lemma_mod_bound(self.range as int, m as int);
                }
                let dn_m: u64 = dn % m;
                let r_m: u64 = self.range % m;
                let t: u64 = ring_sub(ring_add(offset, dn_m, m), r_m, m);
                proof {
                    lemma_add_mod_noop_right(offset as int, dn as int, m as int);
                    lemma_sub_mod_noop(offset + dn, self.range as int, m as int);
                    assert(t == (offset + dn - self.range) % (m as int));
                }
                let digit: u64 = t + self.min;
                proof {
                    assert(digit == self.spec_digit(delta as int, i as int));
                }
                guess.push(digit);
                i = i + 1;
            }
            proof {
                assert(self.is_guess_for(guess@, delta as int));
                assert forall|j: int| 0 <= j < guess@.len() implies self.digit_ok(
                    #[trigger] guess@[j] as int,
                ) by {
                    self.lemma_digit_in_range(delta as int, j);
                }
                self.lemma_guess_errors_bound(guess@, delta as int, k as int);
                lemma_count_dominates(self.range as int, k as nat);
                assert(2 * (k as int) * self.range == 2 * ((k as int) * self.range))
                    by (nonlinear_arith);
                assert(self.spec_errors(guess@) <= u64::MAX);
            }
            let ekey: u64 = self.errors(guess.as_slice());
            guesses.push(guess);
            keys.push(ekey);
            delta = delta + 1;
        }
        (guesses, keys)
    }

    /// Stable-sorts the freshly generated candidates ascending by error
    /// score by inserting each, from the last generated backwards, in front
    /// of the equal-scored candidates already placed. Returns the sorted
    /// list and the generation index of each entry.
    #[verifier::loop_isolation(false)]
    #[verifier::rlimit(100)]
    fn sort_by_errors(&self, guesses: Vec<Vec<u64>>, keys: Vec<u64>) -> (r: (
        Vec<Vec<u64>>,
        Ghost<Seq<int>>,
    ))
        requires
            self.valid(),
            keys@.len() == guesses@.len(),
            guesses@.len() == self.spec_count(),
            forall|j: int|
                0 <= j < guesses@.len() ==> self.is_guess_for((#[trigger] guesses@[j])@, j),
            forall|j: int|
                0 <= j < guesses@.len() ==> (#[trigger] keys@[j]) == self.spec_errors(
                    guesses@[j]@,
                ),
        ensures
            self.guess_list_ok(r.0@, r.1@),
    {
        let mut guesses = guesses;
        let mut keys = keys;
        let ghost total: int = guesses@.len() as int;
        let mut out: Vec<Vec<u64>> = Vec::new();
        let mut out_keys: Vec<u64> = Vec::new();
        let ghost mut pseq: Seq<int> = Seq::empty();
        while guesses.len() > 0
            invariant
                keys@.len() == guesses@.len(),
                out_keys@.len() == out@.len(),
                pseq.len() == out@.len(),
                out@.len() + guesses@.len() == total,
                forall|j: int|
                    0 <= j < guesses@.len() ==> self.is_guess_for((#[trigger] guesses@[j])@, j),
                forall|j: int|
                    0 <= j < guesses@.len() ==> (#[trigger] keys@[j]) == self.spec_errors(
                        guesses@[j]@,
                    ),
                forall|j: int|
                    0 <= j < out@.len() ==> (#[trigger] out_keys@[j]) == self.spec_errors(
                        out@[j]@,
                    ),
                forall|j: int|
                    0 <= j < out@.len() ==> self.is_guess_for((#[trigger] out@[j])@, pseq[j]),
                forall|j: int|
                    0 <= j < pseq.len() ==> guesses@.len() <= #[trigger] pseq[j] < total,
                forall|j1: int, j2: int|
                    #![trigger pseq[j1], pseq[j2]]
                    0 <= j1 < j2 < pseq.len() ==> pseq[j1] != pseq[j2],
                forall|i1: int, j1: int|
                    #![trigger out_keys@[i1], out_keys@[j1]]
                    0 <= i1 < j1 < out@.len() ==> out_keys@[i1] <= out_keys@[j1],
                forall|i1: int, j1: int|
                    #![trigger pseq[i1], pseq[j1]]
                    0 <= i1 < j1 < out@.len() && out_keys@[i1] == out_keys@[j1] ==> pseq[i1]
                        < pseq[j1],
            decreases guesses@.len(),
        {
            let g: Vec<u64> = guesses.pop().unwrap();
            let gk: u64 = keys.pop().unwrap();
            let ghost gidx: int = guesses@.len() as int;
            let mut pos: usize = 0;
            while pos < out_keys.len() && out_keys[pos] < gk
                invariant
                    pos <= out_keys@.len(),
                    forall|q: int| 0 <= q < pos ==> (#[trigger] out_keys@[q]) < gk,
                decreases out_keys@.len() - pos,
            {
                pos = pos + 1;
            }
            let ghost old_out = out@;
            let ghost old_okeys = out_keys@;
            let ghost old_pseq = pseq;
            out.insert(pos, g);
            out_keys.insert(pos, gk);
            proof {
                pseq = old_pseq.insert(pos as int, gidx);
                old_out.insert_ensures(pos as int, g);
                old_okeys.insert_ensures(pos as int, gk);
                old_pseq.insert_ensures(pos as int, gidx);
                assert(forall|q: int|
                    pos < q < out@.len() ==> (#[trigger] out@[q]) == old_out[q - 1]
                        && out_keys@[q] == old_okeys[q - 1] && pseq[q] == old_pseq[q - 1]);
            }
        }
        (out, Ghost(pseq))
    }

    /// The full guess list: every combination reachable by shifting each
    /// base digit by up to `range` steps in either direction around the
    /// ring, sorted ascending by error score, candidates with equal scores
    /// in generation order. Returns a configuration error instead when the
    /// combination is empty, the ring bounds are inverted, a base digit is
    /// off the ring, or the candidate count does not fit a `u64`.
    pub fn guesses(&self) -> (r: Result<Vec<Vec<u64>>, ConfigError>)
        requires
            self.wf_bounds() ==> self.max - self.min < u64::MAX,
        ensures
            match r {
                Ok(gs) => self.valid() && gs@.len() == self.spec_count() && (exists|p: Seq<int>|
                    self.guess_list_ok(gs@, p)),
                Err(e) => !self.valid() && match e {
                    ConfigError::EmptyCombination => self.combination@.len() == 0,
                    ConfigError::InvalidRingBounds => self.combination@.len() > 0
                        && !self.wf_bounds(),
                    ConfigError::DigitOutOfRange => self.combination@.len() > 0
                        && self.wf_bounds() && !self.combination_ok(),
                    ConfigError::SearchSpaceOverflow => self.combination@.len() > 0
                        && self.wf_bounds() && self.combination_ok()
                        && self.spec_count() > u64::MAX,
                },
            },
    {
        let last: u64 = match self.candidate_count() {
            Ok(l) => l,
            Err(e) => {
                return Err(e);
            },
        };
        proof {
            lemma_pow1(self.spec_base());
            lemma_pow_increases(self.spec_base() as nat, 1, self.combination@.len() as nat);
        }
        let base: u64 = 2 * self.range + 1;
        let (gs, ks) = self.generate(base, last);
        let (out, p) = self.sort_by_errors(gs, ks);
        proof {
            assert(self.guess_list_ok(out@, p@));
        }
        Ok(out)
    }

    /// The core entry point: the full guess list of `guesses`, each entry
    /// paired with its error score, ready for a renderer to consume.
    #[verifier::loop_isolation(false)]
    pub fn run(&self) -> (r: Result<Vec<Candidate>, ConfigError>)
        requires
            self.wf_bounds() ==> self.max - self.min < u64::MAX,
        ensures
            match r {
                Ok(cs) => self.valid() && cs@.len() == self.spec_count() && (forall|j: int|
                    0 <= j < cs@.len() ==> (#[trigger] cs@[j]).errors == self.spec_errors(
                        cs@[j].digits@,
                    )) && (exists|p: Seq<int>| self.guess_list_ok(digits_of(cs@), p)),
                Err(e) => !self.valid() && match e {
                    ConfigError::EmptyCombination => self.combination@.len() == 0,
                    ConfigError::InvalidRingBounds => self.combination@.len() > 0
                        && !self.wf_bounds(),
                    ConfigError::DigitOutOfRange => self.combination@.len() > 0
                        && self.wf_bounds() && !self.combination_ok(),
                    ConfigError::SearchSpaceOverflow => self.combination@.len() > 0
                        && self.wf_bounds() && self.combination_ok()
                        && self.spec_count() > u64::MAX,
                },
            },
    {
        let mut gs: Vec<Vec<u64>> = match self.guesses() {
            Ok(g) => g,
            Err(e) => {
                return Err(e);
            },
        };
        let ghost p = choose|p: Seq<int>| self.guess_list_ok(gs@, p);
        let ghost orig = gs@;
        let k: usize = self.combination.len();
        let mut cands: Vec<Candidate> = Vec::new();
        while gs.len() > 0
            invariant
                cands@.len() + gs@.len() == orig.len(),
                forall|j: int|
                    0 <= j < gs@.len() ==> (#[trigger] gs@[j]) == orig[cands@.len() + j],
                forall|j: int| 0 <= j < cands@.len() ==> (#[trigger] cands@[j]).digits == orig[j],
                forall|j: int|
                    0 <= j < cands@.len() ==> (#[trigger] cands@[j]).errors == self.spec_errors(
                        orig[j]@,
                    ),
            decreases gs@.len(),
        {
            let ghost old_gs = gs@;
            let ghost idx = cands@.len() as int;
            let g: Vec<u64> = gs.remove(0);
            proof {
                old_gs.remove_ensures(0);
                assert(g == orig[idx]);
                assert(self.is_guess_for(g@, p[idx]));
                assert forall|j: int| 0 <= j < g@.len() implies self.digit_ok(
                    #[trigger] g@[j] as int,
                ) by {
                    self.lemma_digit_in_range(p[idx], j);
                }
                self.lemma_guess_errors_bound(g@, p[idx], k as int);
                lemma_count_dominates(self.range as int, k as nat);
                assert(2 * (k as int) * self.range == 2 * ((k as int) * self.range))
                    by (nonlinear_arith);
                assert(self.spec_errors(g@) <= u64::MAX);
            }
            let ekey: u64 = self.errors(g.as_slice());
            cands.push(Candidate { digits: g, errors: ekey });
        }
        proof {
            assert(digits_of(cands@) =~= orig);
            assert(self.guess_list_ok(digits_of(cands@), p));
        }
        Ok(cands)
    }

    /// With radius zero there is exactly one candidate: the base combination
    /// itself, with error score zero.
    pub proof fn lemma_radius_zero_single_candidate(&self)
        requires
            self.valid(),
            self.range == 0,
        ensures
            self.spec_count() == 1,
            forall|g: Seq<u64>| #[trigger] self.is_guess_for(g, 0) ==> g == self.combination@,
            forall|g: Seq<u64>| #[trigger] self.is_guess_for(g, 0) ==> self.spec_errors(g) == 0,
    {
        lemma1_pow(self.combination@.len());
        assert forall|g: Seq<u64>| #[trigger] self.is_guess_for(g, 0) implies g
            == self.combination@ && self.spec_errors(g) == 0 by {
            assert forall|i: int| 0 <= i < g.len() implies g[i] == self.combination@[i] by {
                lemma_pow_positive(1, i as nat);
                lemma_mod_bound(0int / pow(1, i as nat), 1);
                lemma_small_mod(
                    (self.combination@[i] - self.min) as nat,
                    self.spec_modulus() as nat,
                );
                assert(self.spec_offset(0, i) == 0);
                assert(self.spec_digit(0, i) == self.combination@[i]);
            }
            assert(g =~= self.combination@);
            self.lemma_guess_errors_bound(g, 0, g.len() as int);
            self.lemma_errors_prefix_mono(g, 0, g.len() as int);
            assert((g.len() as int) * self.range == 0) by (nonlinear_arith)
                requires
                    self.range == 0,
            ;
        }
    }

    /// Every digit of every candidate lies within `[min, max]`: the
    /// modular shift always lands back on the ring.
    pub proof fn lemma_guess_digits_on_ring(&self, g: Seq<u64>, delta: int)
        requires
            self.wf_bounds(),
            self.is_guess_for(g, delta),
        ensures
            forall|i: int| 0 <= i < g.len() ==> self.min <= #[trigger] g[i] <= self.max,
    {
        assert forall|i: int| 0 <= i < g.len() implies self.min <= #[trigger] g[i]
            <= self.max by {
            self.lemma_digit_in_range(delta, i);
        }
    }

    /// A single dial searched with radius one yields exactly three
    /// candidates.
    pub proof fn lemma_one_dial_radius_one_count(&self)
        requires
            self.combination@.len() == 1,
            self.range == 1,
        ensures
            self.spec_count() == 3,
    {
        lemma_pow1(3);
    }

    /// Two dials searched with radius one yield exactly nine candidates.
    pub proof fn lemma_two_dials_radius_one_count(&self)
        requires
            self.combination@.len() == 2,
            self.range == 1,
        ensures
            self.spec_count() == 9,
    {
        lemma_square_is_pow2(3);
    }

    /// The error score of candidate number `delta` is at most the number of
    /// positions times the radius.
    pub proof fn lemma_guess_errors_bound(&self, g: Seq<u64>, delta: int, n: int)
        requires
            self.wf_bounds(),
            self.combination_ok(),
            self.is_guess_for(g, delta),
            0 <= n <= g.len(),
        ensures
            self.spec_errors_prefix(g, n) <= n * self.range,
        decreases n,
    {
        if n > 0 {
            self.lemma_guess_errors_bound(g, delta, n - 1);
            self.lemma_digit_error_bound(delta, n - 1);
            assert(g[n - 1] == self.spec_digit(delta, n - 1));
            assert(n * self.range == (n - 1) * self.range + self.range) by (nonlinear_arith);
        }
    }
}

/// The combinations of a list of candidates, in list order, without their
/// scores.
pub open spec fn digits_of(cs: Seq<Candidate>) -> Seq<Vec<u64>> {
    cs.map_values(|c: Candidate| c.digits)
}

/// `p` lists each of the integers `0 .. n` exactly once.
pub open spec fn is_perm_of(p: Seq<int>, n: int) -> bool {
    &&& p.len() == n
    &&& forall|j: int| 0 <= j < n ==> 0 <= #[trigger] p[j] < n
    &&& forall|j1: int, j2: int| #![trigger p[j1], p[j2]] 0 <= j1 < j2 < n ==> p[j1] != p[j2]
}

/// The candidate count dominates the largest possible error score: a list
/// of `k` digits, each at most `range` steps off, scores at most
/// `k * range`, and `2 * k * range + 1 <= (2 * range + 1)^k`.
proof fn lemma_count_dominates(r: int, k: nat)
    requires
        0 <= r,
    ensures
        2 * (k as int) * r + 1 <= pow(2 * r + 1, k),
    decreases k,
{
    reveal(pow);
    if k == 0 {
        assert(pow(2 * r + 1, 0) == 1);
        assert(2 * (k as int) * r == 0) by (nonlinear_arith)
            requires
                k == 0,
        ;
    } else {
        let b = 2 * r + 1;
        let ki = k as int;
        let km1 = (k - 1) as nat;
        lemma_count_dominates(r, km1);
        assert(pow(b, k) == b * pow(b, km1));
        assert(2 * (ki - 1) * r + 1 <= pow(b, km1));
        lemma_mul_inequality(2 * (ki - 1) * r + 1, pow(b, km1), b);
        assert((2 * (ki - 1) * r + 1) * b <= pow(b, km1) * b);
        assert((2 * (ki - 1) * r + 1) * b >= 2 * ki * r + 1) by (nonlinear_arith)
            requires
                r >= 0,
                ki >= 1,
                b == 2 * r + 1,
        ;
        assert(2 * ki * r + 1 <= pow(b, k));
    }
}

} // verus!
