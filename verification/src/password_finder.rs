//! Strategies and candidate streams.
//!
//! A strategy is either a dictionary (the bytes of a word-list file) or a
//! generated space over a charset with a length range. Either way it
//! yields a lazy, finite stream of candidates with a known total, and the
//! stream can be sharded across workers by candidate index.

use vstd::prelude::*;

use crate::charsets::strictly_sorted_chars;
use crate::errors::Errors;
use crate::password_gen::PasswordGenerator;
use crate::password_gen::candidate_at;
use crate::password_gen::password_generator_count;
use crate::password_gen::total_words;
use crate::password_reader::PasswordReader;
use crate::password_reader::dict_candidates;
use crate::password_reader::password_reader_count;
use crate::text::lossy_utf8;

verus! {

/// How candidates are produced: the lines of a dictionary file, or all
/// words over a charset with lengths in a bounded range.
#[derive(Clone, Debug)]
pub enum Strategy {
    /// The bytes of a word-list file: one candidate per line.
    PasswordFile(Vec<u8>),
    /// All words over `charsets` with length in
    /// `[min_password_len, max_password_len]`.
    GenPasswords { charsets: Vec<char>, min_password_len: usize, max_password_len: usize },
}

/// A strategy's inputs are admissible: a generated space needs a
/// non-empty charset and `1 <= min <= max`.
pub open spec fn spec_strategy_valid(s: Strategy) -> bool {
    match s {
        Strategy::PasswordFile(_) => true,
        Strategy::GenPasswords { charsets, min_password_len, max_password_len } => {
            &&& charsets@.len() >= 1
            &&& 1 <= min_password_len <= max_password_len
        },
    }
}

/// The candidates of a strategy, in emission order.
pub open spec fn spec_candidates(s: Strategy) -> Seq<Seq<char>> {
    match s {
        Strategy::PasswordFile(data) => dict_candidates(data@).map_values(
            |line: Seq<u8>| lossy_utf8(line),
        ),
        Strategy::GenPasswords { charsets, min_password_len, max_password_len } => Seq::new(
            total_words(charsets@.len(), min_password_len as nat, max_password_len as nat),
            |k: int| candidate_at(
                charsets@,
                min_password_len as nat,
                max_password_len as nat,
                k as nat,
            ),
        ),
    }
}

/// Counts a strategy's candidate space: the dictionary's line count, or
/// the checked sum `Σ n^l`. Errors exactly on inadmissible inputs and on
/// arithmetic overflow.
pub fn get_password_count(strategy: &Strategy) -> (r: Result<usize, Errors>)
    ensures
        r matches Ok(c) ==> c as nat == spec_candidates(*strategy).len(),
        r is Ok <==> spec_strategy_valid(*strategy) && spec_candidates(*strategy).len()
            <= usize::MAX,
        !spec_strategy_valid(*strategy) ==> r matches Err(Errors::CliArgumentError { .. }),
        spec_strategy_valid(*strategy) && spec_candidates(*strategy).len() > usize::MAX
            ==> r matches Err(Errors::MathError { .. }),
{
    match strategy {
        Strategy::PasswordFile(data) => {
            let c = password_reader_count(data);
            Ok(c)
        },
        Strategy::GenPasswords { charsets, min_password_len, max_password_len } => {
            if charsets.len() == 0 {
                return Err(Errors::CliArgumentError {
                    message: String::from_str("the charset is empty"),
                });
            }
            if *min_password_len == 0 {
                return Err(Errors::CliArgumentError {
                    message: String::from_str("the minimum length must be positive"),
                });
            }
            if *min_password_len > *max_password_len {
                return Err(Errors::CliArgumentError {
                    message: String::from_str(
                        "the minimum length exceeds the maximum length",
                    ),
                });
            }
            password_generator_count(charsets, *min_password_len, *max_password_len)
        },
    }
}

/// A lazy, finite, non-restartable stream of candidate passwords with a
/// known total.
pub enum CandidateStream {
    /// Candidates enumerated over a charset.
    Generated(PasswordGenerator),
    /// Candidates read from a dictionary.
    Dictionary(PasswordReader),
}

impl CandidateStream {
    /// The stream's invariant, inherited from the producer inside.
    pub open spec fn wf(&self) -> bool {
        match self {
            CandidateStream::Generated(g) => g.wf(),
            CandidateStream::Dictionary(d) => d.wf(),
        }
    }

    /// The full candidate sequence this stream walks.
    pub open spec fn all(&self) -> Seq<Seq<char>> {
        match self {
            CandidateStream::Generated(g) => Seq::new(
                g.spec_total(),
                |k: int| candidate_at(g.spec_charset(), g.spec_min(), g.spec_max(), k as nat),
            ),
            CandidateStream::Dictionary(d) => dict_candidates(d.spec_data()).map_values(
                |line: Seq<u8>| lossy_utf8(line),
            ),
        }
    }

    /// A stream never holds more candidates than a machine count.
    pub proof fn lemma_len(&self)
        requires
            self.wf(),
        ensures
            self.all().len() <= usize::MAX,
    {
        if self is Generated {
            let g = self->Generated_0;
            g.lemma_bounds();
            assert(self.all().len() == g.spec_total());
        } else {
            let d = self->Dictionary_0;
            d.lemma_bounds();
            crate::password_reader::lemma_dict_candidates_le_len(d.spec_data());
            assert(self.all().len() == dict_candidates(d.spec_data()).len());
        }
    }

    /// How many candidates were already emitted.
    pub open spec fn pos(&self) -> nat {
        match self {
            CandidateStream::Generated(g) => g.spec_emitted(),
            CandidateStream::Dictionary(d) => d.spec_emitted(),
        }
    }

    /// How many candidates were already emitted, as a runtime value.
    pub fn position(&self) -> (r: usize)
        ensures
            r as nat == self.pos(),
    {
        match self {
            CandidateStream::Generated(g) => g.emitted_count(),
            CandidateStream::Dictionary(d) => d.emitted_count(),
        }
    }

    /// Emits the next candidate in order, or nothing once exhausted.
    pub fn next(&mut self) -> (r: Option<String>)
        requires
            old(self).wf(),
        ensures
            final(self).wf(),
            final(self).all() == old(self).all(),
            old(self).pos() < old(self).all().len() ==> {
                &&& final(self).pos() == old(self).pos() + 1
                &&& r matches Some(s) && s@ == old(self).all()[old(self).pos() as int]
            },
            old(self).pos() >= old(self).all().len() ==> r is None && final(self).pos()
                == old(self).pos(),
    {
        match self {
            CandidateStream::Generated(g) => g.next(),
            CandidateStream::Dictionary(d) => d.next(),
        }
    }
}

/// One worker's shard of a candidate stream: the candidates whose index
/// `k` satisfies `k % worker_count == worker_index - 1`, in order.
pub struct ShardedStream {
    inner: CandidateStream,
    worker_count: usize,
    worker_index: usize,
    yielded: usize,
}

impl ShardedStream {
    /// The underlying full candidate sequence.
    pub closed spec fn all(&self) -> Seq<Seq<char>> {
        self.inner.all()
    }

    /// The shard width: how many workers partition the stream.
    pub closed spec fn spec_worker_count(&self) -> nat {
        self.worker_count as nat
    }

    /// This worker's 1-based index.
    pub closed spec fn spec_worker_index(&self) -> nat {
        self.worker_index as nat
    }

    /// How many candidates of this shard were already emitted.
    pub closed spec fn spec_yielded(&self) -> nat {
        self.yielded as nat
    }

    /// The full-stream index of this shard's `k`-th candidate.
    pub closed spec fn shard_index(&self, k: nat) -> nat {
        (self.worker_index - 1 + k * self.worker_count) as nat
    }

    /// The shard invariant: the inner stream never runs past the next
    /// index this shard will emit.
    pub closed spec fn wf(&self) -> bool {
        &&& self.inner.wf()
        &&& 1 <= self.worker_index <= self.worker_count
        &&& self.inner.pos() <= self.shard_index(self.spec_yielded())
    }

    /// A shard never walks more candidates than a machine count.
    pub proof fn lemma_len(&self)
        requires
            self.wf(),
        ensures
            self.all().len() <= usize::MAX,
    {
        self.inner.lemma_len();
    }

    /// A shard index never lies below its step count.
    pub proof fn lemma_index_ge(&self, k: nat)
        requires
            self.wf(),
        ensures
            self.shard_index(k) >= k,
    {
        assert(k * (self.worker_count as nat) >= k) by (nonlinear_arith)
            requires
                self.worker_count >= 1,
        ;
    }

    /// With a single worker the shard is the whole stream.
    pub proof fn lemma_unsharded(&self)
        requires
            self.wf(),
            self.spec_worker_count() == 1,
        ensures
            forall|k: nat| #[trigger] self.shard_index(k) == k,
    {
        assert forall|k: nat| #[trigger] self.shard_index(k) == k by {
            assert(k * (self.worker_count as nat) == k) by (nonlinear_arith)
                requires
                    self.worker_count == 1,
            ;
        }
    }

    /// Emits this shard's next candidate: the one at full-stream index
    /// `worker_index - 1 + yielded * worker_count`, or nothing once the
    /// full stream has no such index.
    pub fn next(&mut self) -> (r: Option<String>)
        requires
            old(self).wf(),
        ensures
            final(self).wf(),
            final(self).all() == old(self).all(),
            final(self).spec_worker_count() == old(self).spec_worker_count(),
            final(self).spec_worker_index() == old(self).spec_worker_index(),
            forall|k: nat| final(self).shard_index(k) == old(self).shard_index(k),
            old(self).shard_index(old(self).spec_yielded()) < old(self).all().len() ==> {
                &&& final(self).spec_yielded() == old(self).spec_yielded() + 1
                &&& r matches Some(s) && s@ == old(self).all()[old(self).shard_index(
                    old(self).spec_yielded(),
                ) as int]
            },
            old(self).shard_index(old(self).spec_yielded()) >= old(self).all().len() ==> r
                is None && final(self).spec_yielded() == old(self).spec_yielded(),
    {
        let ghost target_spec = self.shard_index(self.spec_yielded());
        let step = match self.yielded.checked_mul(self.worker_count) {
            Some(v) => v,
            None => {
                proof {
                    self.inner.lemma_len();
                }
                return None;
            },
        };
        let target = match step.checked_add(self.worker_index - 1) {
            Some(v) => v,
            None => {
                proof {
                    self.inner.lemma_len();
                }
                return None;
            },
        };
        while self.inner.position() < target
            invariant
                self.inner.wf(),
                1 <= self.worker_index <= self.worker_count,
                self.worker_count == old(self).worker_count,
                self.worker_index == old(self).worker_index,
                self.yielded == old(self).yielded,
                self.inner.all() == old(self).inner.all(),
                target as nat == target_spec,
                target_spec == old(self).shard_index(old(self).spec_yielded()),
                self.inner.pos() <= target as nat,
            decreases target as nat - self.inner.pos(),
        {
            let skipped = self.inner.next();
            if skipped.is_none() {
                proof {
                    assert(self.inner.pos() >= self.inner.all().len());
                }
                return None;
            }
        }
        let r = self.inner.next();
        if r.is_some() {
            proof {
                self.inner.lemma_len();
                assert(self.yielded as nat <= (self.yielded as nat) * (
                self.worker_count as nat)) by (nonlinear_arith)
                    requires
                        self.worker_count >= 1,
                ;
            }
            self.yielded = self.yielded + 1;
            proof {
                assert(self.inner.pos() == target_spec + 1);
                assert((self.yielded as nat) * (self.worker_count as nat) == ((self.yielded
                    - 1) as nat) * (self.worker_count as nat) + (self.worker_count as nat))
                    by (nonlinear_arith)
                    requires
                        self.yielded >= 1,
                ;
                assert(self.shard_index(self.spec_yielded()) == target_spec
                    + self.worker_count);
            }
        }
        r
    }
}

/// Splits a candidate stream into the shard of one worker among
/// `worker_count`: the candidates at full-stream index
/// `k * worker_count + worker_index - 1` for `k = 0, 1, ...`, in order.
pub fn filter_for_worker_index(passwords: CandidateStream, worker_count: usize, worker_index: usize) -> (r:
    ShardedStream)
    requires
        passwords.wf(),
        passwords.pos() == 0,
        1 <= worker_index <= worker_count,
    ensures
        r.wf(),
        r.all() == passwords.all(),
        r.spec_worker_count() == worker_count as nat,
        r.spec_worker_index() == worker_index as nat,
        r.spec_yielded() == 0,
        forall|k: nat| #[trigger] r.shard_index(k) == worker_index - 1 + k * (
        worker_count as nat),
{
    ShardedStream { inner: passwords, worker_count, worker_index, yielded: 0 }
}

/// Builds the candidate stream of a strategy, positioned at its start.
pub fn make_candidate_stream(strategy: &Strategy) -> (r: CandidateStream)
    requires
        spec_strategy_valid(*strategy),
        spec_candidates(*strategy).len() <= usize::MAX,
    ensures
        r.wf(),
        r.pos() == 0,
        r.all() == spec_candidates(*strategy),
{
    match strategy {
        Strategy::PasswordFile(data) => {
            let copy = data.clone();
            proof {
                assert(copy@ =~= data@);
            }
            let r = CandidateStream::Dictionary(PasswordReader::new(copy));
            proof {
                assert(r.all() =~= spec_candidates(*strategy));
            }
            r
        },
        Strategy::GenPasswords { charsets, min_password_len, max_password_len } => {
            let cs = charsets.clone();
            proof {
                assert(cs@ =~= charsets@);
            }
            let r = CandidateStream::Generated(
                PasswordGenerator::new(cs, *min_password_len, *max_password_len),
            );
            proof {
                assert(r.all() =~= spec_candidates(*strategy));
            }
            r
        },
    }
}

/// Index `k` of the full stream belongs to the shard of the worker with
/// 1-based index `w`: it is `w - 1 + j * n_workers` for some step `j`.
pub open spec fn in_shard(k: nat, n_workers: nat, w: nat) -> bool {
    exists|j: nat| k == w - 1 + #[trigger] (j * n_workers)
}

/// Partition completeness: among `n_workers` shards taken by index
/// modulo `n_workers`, every candidate index `k` belongs to the shard of
/// the worker with 1-based index `k % n_workers + 1`, and to no other.
pub proof fn lemma_shard_partition(n_workers: nat, k: nat)
    requires
        n_workers >= 1,
    ensures
        1 <= k % n_workers + 1 <= n_workers,
        in_shard(k, n_workers, k % n_workers + 1),
        forall|w: nat|
            1 <= w <= n_workers && #[trigger] in_shard(k, n_workers, w) ==> w == k % n_workers
                + 1,
{
    vstd::arithmetic::div_mod::lemma_mod_division_less_than_divisor(k as int, n_workers as int);
    // membership: j = k / n_workers reaches k from k % n_workers
    vstd::arithmetic::div_mod::lemma_fundamental_div_mod(k as int, n_workers as int);
    let j0 = k as int / n_workers as int;
    vstd::arithmetic::div_mod::lemma_div_pos_is_pos(k as int, n_workers as int);
    assert(k == (k % n_workers) + (j0 as nat) * n_workers) by (nonlinear_arith)
        requires
            k as int == n_workers as int * j0 + (k as int % n_workers as int),
            j0 >= 0,
            k % n_workers == k as int % n_workers as int,
    ;
    assert(in_shard(k, n_workers, k % n_workers + 1)) by {
        assert(k == (k % n_workers + 1) - 1 + ((j0 as nat) * n_workers));
    }
    // uniqueness: any shard holding k is that one
    assert forall|w: nat|
        1 <= w <= n_workers && #[trigger] in_shard(k, n_workers, w) implies w == k % n_workers
        + 1 by {
        let j = choose|j: nat| k == w - 1 + #[trigger] (j * n_workers);
        vstd::arithmetic::div_mod::lemma_fundamental_div_mod_converse(k as int,
            n_workers as int, j as int, (w - 1) as int);
    }
}

} // verus!
