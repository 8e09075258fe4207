//! A password-recovery engine for encrypted archives.
//!
//! Given the bytes of a target archive and a candidate-generation strategy
//! (a dictionary or an indexed enumerator over a character set), the engine
//! searches the candidate space and returns the first candidate that
//! decrypts the archive, or reports exhaustion. ZIP targets are probed in
//! memory - the PBKDF2 fast reject for AES entries, then a full
//! decrypt-and-read - while RAR and 7z targets go through their outside
//! decoders by path.

use vstd::prelude::*;

pub mod args;
pub mod charsets;
pub mod errors;
pub mod password_finder;
pub mod password_gen;
pub mod password_reader;
pub mod password_worker;
pub mod text;
pub mod zip_utils;

pub use args::Arguments;
pub use args::Mode;
pub use args::validate_arguments;
pub use charsets::CharsetChoice;
pub use charsets::charset_digits;
pub use charsets::charset_lowercase_letters;
pub use charsets::charset_punctuations;
pub use charsets::charset_uppercase_letters;
pub use charsets::normalize_charset;
pub use errors::Errors;
pub use password_finder::CandidateStream;
pub use password_finder::ShardedStream;
pub use password_finder::Strategy;
pub use password_finder::filter_for_worker_index;
pub use password_finder::get_password_count;
pub use password_finder::make_candidate_stream;
pub use password_gen::PasswordGenerator;
pub use password_gen::password_generator_count;
pub use password_reader::PasswordReader;
pub use password_reader::password_reader_count;
pub use password_worker::PasswordWorker;
pub use password_worker::Probe;
pub use password_worker::WorkerStatus;
pub use password_worker::verify_zip_password;
pub use zip_utils::AesInfo;
pub use zip_utils::validate_zip;

use charsets::strictly_sorted_chars;
use password_finder::spec_candidates;
use password_finder::spec_strategy_valid;
use password_worker::spec_is_7z;
use password_worker::spec_is_rar;
use password_worker::spec_is_zip;
use password_worker::spec_zip_candidate_match;
use password_worker::sniff_is_7z;
use password_worker::sniff_is_pdf;
use password_worker::sniff_is_rar;
use password_worker::sniff_is_zip;
use zip_utils::spec_aes_ok;
use zip_utils::spec_zip_encrypted;
use zip_utils::spec_zip_header_ok;
use zip_utils::spec_zip_is_aes;

verus! {

/// The candidate at index `k` is the first match for this ZIP target:
/// it passes the probe and no earlier candidate does.
pub open spec fn zip_first_match_at(target: Seq<u8>, cands: Seq<Seq<char>>, k: int) -> bool {
    &&& 0 <= k < cands.len()
    &&& spec_zip_candidate_match(target, cands[k])
    &&& forall|j: int| 0 <= j < k ==> !spec_zip_candidate_match(target, cands[j])
}

/// The search can begin on this ZIP target: the first entry is encrypted,
/// and when it is an AES entry its handshake data is readable.
pub open spec fn zip_searchable(target: Seq<u8>) -> bool {
    &&& spec_zip_header_ok(target)
    &&& spec_zip_encrypted(target)
    &&& (spec_zip_is_aes(target) ==> spec_aes_ok(target))
}

/// The pre-flight checks pass: at least one worker, an admissible
/// strategy, and a representable candidate total.
pub open spec fn start_preflight_ok(c: Cracker) -> bool {
    &&& !c.spec_started()
    &&& c.spec_workers() >= 1
    &&& spec_strategy_valid(c.spec_strategy())
    &&& spec_candidates(c.spec_strategy()).len() <= usize::MAX
}

/// The per-batch candidate budget: `workers` times the per-format tuning
/// constant, saturated at the machine limit.
fn batch_size(workers: usize, per_worker: usize) -> (r: usize)
    requires
        workers >= 1,
        per_worker >= 1,
    ensures
        r >= 1,
{
    proof {
        assert(workers * per_worker >= 1) by (nonlinear_arith)
            requires
                workers >= 1,
                per_worker >= 1,
        ;
    }
    match workers.checked_mul(per_worker) {
        Some(v) => v,
        None => usize::MAX,
    }
}

/// The engine: owns the target, the worker count, the strategy, and the
/// progress counter. Created idle; `start` runs the search to completion.
pub struct Cracker {
    file_path: String,
    target: Vec<u8>,
    workers: usize,
    strategy: Strategy,
    total_count: Option<usize>,
    tested_count: u64,
    started: bool,
}

impl Cracker {
    /// The bytes of the target archive.
    pub closed spec fn spec_target(&self) -> Seq<u8> {
        self.target@
    }

    /// The path of the target archive, for the probes that decode from
    /// disk.
    pub closed spec fn spec_file_path(&self) -> Seq<char> {
        self.file_path@
    }

    /// How many workers partition the candidate space.
    pub closed spec fn spec_workers(&self) -> nat {
        self.workers as nat
    }

    /// The strategy, with its charset already normalized.
    pub closed spec fn spec_strategy(&self) -> Strategy {
        self.strategy
    }

    /// How many candidates have been tested so far.
    pub closed spec fn spec_tested(&self) -> nat {
        self.tested_count as nat
    }

    /// Whether the single permitted `start` has been invoked.
    pub closed spec fn spec_started(&self) -> bool {
        self.started
    }

    /// The controller invariant: a cached total is the true total, and
    /// the progress counter stays zero until the search starts.
    pub closed spec fn wf(&self) -> bool {
        &&& (self.total_count matches Some(c) ==> spec_strategy_valid(self.strategy)
            && c as nat == spec_candidates(self.strategy).len())
        &&& (!self.started ==> self.tested_count == 0)
    }

    /// Builds an idle engine. The target bytes arrive already read from
    /// `file_path`; a generated strategy's charset is normalized here, so
    /// that enumeration follows the deduplicated, code-point-sorted order.
    pub fn new(file_path: String, target: Vec<u8>, workers: usize, strategy: Strategy) -> (r:
        Cracker)
        ensures
            r.wf(),
            r.spec_target() == target@,
            r.spec_file_path() == file_path@,
            r.spec_workers() == workers as nat,
            r.spec_tested() == 0,
            !r.spec_started(),
            strategy matches Strategy::PasswordFile(data) ==> r.spec_strategy() == strategy,
            strategy matches Strategy::GenPasswords {
                charsets: cs,
                min_password_len: mn,
                max_password_len: mx,
            } ==> r.spec_strategy() matches Strategy::GenPasswords {
                charsets: cs2,
                min_password_len: mn2,
                max_password_len: mx2,
            } && mn2 == mn && mx2 == mx && strictly_sorted_chars(cs2@) && (forall|c: char|
                cs2@.contains(c) <==> cs@.contains(c)),
    {
        let normalized = match strategy {
            Strategy::PasswordFile(data) => Strategy::PasswordFile(data),
            Strategy::GenPasswords { charsets, min_password_len, max_password_len } => {
                let cs = normalize_charset(&charsets);
                Strategy::GenPasswords { charsets: cs, min_password_len, max_password_len }
            },
        };
        Cracker {
            file_path,
            target,
            workers,
            strategy: normalized,
            total_count: None,
            tested_count: 0,
            started: false,
        }
    }

    /// The total candidate count: the dictionary's line count or the
    /// checked sum over the charset, computed once and cached; errors
    /// exactly on inadmissible strategy inputs and on arithmetic
    /// overflow.
    pub fn count(&mut self) -> (r: Result<usize, Errors>)
        requires
            old(self).wf(),
        ensures
            final(self).wf(),
            final(self).spec_target() == old(self).spec_target(),
            final(self).spec_file_path() == old(self).spec_file_path(),
            final(self).spec_strategy() == old(self).spec_strategy(),
            final(self).spec_workers() == old(self).spec_workers(),
            final(self).spec_tested() == old(self).spec_tested(),
            final(self).spec_started() == old(self).spec_started(),
            r matches Ok(c) ==> c as nat == spec_candidates(old(self).spec_strategy()).len(),
            r is Ok <==> spec_strategy_valid(old(self).spec_strategy()) && spec_candidates(
                old(self).spec_strategy(),
            ).len() <= usize::MAX,
            !spec_strategy_valid(old(self).spec_strategy()) ==> r matches Err(
                Errors::CliArgumentError { .. },
            ),
            spec_strategy_valid(old(self).spec_strategy()) && spec_candidates(
                old(self).spec_strategy(),
            ).len() > usize::MAX ==> r matches Err(Errors::MathError { .. }),
    {
        match self.total_count {
            Some(c) => Ok(c),
            None => {
                match get_password_count(&self.strategy) {
                    Ok(c) => {
                        self.total_count = Some(c);
                        Ok(c)
                    },
                    Err(e) => Err(e),
                }
            },
        }
    }

    /// The progress counter: how many candidates have been tested. It
    /// never decreases while the search runs, and never exceeds the total
    /// candidate count.
    pub fn tested_count(&self) -> (r: u64)
        ensures
            r as nat == self.spec_tested(),
    {
        self.tested_count
    }

    /// Runs the search to completion: sniffs the target's type, validates
    /// it, and tests the strategy's candidates in enumeration order until
    /// one decrypts the target or the space is exhausted.
    ///
    /// For a ZIP target the outcome is pinned down exactly: a found
    /// password is the first candidate whose probe verdict is positive,
    /// exhaustion means no candidate's verdict is, and the tested counter
    /// ends at the number of candidates tried. Every fatal condition -
    /// zero workers, an inadmissible strategy, an overflowing candidate
    /// space, an unsupported or unencrypted target, a malformed archive -
    /// surfaces as its own error kind before any candidate is tested.
    /// The search runs at most once: a second call returns an argument
    /// error and changes nothing, so the progress counter never
    /// decreases.
    pub fn start(&mut self) -> (r: Result<Option<String>, Errors>)
        requires
            old(self).wf(),
        ensures
            final(self).wf(),
            final(self).spec_target() == old(self).spec_target(),
            final(self).spec_file_path() == old(self).spec_file_path(),
            final(self).spec_strategy() == old(self).spec_strategy(),
            final(self).spec_workers() == old(self).spec_workers(),
            final(self).spec_tested() >= old(self).spec_tested(),
            r is Err ==> final(self).spec_tested() == old(self).spec_tested(),
            r is Ok ==> final(self).spec_tested() <= spec_candidates(
                old(self).spec_strategy(),
            ).len(),
            old(self).spec_started() ==> (r matches Err(Errors::CliArgumentError { .. }))
                && *final(self) == *old(self),
            !old(self).spec_started() ==> final(self).spec_started(),
            !old(self).spec_started() && old(self).spec_workers() == 0 ==> r matches Err(
                Errors::CliArgumentError { .. },
            ),
            !old(self).spec_started() && old(self).spec_workers() >= 1 && !spec_strategy_valid(
                old(self).spec_strategy(),
            ) ==> r matches Err(Errors::CliArgumentError { .. }),
            !old(self).spec_started() && old(self).spec_workers() >= 1 && spec_strategy_valid(
                old(self).spec_strategy(),
            ) && spec_candidates(old(self).spec_strategy()).len() > usize::MAX ==> r matches Err(
                Errors::MathError { .. },
            ),
            start_preflight_ok(*old(self)) ==> {
                &&& !spec_is_zip(old(self).spec_target()) && !spec_is_rar(
                    old(self).spec_target(),
                ) && !spec_is_7z(old(self).spec_target()) ==> (r matches Err(
                    Errors::UnsupportedOrUnencrypted { .. },
                ))
                &&& spec_is_zip(old(self).spec_target()) && spec_zip_header_ok(
                    old(self).spec_target(),
                ) && !spec_zip_encrypted(old(self).spec_target()) ==> (r matches Err(
                    Errors::UnsupportedOrUnencrypted { .. },
                ))
                &&& spec_is_zip(old(self).spec_target()) && spec_zip_encrypted(
                    old(self).spec_target(),
                ) && !zip_searchable(old(self).spec_target()) ==> (r matches Err(
                    Errors::InvalidZip { .. },
                ))
                &&& spec_is_zip(old(self).spec_target()) && zip_searchable(
                    old(self).spec_target(),
                ) ==> {
                    &&& r is Ok
                    &&& r matches Ok(Some(p)) ==> exists|k: int|
                        #[trigger] zip_first_match_at(
                            old(self).spec_target(),
                            spec_candidates(old(self).spec_strategy()),
                            k,
                        ) && p@ == spec_candidates(old(self).spec_strategy())[k] && final(self).spec_tested() == k + 1
                    &&& r matches Ok(None) ==> (forall|k: int|
                        0 <= k < spec_candidates(old(self).spec_strategy()).len()
                            ==> !spec_zip_candidate_match(
                            old(self).spec_target(),
                            spec_candidates(old(self).spec_strategy())[k],
                        )) && final(self).spec_tested() == spec_candidates(
                        old(self).spec_strategy(),
                    ).len()
                }
                &&& !spec_is_zip(old(self).spec_target()) && (spec_is_rar(
                    old(self).spec_target(),
                ) || spec_is_7z(old(self).spec_target())) ==> {
                    &&& r is Ok
                    &&& r matches Ok(Some(p)) ==> exists|k: int|
                        0 <= k < spec_candidates(old(self).spec_strategy()).len() && p@
                            == #[trigger] spec_candidates(old(self).spec_strategy())[k]
                            && final(self).spec_tested() == k + 1
                    &&& r matches Ok(None) ==> final(self).spec_tested() == spec_candidates(
                        old(self).spec_strategy(),
                    ).len()
                }
            },
    {
        if self.started {
            return Err(Errors::CliArgumentError {
                message: String::from_str("the search was already started"),
            });
        }
        self.started = true;
        if self.workers == 0 {
            return Err(Errors::CliArgumentError {
                message: String::from_str("at least one worker is needed"),
            });
        }
        match get_password_count(&self.strategy) {
            Ok(_) => {},
            Err(e) => {
                return Err(e);
            },
        }
        let is_zip_target = sniff_is_zip(&self.target);
        let is_rar_target = sniff_is_rar(&self.target);
        let is_7z_target = sniff_is_7z(&self.target);
        let batching = batch_size(self.workers, if is_7z_target {
            10
        } else {
            500
        });
        if is_zip_target {
            let aes_info = match validate_zip(&self.target) {
                Ok(a) => a,
                Err(e) => {
                    return Err(e);
                },
            };
            let archive = self.target.clone();
            proof {
                assert(archive@ =~= self.target@);
            }
            let stream = make_candidate_stream(&self.strategy);
            let sharded = filter_for_worker_index(stream, 1, 1);
            proof {
                sharded.lemma_unsharded();
            }
            let probe = Probe::Zip { archive, aes_info };
            let mut worker = PasswordWorker::new(probe, sharded, batching);
            let (found, tried) = worker.run_to_completion();
            self.tested_count = tried as u64;
            proof {
                assert forall|w: Seq<char>|
                    #[trigger] password_worker::probe_matches(worker.spec_probe(), w)
                        == spec_zip_candidate_match(self.target@, w) by {}
            }
            match found {
                Some(p) => {
                    proof {
                        let cands = spec_candidates(self.strategy);
                        assert(worker.all() == cands);
                        assert(tried >= 1);
                        assert(worker.shard_index((tried - 1) as nat) == (tried - 1) as nat);
                        assert(((tried - 1) as nat) < cands.len());
                        assert(p@ == cands[tried - 1]);
                        assert(spec_zip_candidate_match(self.target@, p@));
                        assert forall|j: int|
                            0 <= j < tried - 1 implies !spec_zip_candidate_match(
                            self.target@,
                            cands[j],
                        ) by {
                            assert(worker.shard_index(j as nat) == j as nat);
                            assert(!password_worker::probe_matches(
                                worker.spec_probe(),
                                worker.all()[worker.shard_index(j as nat) as int],
                            ));
                        }
                        assert(zip_first_match_at(self.target@, cands, tried - 1));
                    }
                    Ok(Some(p))
                },
                None => {
                    proof {
                        let cands = spec_candidates(self.strategy);
                        assert(worker.all() == cands);
                        assert(worker.shard_index(tried as nat) == tried as nat);
                        assert(tried == cands.len());
                        assert forall|k: int|
                            0 <= k < cands.len() implies !spec_zip_candidate_match(
                            self.target@,
                            cands[k],
                        ) by {
                            assert(worker.shard_index(k as nat) == k as nat);
                            assert(!password_worker::probe_matches(
                                worker.spec_probe(),
                                worker.all()[worker.shard_index(k as nat) as int],
                            ));
                        }
                    }
                    Ok(None)
                },
            }
        } else if is_rar_target {
            let stream = make_candidate_stream(&self.strategy);
            let sharded = filter_for_worker_index(stream, 1, 1);
            proof {
                sharded.lemma_unsharded();
            }
            let probe = Probe::Rar { path: self.file_path.clone() };
            let mut worker = PasswordWorker::new(probe, sharded, batching);
            let (found, tried) = worker.run_to_completion();
            self.tested_count = tried as u64;
            Ok(found)
        } else if is_7z_target {
            let stream = make_candidate_stream(&self.strategy);
            let sharded = filter_for_worker_index(stream, 1, 1);
            proof {
                sharded.lemma_unsharded();
            }
            let probe = Probe::SevenZ {
                path: self.file_path.clone(),
                extract_dir: String::from_str("test"),
            };
            let mut worker = PasswordWorker::new(probe, sharded, batching);
            let (found, tried) = worker.run_to_completion();
            self.tested_count = tried as u64;
            Ok(found)
        } else if sniff_is_pdf(&self.target) {
            // the sniff recognizes PDF, but probing one takes its outside
            // decoder, which this build does not carry
            Err(Errors::UnsupportedOrUnencrypted {
                message: String::from_str("PDF targets are not supported"),
            })
        } else {
            Err(Errors::UnsupportedOrUnencrypted {
                message: String::from_str("the target's format is not supported"),
            })
        }
    }
}

} // verus!
