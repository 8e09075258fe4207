//! Per-candidate probes and the worker loop.
//!
//! A worker owns one shard of the candidate stream and one probe: for ZIP
//! targets the archive bytes with the optional AES handshake data, for RAR
//! and 7z targets the file path handed to the outside decoder. Work is done
//! in batches so that a driver can publish progress and honor a stop signal
//! between batches without touching the hot path.

use vstd::prelude::*;

use crate::password_finder::ShardedStream;
use crate::zip_utils::AesInfo;
use crate::zip_utils::spec_aes_key_len;
use crate::zip_utils::spec_aes_ok;
use crate::zip_utils::spec_aes_salt;
use crate::zip_utils::spec_aes_strength;
use crate::zip_utils::spec_aes_verifier;
use crate::zip_utils::spec_zip_encrypted;
use crate::zip_utils::spec_zip_header_ok;
use crate::zip_utils::spec_zip_is_aes;
use vstd::utf8::encode_utf8;

verus! {

/// Exactly when `infer` recognizes the buffer as a ZIP file.
pub open spec fn spec_is_zip(data: Seq<u8>) -> bool {
    data.len() > 3 && data[0] == 0x50 && data[1] == 0x4b && ((data[2] == 0x03 && data[3] == 0x04)
        || (data[2] == 0x05 && data[3] == 0x06) || (data[2] == 0x07 && data[3] == 0x08) || (
    data.len() > 7 && data[2] == 0x30 && data[3] == 0x30 && data[4] == 0x50 && data[5] == 0x4b
        && data[6] == 0x03 && data[7] == 0x04))
}

/// Exactly when `infer` recognizes the buffer as a RAR file.
pub open spec fn spec_is_rar(data: Seq<u8>) -> bool {
    data.len() > 6 && data[0] == 0x52 && data[1] == 0x61 && data[2] == 0x72 && data[3] == 0x21
        && data[4] == 0x1a && data[5] == 0x07 && (data[6] == 0x00 || data[6] == 0x01)
}

/// Exactly when `infer` recognizes the buffer as a 7z file.
pub open spec fn spec_is_7z(data: Seq<u8>) -> bool {
    data.len() > 5 && data[0] == 0x37 && data[1] == 0x7a && data[2] == 0xbc && data[3] == 0xaf
        && data[4] == 0x27 && data[5] == 0x1c
}

/// Exactly when `infer` recognizes the buffer as a PDF file: the `%PDF`
/// marker somewhere in the first kibibyte.
pub open spec fn spec_is_pdf(data: Seq<u8>) -> bool {
    let limit: int = if data.len() < 1024 {
        data.len() as int
    } else {
        1024
    };
    exists|i: int|
        0 <= i && i + 4 <= limit && #[trigger] data[i] == 0x25 && data[i + 1] == 0x50 && data[i
            + 2] == 0x44 && data[i + 3] == 0x46
}

/// Sniffs the ZIP magic numbers.
///
/// Relies on `infer::archive::is_zip`: true exactly on the ZIP signatures
/// tested in its source.
#[verifier::external_body]
pub(crate) fn sniff_is_zip(data: &Vec<u8>) -> (r: bool)
    ensures
        r == spec_is_zip(data@),
{
    infer::archive::is_zip(data.as_slice())
}

/// Sniffs the RAR magic numbers.
///
/// Relies on `infer::archive::is_rar`: true exactly on the RAR signature
/// tested in its source.
#[verifier::external_body]
pub(crate) fn sniff_is_rar(data: &Vec<u8>) -> (r: bool)
    ensures
        r == spec_is_rar(data@),
{
    infer::archive::is_rar(data.as_slice())
}

/// Sniffs the 7z magic numbers.
///
/// Relies on `infer::archive::is_7z`: true exactly on the 7z signature
/// tested in its source.
#[verifier::external_body]
pub(crate) fn sniff_is_7z(data: &Vec<u8>) -> (r: bool)
    ensures
        r == spec_is_7z(data@),
{
    infer::archive::is_7z(data.as_slice())
}

/// Sniffs the PDF marker.
///
/// Relies on `infer::archive::is_pdf`: true exactly when `%PDF` occurs in
/// the first kibibyte, as its source shows.
#[verifier::external_body]
pub(crate) fn sniff_is_pdf(data: &Vec<u8>) -> (r: bool)
    ensures
        r == spec_is_pdf(data@),
{
    infer::archive::is_pdf(data.as_slice())
}

/// The PBKDF2-HMAC-SHA1 derivation: `out_len` bytes from a password and a
/// salt after the given rounds. A function of its arguments alone; no
/// short statement of its value exists, so it is named and left opaque.
pub uninterp spec fn pbkdf2_hmac_sha1(password: Seq<u8>, salt: Seq<u8>, rounds: u32, out_len: nat) -> Seq<u8>;

/// Derives a key block from a candidate password and a salt.
///
/// Relies on `pbkdf2::pbkdf2` with `Hmac<Sha1>`: it fills the output
/// buffer with the PBKDF2-HMAC-SHA1 derivation, a deterministic function
/// of password, salt, round count and output length. This is the same
/// function the `zip` crate calls when it validates an AES password.
#[verifier::external_body]
pub(crate) fn derive_pbkdf2_sha1(password: &Vec<u8>, salt: &Vec<u8>, rounds: u32, out_len: usize) -> (r: Vec<u8>)
    ensures
        r@ == pbkdf2_hmac_sha1(password@, salt@, rounds, out_len as nat),
        r@.len() == out_len,
{
    let mut out = vec![0u8; out_len];
    pbkdf2::pbkdf2::<hmac::Hmac<sha1::Sha1>>(password.as_slice(), salt.as_slice(), rounds, &mut out);
    out
}

/// Whether this password decrypts the archive's first entry and the entry
/// then reads back whole. Decided by the `zip` crate on the bytes and the
/// password alone, so it gets a name rather than a statement.
pub uninterp spec fn zip_password_match(archive: Seq<u8>, password: Seq<u8>) -> bool;

/// Tries one candidate against an in-memory ZIP archive, reading the
/// first entry to its end to rule out the ZipCrypto header collisions.
///
/// Relies on `zip::ZipArchive::{new, by_index_decrypt}` and on reading the
/// returned entry to the end: the outcome is a function of the archive
/// bytes and the password alone. Any failure - an unreadable archive, a
/// rejected password, or an integrity error while reading - counts as no
/// match. An entry whose compression method this build cannot decompress
/// is also no match; it is never read, because the outside reader panics
/// on such a method instead of returning an error.
#[verifier::external_body]
pub(crate) fn zip_try_password(archive: &Vec<u8>, password: &Vec<u8>) -> (r: bool)
    ensures
        r == zip_password_match(archive@, password@),
{
    let mut zip_archive = match zip::ZipArchive::new(std::io::Cursor::new(archive.as_slice())) {
        Ok(a) => a,
        Err(_) => return false,
    };
    let matched = match zip_archive.by_index_decrypt(0, password.as_slice()) {
        Ok(Ok(mut entry)) => (entry.compression() == zip::CompressionMethod::Stored
            || entry.compression() == zip::CompressionMethod::Deflated)
            && std::io::Read::read_to_end(&mut entry, &mut Vec::new()).is_ok(),
        _ => false,
    };
    matched
}

/// Whether the UTF-8 encoding of a string holds a NUL byte; such a
/// string cannot cross a C string boundary.
pub fn utf8_has_nul(s: &String) -> (r: bool)
    ensures
        r == exists|i: int|
            0 <= i < encode_utf8(s@).len() && #[trigger] encode_utf8(s@)[i] == 0,
{
    let bytes = s.as_str().as_bytes_vec();
    let n = bytes.len();
    let mut i: usize = 0;
    while i < n
        invariant
            i <= n,
            n == bytes@.len(),
            bytes@ == encode_utf8(s@),
            forall|j: int| 0 <= j < i ==> #[trigger] bytes@[j] != 0,
        decreases n - i,
    {
        if bytes[i] == 0 {
            return true;
        }
        i = i + 1;
    }
    false
}

/// Tests one candidate against a RAR archive on disk: the whole archive
/// is tested, entry by entry.
///
/// Relies on `unrar::Archive::with_password` and on the
/// `open_for_processing`/`read_header`/`test` sequence. That sequence
/// steps a cursor state machine living in the outside crate's types, so
/// the walk over the entries stays inside this trusted body; and the
/// outcome depends on what is on disk at the path, so nothing more is
/// stated of it. The path and the password cross a C boundary as
/// NUL-terminated strings, and the outside crate panics on an inner NUL
/// byte, so such inputs are excluded here and skipped by the caller; the
/// open path's other `unwrap`s (on its own flag and result codes) are
/// trusted not to fire.
#[verifier::external_body]
pub(crate) fn rar_try_password(path: &String, password: &String) -> (r: bool)
    requires
        forall|i: int|
            0 <= i < encode_utf8(path@).len() ==> encode_utf8(path@)[i] != 0,
        forall|i: int|
            0 <= i < encode_utf8(password@).len() ==> encode_utf8(password@)[i] != 0,
{
    let archive = unrar::Archive::with_password(path.as_str(), password.as_str());
    let mut open = match archive.open_for_processing() {
        Ok(a) => a,
        Err(_) => return false,
    };
    loop {
        match open.read_header() {
            Ok(Some(entry)) => match entry.test() {
                Ok(rest) => open = rest,
                Err(_) => return false,
            },
            Ok(None) => return true,
            Err(_) => return false,
        }
    }
}

/// Tests one candidate against a 7z archive on disk by decompressing it
/// into the given directory.
///
/// Relies on `sevenz_rust::decompress_file_with_password`: Ok exactly
/// when the archive decompresses fully under that password; the outcome
/// also depends on what is on disk at both paths, so nothing more is
/// stated.
#[verifier::external_body]
pub(crate) fn sevenz_try_password(path: &String, extract_dir: &String, password: &String) -> (r:
    bool)
{
    sevenz_rust::decompress_file_with_password(
        path.as_str(),
        extract_dir.as_str(),
        password.as_str().into(),
    ).is_ok()
}

/// The AES handshake data is usable by the verifier: a 2-byte stored
/// verification value and a derived block long enough to end in one.
pub open spec fn aes_info_wf(info: AesInfo) -> bool {
    &&& info.key@.len() == 2
    &&& 2 <= info.derived_key_length
}

/// The verdict of the ZIP probe on one candidate, given the handshake
/// data: under AES the PBKDF2 fast reject must pass and the full
/// decrypt-and-read must succeed; under ZipCrypto the trial decryption
/// decides alone.
pub open spec fn spec_zip_pw_ok(archive: Seq<u8>, aes: Option<AesInfo>, password: Seq<u8>) -> bool {
    match aes {
        Some(info) => {
            let dk = pbkdf2_hmac_sha1(password, info.salt@, 1000, info.derived_key_length as nat);
            &&& dk.subrange(info.derived_key_length - 2, info.derived_key_length as int)
                == info.key@
            &&& zip_password_match(archive, password)
        },
        None => zip_password_match(archive, password),
    }
}

/// Verifies one candidate against a ZIP archive: the PBKDF2 fast reject
/// for AES entries, then the decrypt-and-read confirmation. Returns true
/// exactly on the verdict `spec_zip_pw_ok`; calling it again with the
/// same archive, handshake data and password returns the same verdict.
pub fn verify_zip_password(archive: &Vec<u8>, aes: &Option<AesInfo>, password: &String) -> (r:
    bool)
    requires
        match *aes {
            Some(info) => aes_info_wf(info),
            None => true,
        },
    ensures
        r == spec_zip_pw_ok(archive@, *aes, encode_utf8(password@)),
{
    let password_bytes = password.as_str().as_bytes_vec();
    match aes {
        Some(info) => {
            let dk = derive_pbkdf2_sha1(&password_bytes, &info.salt, 1000,
                info.derived_key_length);
            let v0 = dk[info.derived_key_length - 2];
            let v1 = dk[info.derived_key_length - 1];
            proof {
                assert(dk@.subrange(
                    info.derived_key_length - 2,
                    info.derived_key_length as int,
                ) =~= seq![v0, v1]);
                assert(info.key@ =~= seq![info.key@[0], info.key@[1]]);
            }
            if v0 == info.key[0] && v1 == info.key[1] {
                zip_try_password(archive, &password_bytes)
            } else {
                false
            }
        },
        None => zip_try_password(archive, &password_bytes),
    }
}

/// The ZIP probe's verdict on one candidate, written over the archive
/// bytes alone: for a well-formed AES entry the PBKDF2 fast reject and
/// the full trial must both pass; otherwise the trial decryption decides.
pub open spec fn spec_zip_candidate_match(archive: Seq<u8>, word: Seq<char>) -> bool {
    let pw = encode_utf8(word);
    if spec_zip_header_ok(archive) && spec_zip_encrypted(archive) && spec_zip_is_aes(archive)
        && spec_aes_ok(archive) {
        let dkl = 2 * spec_aes_key_len(spec_aes_strength(archive)) + 2;
        &&& pbkdf2_hmac_sha1(pw, spec_aes_salt(archive), 1000, dkl as nat).subrange(
            dkl - 2,
            dkl as int,
        ) == spec_aes_verifier(archive)
        &&& zip_password_match(archive, pw)
    } else {
        zip_password_match(archive, pw)
    }
}

/// AES fast-reject soundness, the engine's half: a candidate whose
/// PBKDF2 verification bytes do not match the stored value is never
/// reported as a match. The shortcut only ever filters; that a filtered
/// candidate could not have decrypted the entry either is the WinZip AE
/// scheme's guarantee, applied identically by the outside decoder before
/// it decrypts.
pub proof fn lemma_aes_fast_reject(target: Seq<u8>, word: Seq<char>)
    requires
        spec_zip_header_ok(target),
        spec_zip_encrypted(target),
        spec_zip_is_aes(target),
        spec_aes_ok(target),
        pbkdf2_hmac_sha1(
            encode_utf8(word),
            spec_aes_salt(target),
            1000,
            (2 * spec_aes_key_len(spec_aes_strength(target)) + 2) as nat,
        ).subrange(
            2 * spec_aes_key_len(spec_aes_strength(target)),
            2 * spec_aes_key_len(spec_aes_strength(target)) + 2,
        ) != spec_aes_verifier(target),
    ensures
        !spec_zip_candidate_match(target, word),
{
}

/// What a worker probes against: an in-memory ZIP archive with its
/// handshake data, or the path of a RAR or 7z archive handed to the
/// outside decoder.
pub enum Probe {
    /// A ZIP archive loaded into memory, with the AES handshake data of
    /// its first entry when that entry is AES-encrypted.
    Zip { archive: Vec<u8>, aes_info: Option<AesInfo> },
    /// A RAR archive on disk.
    Rar { path: String },
    /// A 7z archive on disk, decompressed for testing into `extract_dir`.
    SevenZ { path: String, extract_dir: String },
}

/// The probe's own well-formedness: usable AES handshake data.
pub open spec fn probe_wf(p: Probe) -> bool {
    match p {
        Probe::Zip { archive, aes_info } => match aes_info {
            Some(info) => aes_info_wf(info),
            None => true,
        },
        Probe::Rar { .. } => true,
        Probe::SevenZ { .. } => true,
    }
}

/// The ZIP probe's verdict on a candidate, over the candidate's
/// characters. The RAR and 7z probes read the disk, so no verdict is
/// written down for them: for those probes this is constantly false, and
/// the worker contracts claim nothing through it.
pub open spec fn probe_matches(p: Probe, word: Seq<char>) -> bool {
    match p {
        Probe::Zip { archive, aes_info } => spec_zip_pw_ok(
            archive@,
            aes_info,
            encode_utf8(word),
        ),
        Probe::Rar { .. } => false,
        Probe::SevenZ { .. } => false,
    }
}

/// What one batch of work ended with.
pub enum WorkerStatus {
    /// A candidate passed its probe.
    FoundPassword(String),
    /// The shard ran out of candidates.
    Exhausted,
    /// The batch finished with no match; more candidates remain.
    InProgress,
}

/// One worker: a shard of the candidate stream, a probe, and the batch
/// size at which the driver regains control.
pub struct PasswordWorker {
    probe: Probe,
    passwords: ShardedStream,
    batching_delta: usize,
}

impl PasswordWorker {
    /// The probe this worker runs.
    pub closed spec fn spec_probe(&self) -> Probe {
        self.probe
    }

    /// The full candidate sequence under this worker's shard.
    pub closed spec fn all(&self) -> Seq<Seq<char>> {
        self.passwords.all()
    }

    /// How many candidates of the shard were already taken.
    pub closed spec fn spec_yielded(&self) -> nat {
        self.passwords.spec_yielded()
    }

    /// The full-stream index of the shard's `k`-th candidate.
    pub closed spec fn shard_index(&self, k: nat) -> nat {
        self.passwords.shard_index(k)
    }

    /// The batch size.
    pub closed spec fn spec_batching(&self) -> nat {
        self.batching_delta as nat
    }

    /// The worker invariant.
    pub closed spec fn wf(&self) -> bool {
        &&& probe_wf(self.probe)
        &&& self.passwords.wf()
        &&& self.batching_delta >= 1
    }

    /// Builds a worker over one shard.
    pub fn new(probe: Probe, passwords: ShardedStream, batching_delta: usize) -> (r:
        PasswordWorker)
        requires
            probe_wf(probe),
            passwords.wf(),
            batching_delta >= 1,
        ensures
            r.wf(),
            r.spec_probe() == probe,
            r.all() == passwords.all(),
            r.spec_yielded() == passwords.spec_yielded(),
            r.spec_batching() == batching_delta as nat,
            forall|k: nat| r.shard_index(k) == passwords.shard_index(k),
    {
        PasswordWorker { probe, passwords, batching_delta }
    }

    /// Runs one batch: up to `batching_delta` candidates of the shard,
    /// stopping early on a match or on exhaustion. Returns the status and
    /// how many candidates this batch tested; for a ZIP probe the verdict
    /// of every tested candidate is pinned down.
    pub fn run_batch(&mut self) -> (r: (WorkerStatus, usize))
        requires
            old(self).wf(),
        ensures
            final(self).wf(),
            final(self).spec_probe() == old(self).spec_probe(),
            final(self).all() == old(self).all(),
            final(self).spec_batching() == old(self).spec_batching(),
            forall|k: nat| final(self).shard_index(k) == old(self).shard_index(k),
            final(self).spec_yielded() == old(self).spec_yielded() + r.1,
            r.1 <= old(self).spec_batching(),
            r.0 matches WorkerStatus::FoundPassword(s) ==> {
                &&& r.1 >= 1
                &&& final(self).shard_index((final(self).spec_yielded() - 1) as nat) < final(self).all().len()
                &&& s@ == final(self).all()[final(self).shard_index(
                    (final(self).spec_yielded() - 1) as nat,
                ) as int]
                &&& probe_matches(final(self).spec_probe(), s@) || !(final(self).spec_probe()
                    matches Probe::Zip { .. })
                &&& forall|j: nat|
                    old(self).spec_yielded() <= j < final(self).spec_yielded() - 1
                        ==> !probe_matches(
                        final(self).spec_probe(),
                        final(self).all()[final(self).shard_index(j) as int],
                    )
            },
            r.0 is Exhausted ==> {
                &&& final(self).shard_index(final(self).spec_yielded()) >= final(self).all().len()
                &&& r.1 >= 1 ==> final(self).shard_index(
                    (final(self).spec_yielded() - 1) as nat,
                ) < final(self).all().len()
                &&& forall|j: nat|
                    old(self).spec_yielded() <= j < final(self).spec_yielded()
                        ==> !probe_matches(
                        final(self).spec_probe(),
                        final(self).all()[final(self).shard_index(j) as int],
                    )
            },
            r.0 is InProgress ==> {
                &&& r.1 == old(self).spec_batching()
                &&& final(self).shard_index((final(self).spec_yielded() - 1) as nat) < final(self).all().len()
                &&& forall|j: nat|
                    old(self).spec_yielded() <= j < final(self).spec_yielded()
                        ==> !probe_matches(
                        final(self).spec_probe(),
                        final(self).all()[final(self).shard_index(j) as int],
                    )
            },
    {
        let ghost y0 = self.passwords.spec_yielded();
        let mut processed: usize = 0;
        while processed < self.batching_delta
            invariant
                self.wf(),
                self.probe == old(self).probe,
                self.batching_delta == old(self).batching_delta,
                self.passwords.all() == old(self).passwords.all(),
                forall|k: nat| self.passwords.shard_index(k) == old(self).passwords.shard_index(
                    k,
                ),
                y0 == old(self).passwords.spec_yielded(),
                processed <= self.batching_delta,
                self.passwords.spec_yielded() == y0 + processed,
                processed >= 1 ==> self.passwords.shard_index((y0 + processed - 1) as nat)
                    < self.passwords.all().len(),
                forall|j: nat|
                    y0 <= j < y0 + processed ==> !probe_matches(
                        self.probe,
                        self.passwords.all()[self.passwords.shard_index(j) as int],
                    ),
            decreases self.batching_delta - processed,
        {
            let candidate = match self.passwords.next() {
                Some(c) => c,
                None => {
                    return (WorkerStatus::Exhausted, processed);
                },
            };
            let hit = match &self.probe {
                Probe::Zip { archive, aes_info } => verify_zip_password(archive, aes_info,
                    &candidate),
                Probe::Rar { path } => {
                    // a NUL byte cannot cross the decoder's C boundary:
                    // such a candidate can never be a RAR password
                    if utf8_has_nul(path) || utf8_has_nul(&candidate) {
                        false
                    } else {
                        rar_try_password(path, &candidate)
                    }
                },
                Probe::SevenZ { path, extract_dir } => sevenz_try_password(path, extract_dir,
                    &candidate),
            };
            processed = processed + 1;
            if hit {
                return (WorkerStatus::FoundPassword(candidate), processed);
            }
        }
        (WorkerStatus::InProgress, processed)
    }

    /// Runs the shard to the end: the first matching candidate, or
    /// nothing after every candidate of the shard was tested. The second
    /// component counts the candidates tested.
    pub fn run_to_completion(&mut self) -> (r: (Option<String>, usize))
        requires
            old(self).wf(),
            old(self).spec_yielded() == 0,
        ensures
            final(self).wf(),
            final(self).spec_probe() == old(self).spec_probe(),
            final(self).all() == old(self).all(),
            forall|k: nat| final(self).shard_index(k) == old(self).shard_index(k),
            final(self).spec_yielded() == r.1,
            r.1 <= old(self).all().len(),
            r.0 matches Some(s) ==> {
                &&& r.1 >= 1
                &&& final(self).shard_index((r.1 - 1) as nat) < final(self).all().len()
                &&& s@ == final(self).all()[final(self).shard_index((r.1 - 1) as nat) as int]
                &&& probe_matches(final(self).spec_probe(), s@) || !(final(self).spec_probe()
                    matches Probe::Zip { .. })
                &&& forall|j: nat|
                    j < r.1 - 1 ==> !probe_matches(
                        final(self).spec_probe(),
                        final(self).all()[final(self).shard_index(j) as int],
                    )
            },
            r.0 is None ==> {
                &&& final(self).shard_index(r.1 as nat) >= final(self).all().len()
                &&& forall|j: nat|
                    j < r.1 ==> !probe_matches(
                        final(self).spec_probe(),
                        final(self).all()[final(self).shard_index(j) as int],
                    )
            },
    {
        let ghost len = self.all().len();
        let mut tested: usize = 0;
        loop
            invariant
                self.wf(),
                self.spec_probe() == old(self).spec_probe(),
                self.spec_batching() == old(self).spec_batching(),
                self.all() == old(self).all(),
                forall|k: nat| self.shard_index(k) == old(self).shard_index(k),
                len == self.all().len(),
                self.spec_yielded() == tested,
                tested <= len,
                forall|j: nat|
                    j < tested ==> !probe_matches(
                        self.spec_probe(),
                        self.all()[self.shard_index(j) as int],
                    ),
            decreases len - tested,
        {
            let (status, delta) = self.run_batch();
            proof {
                self.passwords.lemma_len();
                if delta >= 1 {
                    self.passwords.lemma_index_ge((tested + delta - 1) as nat);
                }
            }
            tested = tested + delta;
            match status {
                WorkerStatus::FoundPassword(s) => {
                    return (Some(s), tested);
                },
                WorkerStatus::Exhausted => {
                    return (None, tested);
                },
                WorkerStatus::InProgress => {},
            }
        }
    }
}

} // verus!
