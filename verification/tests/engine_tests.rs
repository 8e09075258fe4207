use password_crack::Cracker;
use password_crack::Errors;
use password_crack::Strategy;
use password_crack::validate_zip;
use password_crack::verify_zip_password;

fn zip_hello() -> Vec<u8> {
    vec![80, 75, 3, 4, 20, 0, 1, 0, 0, 0, 0, 0, 33, 0, 178, 3, 181, 173, 26, 0, 0, 0, 14, 0, 0, 0, 5, 0, 0, 0, 97, 46, 116, 120, 116, 50, 251, 133, 130, 129, 167, 139, 214, 31, 236, 140, 74, 33, 4, 186, 70, 16, 43, 145, 150, 211, 198, 92, 66, 227, 117, 80, 75, 1, 2, 20, 0, 20, 0, 1, 0, 0, 0, 0, 0, 33, 0, 178, 3, 181, 173, 26, 0, 0, 0, 14, 0, 0, 0, 5, 0, 0, 0, 0, 0, 0, 0, 0, 0, 0, 0, 0, 0, 0, 0, 0, 0, 97, 46, 116, 120, 116, 80, 75, 5, 6, 0, 0, 0, 0, 1, 0, 1, 0, 51, 0, 0, 0, 61, 0, 0, 0, 0, 0]
}
fn zip_42() -> Vec<u8> {
    vec![80, 75, 3, 4, 20, 0, 1, 0, 0, 0, 0, 0, 33, 0, 37, 74, 221, 218, 18, 0, 0, 0, 6, 0, 0, 0, 5, 0, 0, 0, 97, 46, 116, 120, 116, 105, 15, 32, 217, 247, 244, 209, 203, 244, 255, 84, 17, 168, 139, 104, 79, 56, 42, 80, 75, 1, 2, 20, 0, 20, 0, 1, 0, 0, 0, 0, 0, 33, 0, 37, 74, 221, 218, 18, 0, 0, 0, 6, 0, 0, 0, 5, 0, 0, 0, 0, 0, 0, 0, 0, 0, 0, 0, 0, 0, 0, 0, 0, 0, 97, 46, 116, 120, 116, 80, 75, 5, 6, 0, 0, 0, 0, 1, 0, 1, 0, 51, 0, 0, 0, 53, 0, 0, 0, 0, 0]
}
fn zip_aes_secretx1() -> Vec<u8> {
    vec![80, 75, 3, 4, 51, 0, 1, 0, 99, 0, 0, 0, 33, 0, 0, 0, 0, 0, 60, 0, 0, 0, 32, 0, 0, 0, 5, 0, 11, 0, 98, 46, 116, 120, 116, 1, 153, 7, 0, 2, 0, 65, 69, 3, 0, 0, 1, 2, 3, 4, 5, 6, 7, 8, 9, 10, 11, 12, 13, 14, 15, 16, 228, 117, 170, 170, 170, 170, 170, 170, 170, 170, 170, 170, 170, 170, 170, 170, 170, 170, 170, 170, 170, 170, 170, 170, 170, 170, 170, 170, 170, 170, 170, 170, 170, 170, 187, 187, 187, 187, 187, 187, 187, 187, 187, 187, 80, 75, 1, 2, 51, 0, 51, 0, 1, 0, 99, 0, 0, 0, 33, 0, 0, 0, 0, 0, 60, 0, 0, 0, 32, 0, 0, 0, 5, 0, 11, 0, 0, 0, 0, 0, 0, 0, 0, 0, 0, 0, 0, 0, 0, 0, 98, 46, 116, 120, 116, 1, 153, 7, 0, 2, 0, 65, 69, 3, 0, 0, 80, 75, 5, 6, 0, 0, 0, 0, 1, 0, 1, 0, 62, 0, 0, 0, 106, 0, 0, 0, 0, 0]
}
fn zip_plain() -> Vec<u8> {
    vec![80, 75, 3, 4, 20, 0, 0, 0, 0, 0, 166, 30, 76, 93, 207, 98, 32, 25, 5, 0, 0, 0, 5, 0, 0, 0, 5, 0, 0, 0, 112, 46, 116, 120, 116, 112, 108, 97, 105, 110, 80, 75, 1, 2, 20, 3, 20, 0, 0, 0, 0, 0, 166, 30, 76, 93, 207, 98, 32, 25, 5, 0, 0, 0, 5, 0, 0, 0, 5, 0, 0, 0, 0, 0, 0, 0, 0, 0, 0, 0, 128, 1, 0, 0, 0, 0, 112, 46, 116, 120, 116, 80, 75, 5, 6, 0, 0, 0, 0, 1, 0, 1, 0, 51, 0, 0, 0, 40, 0, 0, 0, 0, 0]
}
fn zip_aes_valid_secretx1() -> Vec<u8> {
    vec![80, 75, 3, 4, 51, 0, 1, 0, 99, 0, 0, 0, 33, 0, 0, 0, 0, 0, 46, 0, 0, 0, 18, 0, 0, 0, 5, 0, 11, 0, 98, 46, 116, 120, 116, 1, 153, 7, 0, 2, 0, 65, 69, 3, 0, 0, 101, 102, 103, 104, 105, 106, 107, 108, 109, 110, 111, 112, 113, 114, 115, 116, 42, 42, 222, 7, 100, 102, 51, 19, 18, 84, 44, 125, 106, 158, 253, 170, 31, 114, 47, 66, 41, 83, 77, 72, 84, 240, 248, 191, 106, 16, 80, 75, 1, 2, 51, 0, 51, 0, 1, 0, 99, 0, 0, 0, 33, 0, 0, 0, 0, 0, 46, 0, 0, 0, 18, 0, 0, 0, 5, 0, 11, 0, 0, 0, 0, 0, 0, 0, 0, 0, 0, 0, 0, 0, 0, 0, 98, 46, 116, 120, 116, 1, 153, 7, 0, 2, 0, 65, 69, 3, 0, 0, 80, 75, 5, 6, 0, 0, 0, 0, 1, 0, 1, 0, 62, 0, 0, 0, 92, 0, 0, 0, 0, 0]
}

fn digits() -> Vec<char> {
    "0123456789".chars().collect()
}

#[test]
fn zipcrypto_dictionary_hit() {
    // a legacy-encrypted entry with password hello; three dictionary words
    let dict = b"apple\nhello\nworld\n".to_vec();
    let mut cracker = Cracker::new(
        "t.zip".to_string(),
        zip_hello(),
        2,
        Strategy::PasswordFile(dict),
    );
    assert_eq!(cracker.count().unwrap(), 3);
    let found = cracker.start().unwrap();
    assert_eq!(found.as_deref(), Some("hello"));
    assert!(cracker.tested_count() <= 3);
}

#[test]
fn aes_dictionary_miss() {
    // AES-256 entry with password SecretX1; none of a, b, c matches
    let dict = b"a\nb\nc".to_vec();
    let mut cracker = Cracker::new(
        "t.zip".to_string(),
        zip_aes_secretx1(),
        4,
        Strategy::PasswordFile(dict),
    );
    let found = cracker.start().unwrap();
    assert!(found.is_none());
    assert_eq!(cracker.tested_count(), 3);
}

#[test]
fn aes_dictionary_hit() {
    // a fully valid AES-256 entry: the right password must survive both
    // the PBKDF2 fast reject and the decrypt-and-read confirmation
    let dict = b"nope\nSecretX1\nzzz".to_vec();
    let mut cracker = Cracker::new(
        "t.zip".to_string(),
        zip_aes_valid_secretx1(),
        1,
        Strategy::PasswordFile(dict),
    );
    let found = cracker.start().unwrap();
    assert_eq!(found.as_deref(), Some("SecretX1"));
    assert_eq!(cracker.tested_count(), 2);
}

#[test]
fn generated_hit_small() {
    // ZipCrypto archive with password 42; digits, lengths 1 to 2
    let mut cracker = Cracker::new(
        "t.zip".to_string(),
        zip_42(),
        3,
        Strategy::GenPasswords { charsets: digits(), min_password_len: 1, max_password_len: 2 },
    );
    assert_eq!(cracker.count().unwrap(), 110);
    let found = cracker.start().unwrap();
    assert_eq!(found.as_deref(), Some("42"));
    assert!(cracker.tested_count() <= 110);
}

#[test]
fn overflow_is_fatal_before_any_work() {
    let big: Vec<char> = (0..100u32).map(|i| char::from_u32(1000 + i).unwrap()).collect();
    let mut cracker = Cracker::new(
        "t.zip".to_string(),
        zip_hello(),
        2,
        Strategy::GenPasswords { charsets: big, min_password_len: 1, max_password_len: 12 },
    );
    assert!(matches!(cracker.count(), Err(Errors::MathError { .. })));
    assert!(matches!(cracker.start(), Err(Errors::MathError { .. })));
    assert_eq!(cracker.tested_count(), 0);
}

#[test]
fn unencrypted_target_is_fatal() {
    let dict = b"a\nb".to_vec();
    let mut cracker = Cracker::new(
        "t.zip".to_string(),
        zip_plain(),
        2,
        Strategy::PasswordFile(dict),
    );
    let r = cracker.start();
    assert!(matches!(r, Err(Errors::UnsupportedOrUnencrypted { .. })));
}

#[test]
fn unknown_format_is_fatal() {
    let dict = b"a\nb".to_vec();
    let mut cracker = Cracker::new(
        "t.bin".to_string(),
        vec![0, 1, 2, 3, 4, 5, 6, 7],
        2,
        Strategy::PasswordFile(dict),
    );
    let r = cracker.start();
    assert!(matches!(r, Err(Errors::UnsupportedOrUnencrypted { .. })));
}

#[test]
fn truncated_zip_is_invalid() {
    let mut cracker = Cracker::new(
        "t.zip".to_string(),
        vec![0x50, 0x4b, 0x03, 0x04],
        1,
        Strategy::PasswordFile(b"a".to_vec()),
    );
    let r = cracker.start();
    assert!(matches!(r, Err(Errors::InvalidZip { .. })));
}

#[test]
fn zero_workers_rejected() {
    let mut cracker = Cracker::new(
        "t.zip".to_string(),
        zip_hello(),
        0,
        Strategy::PasswordFile(b"a".to_vec()),
    );
    assert!(matches!(cracker.start(), Err(Errors::CliArgumentError { .. })));
}

#[test]
fn empty_charset_rejected() {
    let mut cracker = Cracker::new(
        "t.zip".to_string(),
        zip_hello(),
        1,
        Strategy::GenPasswords { charsets: Vec::new(), min_password_len: 1, max_password_len: 2 },
    );
    assert!(matches!(cracker.count(), Err(Errors::CliArgumentError { .. })));
    assert!(matches!(cracker.start(), Err(Errors::CliArgumentError { .. })));
}

#[test]
fn stop_soon_after_match_in_large_space() {
    // over a million candidates; the engine must stop right after the hit
    let mut cracker = Cracker::new(
        "t.zip".to_string(),
        zip_42(),
        3,
        Strategy::GenPasswords { charsets: digits(), min_password_len: 1, max_password_len: 6 },
    );
    assert_eq!(cracker.count().unwrap(), 1111110);
    let found = cracker.start().unwrap();
    assert_eq!(found.as_deref(), Some("42"));
    // the hit sits at candidate index 52; the engine stops within one
    // batch of it
    let k: u64 = 53;
    assert!(cracker.tested_count() >= k);
    assert!(cracker.tested_count() <= k + 3 * 500);
}

#[test]
fn validate_zip_reads_aes_handshake() {
    let info = validate_zip(&zip_aes_secretx1()).unwrap().unwrap();
    assert_eq!(info.aes_key_length, 32);
    assert_eq!(info.derived_key_length, 66);
    assert_eq!(info.salt, (1u8..=16).collect::<Vec<u8>>());
    assert_eq!(info.key, vec![0xe4, 0x75]);
    assert!(validate_zip(&zip_hello()).unwrap().is_none());
    assert!(matches!(
        validate_zip(&zip_plain()),
        Err(Errors::UnsupportedOrUnencrypted { .. })
    ));
}

#[test]
fn verify_is_idempotent() {
    // the same target and password always give the same verdict
    let archive = zip_hello();
    let first = verify_zip_password(&archive, &None, &"hello".to_string());
    let second = verify_zip_password(&archive, &None, &"hello".to_string());
    assert!(first);
    assert_eq!(first, second);
    let wrong1 = verify_zip_password(&archive, &None, &"nope".to_string());
    let wrong2 = verify_zip_password(&archive, &None, &"nope".to_string());
    assert!(!wrong1);
    assert_eq!(wrong1, wrong2);
}

#[test]
fn empty_dictionary_is_exhausted_at_once() {
    let mut cracker = Cracker::new(
        "t.zip".to_string(),
        zip_hello(),
        2,
        Strategy::PasswordFile(Vec::new()),
    );
    assert_eq!(cracker.count().unwrap(), 0);
    let found = cracker.start().unwrap();
    assert!(found.is_none());
    assert_eq!(cracker.tested_count(), 0);
}

#[test]
fn equal_min_and_max_lengths() {
    let mut cracker = Cracker::new(
        "t.zip".to_string(),
        zip_42(),
        1,
        Strategy::GenPasswords { charsets: digits(), min_password_len: 2, max_password_len: 2 },
    );
    assert_eq!(cracker.count().unwrap(), 100);
    let found = cracker.start().unwrap();
    assert_eq!(found.as_deref(), Some("42"));
}

#[test]
fn duplicate_charset_entries_are_normalized() {
    // the effective charset is deduplicated, so the space stays 110
    let mut doubled = digits();
    doubled.extend(digits());
    let mut cracker = Cracker::new(
        "t.zip".to_string(),
        zip_42(),
        1,
        Strategy::GenPasswords { charsets: doubled, min_password_len: 1, max_password_len: 2 },
    );
    assert_eq!(cracker.count().unwrap(), 110);
    let found = cracker.start().unwrap();
    assert_eq!(found.as_deref(), Some("42"));
}

#[test]
fn start_runs_at_most_once() {
    let dict = b"apple\nhello\nworld\n".to_vec();
    let mut cracker = Cracker::new(
        "t.zip".to_string(),
        zip_hello(),
        2,
        Strategy::PasswordFile(dict),
    );
    let first = cracker.start().unwrap();
    assert_eq!(first.as_deref(), Some("hello"));
    let tested_after_first = cracker.tested_count();
    // a second start is rejected and moves nothing
    let second = cracker.start();
    assert!(matches!(second, Err(Errors::CliArgumentError { .. })));
    assert_eq!(cracker.tested_count(), tested_after_first);
}

#[test]
fn count_is_cached() {
    let mut cracker = Cracker::new(
        "t.zip".to_string(),
        zip_42(),
        1,
        Strategy::GenPasswords { charsets: digits(), min_password_len: 1, max_password_len: 3 },
    );
    assert_eq!(cracker.count().unwrap(), 1110);
    assert_eq!(cracker.count().unwrap(), 1110);
}
