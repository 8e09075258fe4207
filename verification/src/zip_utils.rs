//! Verified inspection of a ZIP archive's first local file header.
//!
//! The engine needs three facts before trying passwords: whether the first
//! entry is encrypted at all, whether it uses WinZip AES, and - for AES -
//! the salt, the 2-byte password-verification value and the derived-key
//! length. All of that sits at fixed offsets in the local file header and
//! at the start of the entry data, so it is parsed here directly from the
//! archive bytes.

use vstd::prelude::*;

use crate::errors::Errors;

verus! {

/// The little-endian 16-bit value at `off`.
pub open spec fn le16(data: Seq<u8>, off: int) -> int
    recommends
        0 <= off,
        off + 2 <= data.len(),
{
    data[off] + 256 * data[off + 1]
}

/// The buffer starts with a ZIP local file header: signature `PK\x03\x04`
/// and room for the fixed 30-byte header and the variable name and extra
/// fields.
pub open spec fn spec_zip_header_ok(data: Seq<u8>) -> bool {
    &&& data.len() >= 30
    &&& data[0] == 0x50
    &&& data[1] == 0x4b
    &&& data[2] == 0x03
    &&& data[3] == 0x04
    &&& data.len() >= spec_zip_data_start(data)
}

/// Where the first entry's data begins: after the fixed header, the file
/// name and the extra field.
pub open spec fn spec_zip_data_start(data: Seq<u8>) -> int {
    30 + le16(data, 26) + le16(data, 28)
}

/// Bit 0 of the general-purpose flags: the entry is encrypted.
pub open spec fn spec_zip_encrypted(data: Seq<u8>) -> bool {
    le16(data, 6) % 2 == 1
}

/// Compression method 99 marks a WinZip AES entry.
pub open spec fn spec_zip_is_aes(data: Seq<u8>) -> bool {
    le16(data, 8) == 99
}

/// The AES strength byte found in an extra-field buffer: walks the
/// id/size-framed entries looking for id `0x9901`, whose body holds the
/// vendor version, the vendor id, and then the strength; `-1` when no
/// well-formed AES entry is there.
pub open spec fn spec_aes_strength_in(extra: Seq<u8>) -> int
    decreases extra.len(),
{
    if extra.len() < 4 {
        -1
    } else {
        let id = le16(extra, 0);
        let sz = le16(extra, 2);
        if 4 + sz > extra.len() {
            -1
        } else if id == 0x9901 {
            if sz >= 7 {
                extra[8] as int
            } else {
                -1
            }
        } else {
            spec_aes_strength_in(extra.skip(4 + sz))
        }
    }
}

/// The extra-field bytes of the first local header.
pub open spec fn spec_zip_extra(data: Seq<u8>) -> Seq<u8> {
    data.subrange(30 + le16(data, 26), spec_zip_data_start(data))
}

/// The AES strength of the first entry, out of its extra field.
pub open spec fn spec_aes_strength(data: Seq<u8>) -> int {
    spec_aes_strength_in(spec_zip_extra(data))
}

/// The salt length that a strength prescribes: 8, 12 or 16 bytes.
pub open spec fn spec_aes_salt_len(strength: int) -> int {
    4 * strength + 4
}

/// The AES key length in bytes that a strength prescribes: 16, 24 or 32.
pub open spec fn spec_aes_key_len(strength: int) -> int {
    8 * strength + 8
}

/// The AES handshake data is well-formed: a known strength, and room for
/// the salt and the verification value in front of the entry data.
pub open spec fn spec_aes_ok(data: Seq<u8>) -> bool {
    &&& 1 <= spec_aes_strength(data) <= 3
    &&& data.len() >= spec_zip_data_start(data) + spec_aes_salt_len(spec_aes_strength(data)) + 2
}

/// The salt of the first AES entry.
pub open spec fn spec_aes_salt(data: Seq<u8>) -> Seq<u8> {
    data.subrange(
        spec_zip_data_start(data),
        spec_zip_data_start(data) + spec_aes_salt_len(spec_aes_strength(data)),
    )
}

/// The stored 2-byte password-verification value of the first AES entry.
pub open spec fn spec_aes_verifier(data: Seq<u8>) -> Seq<u8> {
    data.subrange(
        spec_zip_data_start(data) + spec_aes_salt_len(spec_aes_strength(data)),
        spec_zip_data_start(data) + spec_aes_salt_len(spec_aes_strength(data)) + 2,
    )
}

/// The WinZip AES handshake data of one entry: the key length in bytes,
/// the stored 2-byte password-verification value, the salt, and the
/// length of the PBKDF2-derived block that covers two keys and the
/// verification value.
#[derive(Clone, Debug)]
pub struct AesInfo {
    /// The AES key length in bytes: 16, 24 or 32.
    pub aes_key_length: usize,
    /// The stored 2-byte password-verification value.
    pub key: Vec<u8>,
    /// `2 * aes_key_length + 2`: how many bytes PBKDF2 must derive.
    pub derived_key_length: usize,
    /// The salt stored in front of the entry data.
    pub salt: Vec<u8>,
}

impl AesInfo {
    /// Packs the handshake data; the derived-key length follows from the
    /// key length.
    pub fn new(aes_key_length: usize, key: Vec<u8>, salt: Vec<u8>) -> (r: Self)
        requires
            aes_key_length <= 1024,
        ensures
            r.aes_key_length == aes_key_length,
            r.key == key,
            r.salt == salt,
            r.derived_key_length == 2 * aes_key_length + 2,
    {
        let derived_key_length = 2 * aes_key_length + 2;
        AesInfo { aes_key_length, key, derived_key_length, salt }
    }
}

/// Validates that the archive's first entry needs a password, and
/// extracts the AES handshake data when the entry is AES-encrypted.
///
/// Exactly one of four outcomes holds: the handshake data for a
/// well-formed encrypted AES entry; nothing for another encrypted entry
/// (legacy ZipCrypto); the unencrypted error when the header is readable
/// but bit 0 of the flags is clear; and the invalid-archive error when
/// the header or the AES handshake data cannot be read.
///
/// This reads the local file header at the start of the buffer. The
/// outside decoder locates its first entry through the central
/// directory; the two coincide on archives laid out in the usual way,
/// where the first central entry points at offset zero, but an archive
/// crafted with a different order can make them disagree. The contract
/// below states only what is read here.
pub fn validate_zip(data: &Vec<u8>) -> (r: Result<Option<AesInfo>, Errors>)
    ensures
        r matches Ok(Some(info)) ==> {
            &&& spec_zip_header_ok(data@) && spec_zip_encrypted(data@) && spec_zip_is_aes(data@)
                && spec_aes_ok(data@)
            &&& info.aes_key_length == spec_aes_key_len(spec_aes_strength(data@))
            &&& info.derived_key_length == 2 * spec_aes_key_len(spec_aes_strength(data@)) + 2
            &&& info.key@ == spec_aes_verifier(data@)
            &&& info.salt@ == spec_aes_salt(data@)
        },
        (r matches Ok(Some(info))) <==> (spec_zip_header_ok(data@) && spec_zip_encrypted(data@)
            && spec_zip_is_aes(data@) && spec_aes_ok(data@)),
        (r matches Ok(None)) <==> (spec_zip_header_ok(data@) && spec_zip_encrypted(data@)
            && !spec_zip_is_aes(data@)),
        (r matches Err(Errors::UnsupportedOrUnencrypted { .. })) <==> (spec_zip_header_ok(data@)
            && !spec_zip_encrypted(data@)),
        (r matches Err(Errors::InvalidZip { .. })) <==> (!spec_zip_header_ok(data@) || (
        spec_zip_header_ok(data@) && spec_zip_encrypted(data@) && spec_zip_is_aes(data@)
            && !spec_aes_ok(data@))),
{
    let n = data.len();
    if n < 30 {
        return Err(Errors::invalid_zip_error(String::from_str("the archive is truncated")));
    }
    if !(data[0] == 0x50 && data[1] == 0x4b && data[2] == 0x03 && data[3] == 0x04) {
        return Err(Errors::invalid_zip_error(
            String::from_str("the first local file header is missing"),
        ));
    }
    let name_len = data[26] as usize + 256 * (data[27] as usize);
    let extra_len = data[28] as usize + 256 * (data[29] as usize);
    let data_start = 30 + name_len + extra_len;
    if n < data_start {
        return Err(Errors::invalid_zip_error(String::from_str("the archive is truncated")));
    }
    let flags = data[6] as usize + 256 * (data[7] as usize);
    if flags % 2 == 0 {
        return Err(Errors::UnsupportedOrUnencrypted {
            message: String::from_str("the archive is not encrypted"),
        });
    }
    let method = data[8] as usize + 256 * (data[9] as usize);
    if method != 99 {
        return Ok(None);
    }
    // AES: find the 0x9901 extra-field entry to learn the strength
    let extra_start = 30 + name_len;
    let strength = find_aes_strength(data, extra_start, extra_len);
    proof {
        assert(data@.subrange(extra_start as int, data_start as int) == spec_zip_extra(data@));
    }
    if !(strength >= 1 && strength <= 3) {
        return Err(Errors::invalid_zip_error(
            String::from_str("the AES entry carries no usable strength"),
        ));
    }
    let salt_len = 4 * (strength as usize) + 4;
    let key_len = 8 * (strength as usize) + 8;
    if n - data_start < salt_len + 2 {
        return Err(Errors::invalid_zip_error(
            String::from_str("the AES salt and verifier are truncated"),
        ));
    }
    let mut salt: Vec<u8> = Vec::new();
    let mut i = data_start;
    while i < data_start + salt_len
        invariant
            data_start <= i <= data_start + salt_len,
            data_start + salt_len + 2 <= n == data@.len(),
            salt@.len() == i - data_start,
            forall|k: int| 0 <= k < salt@.len() ==> salt@[k] == data@[data_start + k],
        decreases data_start + salt_len - i,
    {
        let b = data[i];
        salt.push(b);
        i = i + 1;
    }
    let mut key: Vec<u8> = Vec::new();
    let b0 = data[data_start + salt_len];
    let b1 = data[data_start + salt_len + 1];
    key.push(b0);
    key.push(b1);
    proof {
        assert(salt@ =~= spec_aes_salt(data@));
        assert(key@ =~= spec_aes_verifier(data@));
    }
    Ok(Some(AesInfo::new(key_len, key, salt)))
}

/// Scans the extra field for the AES (`0x9901`) entry and returns its
/// strength byte, or `-1` when there is none; the runtime mirror of
/// `spec_aes_strength_in`.
fn find_aes_strength(data: &Vec<u8>, extra_start: usize, extra_len: usize) -> (r: i32)
    requires
        extra_start + extra_len <= data@.len(),
    ensures
        r as int == spec_aes_strength_in(
            data@.subrange(extra_start as int, extra_start as int + extra_len as int),
        ),
{
    let ghost whole = data@.subrange(extra_start as int, extra_start as int + extra_len as int);
    let n = data.len();
    let extra_end = extra_start + extra_len;
    let mut off = extra_start;
    while extra_end - off >= 4
        invariant
            extra_start <= off <= extra_end,
            extra_end == extra_start + extra_len,
            extra_end <= data@.len(),
            whole == data@.subrange(extra_start as int, extra_end as int),
            spec_aes_strength_in(whole) == spec_aes_strength_in(
                data@.subrange(off as int, extra_end as int),
            ),
        decreases extra_end - off,
    {
        let ghost suffix = data@.subrange(off as int, extra_end as int);
        let id = data[off] as usize + 256 * (data[off + 1] as usize);
        let sz = data[off + 2] as usize + 256 * (data[off + 3] as usize);
        proof {
            assert(suffix.len() >= 4);
            assert(suffix[0] == data@[off as int]);
            assert(suffix[1] == data@[off as int + 1]);
            assert(suffix[2] == data@[off as int + 2]);
            assert(suffix[3] == data@[off as int + 3]);
        }
        if sz > extra_end - off - 4 {
            proof {
                assert(4 + sz > suffix.len());
                assert(spec_aes_strength_in(suffix) == -1);
            }
            return -1;
        }
        if id == 0x9901 {
            if sz >= 7 {
                let s = data[off + 8];
                proof {
                    assert(suffix[8] == data@[off as int + 8]);
                    assert(spec_aes_strength_in(suffix) == suffix[8] as int);
                }
                return s as i32;
            } else {
                proof {
                    assert(spec_aes_strength_in(suffix) == -1);
                }
                return -1;
            }
        }
        proof {
            assert(suffix.skip(4 + sz as int) =~= data@.subrange(
                off as int + 4 + sz as int,
                extra_end as int,
            ));
            assert(spec_aes_strength_in(suffix) == spec_aes_strength_in(
                suffix.skip(4 + sz as int),
            ));
        }
        off = off + 4 + sz;
    }
    proof {
        assert(data@.subrange(off as int, extra_end as int).len() < 4);
        assert(spec_aes_strength_in(data@.subrange(off as int, extra_end as int)) == -1);
    }
    -1
}

} // verus!
