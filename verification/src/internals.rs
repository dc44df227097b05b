//! The record type, the pipeline's error taxonomy, and the content hasher
//! core: the byte budget, the digest of a byte buffer, and its hex
//! rendering.
//!
//! The digest functions themselves come from outside crates and are only
//! named here: each wrapper states that the result is a function of the
//! input bytes alone, with the documented output length.  Everything
//! around them — budget selection, length verification, hex encoding — is
//! verified.

use crate::common::HashAlgorithm;
use crate::text::{all_digits, dec_value, digit_char, digit_char_exec, parse_size, push_char};
use md5::Digest;
use vstd::prelude::*;

verus! {

/// One file in the working set: its path (the unique identifier within a
/// run), its byte size, and its hex-encoded content digest (a sentinel
/// such as `"NULL"` before hashing).
#[derive(Debug, Clone, PartialEq, Eq)]
pub struct Record {
    pub path: String,
    pub size: u64,
    pub hash: String,
}

/// The mathematical content of a `Record`.
pub ghost struct RecordV {
    pub path: Seq<char>,
    pub size: u64,
    pub hash: Seq<char>,
}

impl View for Record {
    type V = RecordV;

    open spec fn view(&self) -> RecordV {
        RecordV { path: self.path@, size: self.size, hash: self.hash@ }
    }
}

/// The failures the pipeline distinguishes.  A failure scoped to one file
/// (an unreadable file, a size mismatch) is recoverable by skipping the
/// record; a failure that makes the key space itself suspect (a collision,
/// a corrupt row) aborts the run.
#[derive(Debug, Clone, PartialEq, Eq)]
pub enum PipelineError {
    /// Two records share an equality key but disagree in size: a hash
    /// collision or corrupted input.  Fatal.
    Integrity { path: String, other_path: String },
    /// The bytes actually read differ from the declared file size.  The
    /// record is skipped.
    SizeMismatch { declared: u64, actual: u64 },
    /// A tabular size field failed to parse as a decimal number.  Fatal.
    MalformedInput { field: String },
}

/// The number of bytes up to which a file with no explicit byte budget is
/// hashed in full.
pub const LARGE_FILE_THRESHOLD: u64 = 100_000_000;

/// How many bytes of a file the hasher reads.  A budget of zero means the
/// whole file, unless the file is larger than `LARGE_FILE_THRESHOLD`, in
/// which case nothing is read and the size alone stands for the file; a
/// non-zero budget is capped by the file size.
pub fn effective_read_size(file_size: u64, batch_size: u64) -> (r: u64)
    ensures
        batch_size == 0 && file_size > LARGE_FILE_THRESHOLD ==> r == 0,
        batch_size == 0 && file_size <= LARGE_FILE_THRESHOLD ==> r == file_size,
        batch_size != 0 ==> r == if file_size > batch_size {
            batch_size
        } else {
            file_size
        },
{
    if batch_size == 0 {
        if file_size > LARGE_FILE_THRESHOLD {
            0
        } else {
            file_size
        }
    } else {
        if file_size > batch_size {
            batch_size
        } else {
            file_size
        }
    }
}

/// Names the result of the MD5 digest: a function of the input bytes alone.
pub uninterp spec fn md5_of(data: Seq<u8>) -> Seq<u8>;

/// Names the result of the SHA-1 digest: a function of the input bytes alone.
pub uninterp spec fn sha1_of(data: Seq<u8>) -> Seq<u8>;

/// Names the result of the SHA-256 digest: a function of the input bytes alone.
pub uninterp spec fn sha256_of(data: Seq<u8>) -> Seq<u8>;

/// Names the result of the SHA-512 digest: a function of the input bytes alone.
pub uninterp spec fn sha512_of(data: Seq<u8>) -> Seq<u8>;

/// Relies on `md5::Md5` through the `digest::Digest` trait: a 16-byte
/// digest computed from the input bytes alone.
#[verifier::external_body]
fn md5_bytes(data: &[u8]) -> (r: Vec<u8>)
    ensures
        r@ == md5_of(data@),
        r@.len() == 16,
{
    md5::Md5::digest(data).as_slice().to_vec()
}

/// Relies on `sha1::Sha1` through the `digest::Digest` trait: a 20-byte
/// digest computed from the input bytes alone.
#[verifier::external_body]
fn sha1_bytes(data: &[u8]) -> (r: Vec<u8>)
    ensures
        r@ == sha1_of(data@),
        r@.len() == 20,
{
    sha1::Sha1::digest(data).as_slice().to_vec()
}

/// Relies on `sha2::Sha256` through the `digest::Digest` trait: a 32-byte
/// digest computed from the input bytes alone.
#[verifier::external_body]
fn sha256_bytes(data: &[u8]) -> (r: Vec<u8>)
    ensures
        r@ == sha256_of(data@),
        r@.len() == 32,
{
    sha2::Sha256::digest(data).as_slice().to_vec()
}

/// Relies on `sha2::Sha512` through the `digest::Digest` trait: a 64-byte
/// digest computed from the input bytes alone.
#[verifier::external_body]
fn sha512_bytes(data: &[u8]) -> (r: Vec<u8>)
    ensures
        r@ == sha512_of(data@),
        r@.len() == 64,
{
    sha2::Sha512::digest(data).as_slice().to_vec()
}

/// The raw digest of `data` under `algo`.
pub open spec fn raw_digest_of(algo: HashAlgorithm, data: Seq<u8>) -> Seq<u8> {
    match algo {
        HashAlgorithm::Md5 => md5_of(data),
        HashAlgorithm::Sha1 => sha1_of(data),
        HashAlgorithm::Sha256 => sha256_of(data),
        HashAlgorithm::Sha512 => sha512_of(data),
    }
}

/// The character for one hex digit value, lower case.
pub open spec fn hex_digit(d: int) -> char
    recommends
        0 <= d <= 15,
{
    if d < 10 {
        digit_char(d)
    } else if d == 10 {
        'a'
    } else if d == 11 {
        'b'
    } else if d == 12 {
        'c'
    } else if d == 13 {
        'd'
    } else if d == 14 {
        'e'
    } else {
        'f'
    }
}

/// The lower-case hex rendering of a byte sequence: two digits per byte,
/// high nibble first.
pub open spec fn hex_of(data: Seq<u8>) -> Seq<char>
    decreases data.len(),
{
    if data.len() == 0 {
        Seq::<char>::empty()
    } else {
        hex_of(data.drop_last()).push(hex_digit(data.last() as int / 16)).push(
            hex_digit(data.last() as int % 16),
        )
    }
}

fn hex_digit_exec(d: u8) -> (r: char)
    requires
        d <= 15,
    ensures
        r == hex_digit(d as int),
{
    if d < 10 {
        digit_char_exec(d as u64)
    } else if d == 10 {
        'a'
    } else if d == 11 {
        'b'
    } else if d == 12 {
        'c'
    } else if d == 13 {
        'd'
    } else if d == 14 {
        'e'
    } else {
        'f'
    }
}

/// Renders a byte buffer as lower-case hex.
pub fn to_hex(data: &Vec<u8>) -> (r: String)
    ensures
        r@ == hex_of(data@),
{
    let mut r = String::new();
    let mut i: usize = 0;
    while i < data.len()
        invariant
            0 <= i <= data@.len(),
            r@ == hex_of(data@.take(i as int)),
        decreases data@.len() - i,
    {
        let b = data[i];
        push_char(&mut r, hex_digit_exec(b / 16));
        push_char(&mut r, hex_digit_exec(b % 16));
        proof {
            assert(data@.take(i + 1).drop_last() =~= data@.take(i as int));
            assert(data@.take(i + 1).last() == data@[i as int]);
        }
        i = i + 1;
    }
    proof {
        assert(data@.take(data@.len() as int) =~= data@);
    }
    r
}

/// The hex-encoded digest of `data` under `algo`: what the hasher writes
/// into a record's hash field.
pub open spec fn digest_hex_of(algo: HashAlgorithm, data: Seq<u8>) -> Seq<char> {
    hex_of(raw_digest_of(algo, data))
}

/// Computes the hex-encoded digest of a byte buffer under the selected
/// algorithm.
pub fn compute_digest(algo: HashAlgorithm, data: &[u8]) -> (r: String)
    ensures
        r@ == digest_hex_of(algo, data@),
{
    let raw = match algo {
        HashAlgorithm::Md5 => md5_bytes(data),
        HashAlgorithm::Sha1 => sha1_bytes(data),
        HashAlgorithm::Sha256 => sha256_bytes(data),
        HashAlgorithm::Sha512 => sha512_bytes(data),
    };
    to_hex(&raw)
}

/// Digests the full content of a file after verifying that as many bytes
/// arrived as the file declared; a disagreement means the file changed
/// while it was being read, and the record must be skipped.
pub fn hash_full_content(data: &[u8], declared_len: u64, algo: HashAlgorithm) -> (r: Result<
    String,
    PipelineError,
>)
    ensures
        r is Ok <==> data@.len() == declared_len,
        r matches Ok(h) ==> h@ == digest_hex_of(algo, data@),
        r matches Err(e) ==> e == (PipelineError::SizeMismatch {
            declared: declared_len,
            actual: data@.len() as u64,
        }),
{
    let actual = data.len() as u64;
    if actual != declared_len {
        Err(PipelineError::SizeMismatch { declared: declared_len, actual })
    } else {
        Ok(compute_digest(algo, data))
    }
}

/// Assembles a record from tabular fields, parsing the size field as a
/// decimal number; a row whose size does not parse is fatal to the run.
pub fn record_from_fields(path: String, size_field: &str, hash: String) -> (r: Result<
    Record,
    PipelineError,
>)
    ensures
        r is Ok <==> size_field@.len() > 0 && all_digits(size_field@) && dec_value(size_field@)
            <= u64::MAX,
        r matches Ok(rec) ==> rec@.path == path@ && rec@.size == dec_value(size_field@)
            && rec@.hash == hash@,
        r matches Err(e) ==> e matches PipelineError::MalformedInput { field } && field@
            == size_field@,
{
    match parse_size(size_field) {
        Some(size) => Ok(Record { path, size, hash }),
        None => Err(PipelineError::MalformedInput { field: size_field.to_owned() }),
    }
}

/// The hasher's enrichment step: the same record with its hash field
/// filled in.
pub fn with_hash(record: &Record, hash: String) -> (r: Record)
    ensures
        r@.path == record@.path,
        r@.size == record@.size,
        r@.hash == hash@,
{
    Record { path: record.path.clone(), size: record.size, hash }
}

/// A digest over a truncated prefix sees only that prefix: two contents
/// whose first `budget` bytes agree get identical truncated digests, no
/// matter what follows.  Nothing here claims the converse — equal
/// truncated digests never witness full-content equality.
pub proof fn lemma_truncated_digest_agrees(
    algo: HashAlgorithm,
    a: Seq<u8>,
    b: Seq<u8>,
    budget: int,
)
    requires
        0 <= budget <= a.len(),
        budget <= b.len(),
        a.take(budget) == b.take(budget),
    ensures
        digest_hex_of(algo, a.take(budget)) == digest_hex_of(algo, b.take(budget)),
{
}

} // verus!
