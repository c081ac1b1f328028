//! Checksums and streaming validation.
//!
//! A `Checksum` is an expected SHA-256 or SHA-512 digest.  A
//! `ChecksumValidator` accumulates the bytes of an artifact and decides
//! at the end whether their digest matches the expected one.  The hash
//! functions themselves come from an outside crate and are modelled by
//! the uninterpreted functions `sha256_of` and `sha512_of`.

use vstd::prelude::*;
use vstd::string::StringSliceAdditionalSpecFns;

verus! {

/// The SHA-256 digest of a byte sequence, as the outside crate computes it.
pub uninterp spec fn sha256_of(data: Seq<u8>) -> Seq<u8>;

/// The SHA-512 digest of a byte sequence, as the outside crate computes it.
pub uninterp spec fn sha512_of(data: Seq<u8>) -> Seq<u8>;

/// Relies on `sha2::Sha256::digest`: the digest is 32 bytes and depends
/// on the input bytes alone.
#[verifier::external_body]
fn sha256_digest(data: &Vec<u8>) -> (r: Vec<u8>)
    ensures
        r@ == sha256_of(data@),
        r@.len() == 32,
{
    <sha2::Sha256 as sha2::Digest>::digest(data.as_slice()).to_vec()
}

/// Relies on `sha2::Sha512::digest`: the digest is 64 bytes and depends
/// on the input bytes alone.
#[verifier::external_body]
fn sha512_digest(data: &Vec<u8>) -> (r: Vec<u8>)
    ensures
        r@ == sha512_of(data@),
        r@.len() == 64,
{
    <sha2::Sha512 as sha2::Digest>::digest(data.as_slice()).to_vec()
}

/// Model of a checksum: the algorithm and the expected digest bytes.
pub enum ChecksumModel {
    Sha256(Seq<u8>),
    Sha512(Seq<u8>),
}

/// The digest of `data` under the checksum's algorithm equals the
/// checksum's expected bytes.
pub open spec fn checksum_matches(c: ChecksumModel, data: Seq<u8>) -> bool {
    match c {
        ChecksumModel::Sha256(h) => sha256_of(data) == h,
        ChecksumModel::Sha512(h) => sha512_of(data) == h,
    }
}

/// An expected digest: 32 bytes for SHA-256, 64 for SHA-512.
pub enum Checksum {
    Sha256(Vec<u8>),
    Sha512(Vec<u8>),
}

impl View for Checksum {
    type V = ChecksumModel;

    open spec fn view(&self) -> ChecksumModel {
        match self {
            Checksum::Sha256(h) => ChecksumModel::Sha256(h@),
            Checksum::Sha512(h) => ChecksumModel::Sha512(h@),
        }
    }
}

impl Clone for Checksum {
    fn clone(&self) -> (res: Self)
        ensures
            res@ == self@,
    {
        match self {
            Checksum::Sha256(h) => Checksum::Sha256(h.clone()),
            Checksum::Sha512(h) => Checksum::Sha512(h.clone()),
        }
    }
}

/// The checksum's digest has the length its algorithm prescribes.
pub open spec fn wf_checksum(c: ChecksumModel) -> bool {
    match c {
        ChecksumModel::Sha256(h) => h.len() == 32,
        ChecksumModel::Sha512(h) => h.len() == 64,
    }
}

/// The byte is an ASCII hex digit (lower or upper case).
pub open spec fn is_hex_byte(b: u8) -> bool {
    (0x30 <= b <= 0x39) || (0x61 <= b <= 0x66) || (0x41 <= b <= 0x46)
}

/// Value of a hex digit.
pub open spec fn hex_val(b: u8) -> nat {
    if 0x30 <= b <= 0x39 {
        (b - 0x30) as nat
    } else if 0x61 <= b <= 0x66 {
        (b - 0x61 + 10) as nat
    } else if 0x41 <= b <= 0x46 {
        (b - 0x41 + 10) as nat
    } else {
        0
    }
}

/// Bytes decoded from a hex string: two digits for each byte.
pub open spec fn hex_decode(s: Seq<u8>) -> Seq<u8> {
    Seq::new(s.len() / 2, |i: int| (hex_val(s[2 * i]) * 16 + hex_val(s[2 * i + 1])) as u8)
}

/// The string is a well-formed hex string of `n` digits.
pub open spec fn wf_hex(s: Seq<u8>, n: int) -> bool {
    s.len() == n && forall|i: int| 0 <= i < s.len() ==> is_hex_byte(#[trigger] s[i])
}

/// Bad hex input for a checksum.
#[derive(Clone, Copy, Debug, PartialEq, Eq, Structural)]
pub enum ChecksumError {
    BadHex,
}

fn exec_hex_val(b: u8) -> (r: Option<u8>)
    ensures
        match r {
            Some(v) => is_hex_byte(b) && v as nat == hex_val(b) && v < 16,
            None => !is_hex_byte(b),
        },
{
    if 0x30 <= b && b <= 0x39 {
        Some(b - 0x30)
    } else if 0x61 <= b && b <= 0x66 {
        Some(b - 0x61 + 10)
    } else if 0x41 <= b && b <= 0x46 {
        Some(b - 0x41 + 10)
    } else {
        None
    }
}

/// Decode a hex string of exactly `2 * want` digits into `want` bytes.
fn decode_hex_exact(bytes: &Vec<u8>, want: usize) -> (r: Result<Vec<u8>, ChecksumError>)
    requires
        want <= 64,
    ensures
        match r {
            Ok(v) => wf_hex(bytes@, 2 * want) && v@ == hex_decode(bytes@) && v@.len() == want,
            Err(_) => !wf_hex(bytes@, 2 * want),
        },
{
    if bytes.len() != 2 * want {
        return Err(ChecksumError::BadHex);
    }
    let mut out: Vec<u8> = Vec::new();
    let mut i: usize = 0;
    while i < want
        invariant
            0 <= i <= want,
            want <= 64,
            bytes@.len() == 2 * want,
            out@.len() == i,
            forall|m: int| 0 <= m < 2 * i ==> is_hex_byte(#[trigger] bytes@[m]),
            forall|m: int|
                0 <= m < i ==> #[trigger] out@[m] == (hex_val(bytes@[2 * m]) * 16 + hex_val(
                    bytes@[2 * m + 1],
                )) as u8,
        decreases want - i,
    {
        let hi = match exec_hex_val(bytes[2 * i]) {
            Some(v) => v,
            None => {
                return Err(ChecksumError::BadHex);
            },
        };
        let lo = match exec_hex_val(bytes[2 * i + 1]) {
            Some(v) => v,
            None => {
                return Err(ChecksumError::BadHex);
            },
        };
        out.push(hi * 16 + lo);
        i = i + 1;
    }
    proof {
        assert(out@ =~= hex_decode(bytes@));
    }
    Ok(out)
}

/// Decode an even-length hex token into its bytes.
pub fn decode_hex_digits(bytes: &Vec<u8>) -> (r: Vec<u8>)
    requires
        bytes@.len() % 2 == 0,
        bytes@.len() <= 128,
        forall|i: int| 0 <= i < bytes@.len() ==> is_hex_byte(#[trigger] bytes@[i]),
    ensures
        r@ == hex_decode(bytes@),
{
    let want = bytes.len() / 2;
    match decode_hex_exact(bytes, want) {
        Ok(v) => v,
        Err(_) => {
            proof {
                assert(wf_hex(bytes@, 2 * want as int));
                assert(false);
            }
            Vec::new()
        },
    }
}

/// Decode a hex token of a known algorithm's width into a checksum.
pub fn checksum_from_hex_bytes(bytes: &Vec<u8>, wide: bool) -> (r: Option<Checksum>)
    ensures
        match r {
            Some(c) => wf_hex(bytes@, if wide { 128int } else { 64int }) && c@ == (if wide {
                ChecksumModel::Sha512(hex_decode(bytes@))
            } else {
                ChecksumModel::Sha256(hex_decode(bytes@))
            }),
            None => !wf_hex(bytes@, if wide { 128int } else { 64int }),
        },
{
    if wide {
        match decode_hex_exact(bytes, 64) {
            Ok(v) => Some(Checksum::Sha512(v)),
            Err(_) => None,
        }
    } else {
        match decode_hex_exact(bytes, 32) {
            Ok(v) => Some(Checksum::Sha256(v)),
            Err(_) => None,
        }
    }
}

impl Checksum {
    /// Parse a 64-digit hex string as a SHA-256 digest.
    pub fn from_sha256_str(s: &str) -> (r: Result<Checksum, ChecksumError>)
        ensures
            match r {
                Ok(c) => wf_hex(s.spec_bytes(), 64) && c@ == ChecksumModel::Sha256(
                    hex_decode(s.spec_bytes()),
                ) && wf_checksum(c@),
                Err(_) => !wf_hex(s.spec_bytes(), 64),
            },
    {
        let bytes = crate::text::string_to_bytes(s);
        match decode_hex_exact(&bytes, 32) {
            Ok(v) => Ok(Checksum::Sha256(v)),
            Err(e) => Err(e),
        }
    }

    /// Parse a 128-digit hex string as a SHA-512 digest.
    pub fn from_sha512_str(s: &str) -> (r: Result<Checksum, ChecksumError>)
        ensures
            match r {
                Ok(c) => wf_hex(s.spec_bytes(), 128) && c@ == ChecksumModel::Sha512(
                    hex_decode(s.spec_bytes()),
                ) && wf_checksum(c@),
                Err(_) => !wf_hex(s.spec_bytes(), 128),
            },
    {
        let bytes = crate::text::string_to_bytes(s);
        match decode_hex_exact(&bytes, 64) {
            Ok(v) => Ok(Checksum::Sha512(v)),
            Err(e) => Err(e),
        }
    }

    /// A validator that will compare streamed bytes against this checksum.
    pub fn get_validator(&self) -> (r: ChecksumValidator)
        ensures
            r@.expected == self@,
            r@.fed.len() == 0,
    {
        ChecksumValidator { expected: self.clone(), buf: Vec::new() }
    }
}

/// Model of a validator: the expected checksum and the bytes fed so far.
pub struct ValidatorModel {
    pub expected: ChecksumModel,
    pub fed: Seq<u8>,
}

/// A resumable checksum check: feed bytes with `update`, then ask
/// `finish` whether their digest matches the expected checksum.
pub struct ChecksumValidator {
    expected: Checksum,
    buf: Vec<u8>,
}

impl View for ChecksumValidator {
    type V = ValidatorModel;

    closed spec fn view(&self) -> ValidatorModel {
        ValidatorModel { expected: self.expected@, fed: self.buf@ }
    }
}

impl Clone for ChecksumValidator {
    fn clone(&self) -> (res: Self)
        ensures
            res@ == self@,
    {
        ChecksumValidator { expected: self.expected.clone(), buf: self.buf.clone() }
    }
}

proof fn lemma_or_xor_zero(d: u8, x: u8, y: u8)
    ensures
        ((d | (x ^ y)) == 0) == (d == 0 && x == y),
{
    assert(((d | (x ^ y)) == 0) == (d == 0 && x == y)) by (bit_vector);
}

/// Compare two equal-length byte strings, touching every byte whatever
/// the outcome.
fn bytes_equal_ct(a: &Vec<u8>, b: &Vec<u8>) -> (r: bool)
    requires
        a@.len() == b@.len(),
    ensures
        r == (a@ == b@),
{
    let mut diff: u8 = 0;
    let mut i: usize = 0;
    while i < a.len()
        invariant
            0 <= i <= a@.len(),
            a@.len() == b@.len(),
            (diff == 0) <==> (forall|m: int| 0 <= m < i ==> a@[m] == #[trigger] b@[m]),
        decreases a@.len() - i,
    {
        let d0 = diff;
        diff = diff | (a[i] ^ b[i]);
        proof {
            lemma_or_xor_zero(d0, a@[i as int], b@[i as int]);
        }
        i = i + 1;
    }
    proof {
        if diff == 0 {
            assert(a@ =~= b@);
        }
    }
    diff == 0
}

impl ChecksumValidator {
    /// Feed the next chunk of the artifact.
    pub fn update(&mut self, data: &[u8])
        ensures
            final(self)@.expected == old(self)@.expected,
            final(self)@.fed == old(self)@.fed + data@,
    {
        let mut chunk = vstd::slice::slice_to_vec(data);
        self.buf.append(&mut chunk);
    }

    /// Does the digest of everything fed match the expected checksum?
    pub fn finish(self) -> (r: bool)
        ensures
            r == checksum_matches(self@.expected, self@.fed),
    {
        match &self.expected {
            Checksum::Sha256(h) => {
                let d = sha256_digest(&self.buf);
                if d.len() != h.len() {
                    proof {
                        assert(sha256_of(self.buf@) != h@);
                    }
                    return false;
                }
                bytes_equal_ct(&d, h)
            },
            Checksum::Sha512(h) => {
                let d = sha512_digest(&self.buf);
                if d.len() != h.len() {
                    proof {
                        assert(sha512_of(self.buf@) != h@);
                    }
                    return false;
                }
                bytes_equal_ct(&d, h)
            },
        }
    }
}

} // verus!
