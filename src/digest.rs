//! Digest engine: CRC32, MD5 and SHA-1 of a byte stream, as lowercase hex.
use vstd::prelude::*;
use vstd::string::StringExecFns;
use md5::Digest;

verus! {

/// The CRC-32 (IEEE) checksum of the bytes.
pub uninterp spec fn crc32_of(data: Seq<u8>) -> u32;

/// The MD5 digest of the bytes.
pub uninterp spec fn md5_of(data: Seq<u8>) -> Seq<u8>;

/// The SHA-1 digest of the bytes.
pub uninterp spec fn sha1_of(data: Seq<u8>) -> Seq<u8>;

/// Relies on `crc32fast::hash`: the CRC-32 checksum of the bytes.
#[verifier::external_body]
fn crc32(data: &[u8]) -> (r: u32)
    ensures
        r == crc32_of(data@),
{
    crc32fast::hash(data)
}

/// Relies on `md5::Md5::digest`: the 16-byte MD5 digest of the bytes.
#[verifier::external_body]
fn md5_digest(data: &[u8]) -> (r: Vec<u8>)
    ensures
        r@ == md5_of(data@),
        r@.len() == 16,
{
    md5::Md5::digest(data).to_vec()
}

/// Relies on `sha1::Sha1::digest`: the 20-byte SHA-1 digest of the bytes.
#[verifier::external_body]
fn sha1_digest(data: &[u8]) -> (r: Vec<u8>)
    ensures
        r@ == sha1_of(data@),
        r@.len() == 20,
{
    sha1::Sha1::digest(data).to_vec()
}

/// The lowercase hex digit of a value below 16.
pub open spec fn hex_digit(v: nat) -> char {
    "0123456789abcdef"@[v as int]
}

/// The `n` lowest hex digits of `x`, most significant first.
pub open spec fn hex_fixed(x: nat, n: nat) -> Seq<char>
    decreases n,
{
    if n == 0 {
        Seq::empty()
    } else {
        hex_fixed(x / 16, (n - 1) as nat).push(hex_digit(x % 16))
    }
}

/// Two lowercase hex digits per byte, in order.
pub open spec fn hex_bytes(b: Seq<u8>) -> Seq<char>
    decreases b.len(),
{
    if b.len() == 0 {
        Seq::empty()
    } else {
        hex_bytes(b.drop_last()) + hex_fixed(b.last() as nat, 2)
    }
}

fn hex_fixed_exec(x: u32, n: usize) -> (r: String)
    ensures
        r@ == hex_fixed(x as nat, n as nat),
    decreases n,
{
    if n == 0 {
        return String::new();
    }
    let mut s = hex_fixed_exec(x / 16, n - 1);
    let d = (x % 16) as usize;
    proof {
        reveal_strlit("0123456789abcdef");
    }
    let digit = "0123456789abcdef".substring_char(d, d + 1);
    let ghost before = s@;
    s.append(digit);
    assert(s@ =~= before.push(hex_digit((x % 16) as nat)));
    s
}

/// Lowercase hex of a 32-bit value, zero-padded to eight digits.
pub fn hex_u32(x: u32) -> (r: String)
    ensures
        r@ == hex_fixed(x as nat, 8),
{
    hex_fixed_exec(x, 8)
}

/// Lowercase hex of a byte string, two digits per byte.
pub fn hex_encode(b: &[u8]) -> (r: String)
    ensures
        r@ == hex_bytes(b@),
{
    let mut s = String::new();
    let mut i: usize = 0;
    while i < b.len()
        invariant
            i <= b@.len(),
            s@ == hex_bytes(b@.subrange(0, i as int)),
        decreases b.len() - i,
    {
        let ghost before = s@;
        let h = hex_fixed_exec(b[i] as u32, 2);
        s.append(h.as_str());
        assert(b@.subrange(0, i + 1).drop_last() =~= b@.subrange(0, i as int));
        i = i + 1;
    }
    assert(b@.subrange(0, i as int) =~= b@);
    s
}

/// The three digests of a file's bytes, as lowercase hex.
pub struct FileDigests {
    pub crc32: String,
    pub md5: String,
    pub sha1: String,
}

/// Formats raw digests: the CRC32 as eight hex digits, MD5 and SHA-1 as two
/// hex digits per byte.
pub fn digests_from(crc: u32, md5: &[u8], sha1: &[u8]) -> (r: FileDigests)
    ensures
        r.crc32@ == hex_fixed(crc as nat, 8),
        r.md5@ == hex_bytes(md5@),
        r.sha1@ == hex_bytes(sha1@),
{
    FileDigests { crc32: hex_u32(crc), md5: hex_encode(md5), sha1: hex_encode(sha1) }
}

/// Computes the three digests of the bytes, each from the same buffer.
pub fn hash_bytes(data: &[u8]) -> (r: FileDigests)
    ensures
        r.crc32@ == hex_fixed(crc32_of(data@) as nat, 8),
        r.md5@ == hex_bytes(md5_of(data@)),
        r.sha1@ == hex_bytes(sha1_of(data@)),
        r.md5@.len() == 32,
        r.sha1@.len() == 40,
{
    let c = crc32(data);
    let m = md5_digest(data);
    let s = sha1_digest(data);
    proof {
        lemma_hex_len(m@);
        lemma_hex_len(s@);
    }
    digests_from(c, m.as_slice(), s.as_slice())
}

proof fn lemma_fixed_len(x: nat, n: nat)
    ensures
        hex_fixed(x, n).len() == n,
    decreases n,
{
    if n > 0 {
        lemma_fixed_len(x / 16, (n - 1) as nat);
    }
}

proof fn lemma_hex_len(b: Seq<u8>)
    ensures
        hex_bytes(b).len() == 2 * b.len(),
    decreases b.len(),
{
    if b.len() > 0 {
        lemma_hex_len(b.drop_last());
        lemma_fixed_len(b.last() as nat, 2);
    }
}

} // verus!
