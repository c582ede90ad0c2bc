//! Numbers as big-endian bytes, and the digest of bytes.
use vstd::prelude::*;
use byteorder::{BigEndian, ByteOrder};

verus! {

/// The four bytes of `n`, the most significant first.
pub open spec fn be_u32(n: u32) -> Seq<u8> {
    seq![
        (n / 0x100_0000) as u8,
        (n / 0x1_0000 % 0x100) as u8,
        (n / 0x100 % 0x100) as u8,
        (n % 0x100) as u8,
    ]
}

/// The eight bytes of `n`, the most significant first.
pub open spec fn be_u64(n: u64) -> Seq<u8> {
    be_u32((n / 0x1_0000_0000) as u32) + be_u32((n % 0x1_0000_0000) as u32)
}

/// The number whose big-endian bytes are the first four of `bytes`.
pub open spec fn u32_of_be(bytes: Seq<u8>) -> u32
    recommends
        bytes.len() >= 4,
{
    (bytes[0] * 0x100_0000 + bytes[1] * 0x1_0000 + bytes[2] * 0x100 + bytes[3]) as u32
}

/// The number whose big-endian bytes are the first eight of `bytes`.
pub open spec fn u64_of_be(bytes: Seq<u8>) -> u64
    recommends
        bytes.len() >= 8,
{
    (u32_of_be(bytes) * 0x1_0000_0000 + u32_of_be(bytes.skip(4))) as u64
}

/// Reading the big-endian bytes of a number gives the number.
pub proof fn lemma_be_u32_read(n: u32)
    ensures
        be_u32(n).len() == 4,
        u32_of_be(be_u32(n)) == n,
{
}

/// Reading the big-endian bytes of a number gives the number.
pub proof fn lemma_be_u64_read(n: u64)
    ensures
        be_u64(n).len() == 8,
        u64_of_be(be_u64(n)) == n,
{
    let high = (n / 0x1_0000_0000) as u32;
    let low = (n % 0x1_0000_0000) as u32;
    lemma_be_u32_read(high);
    lemma_be_u32_read(low);
    assert(be_u64(n).skip(4) =~= be_u32(low));
    assert(u32_of_be(be_u64(n)) == u32_of_be(be_u32(high)));
}

/// The digest that SHA-1 gives for `data`.
pub uninterp spec fn sha1(data: Seq<u8>) -> Seq<u8>;

/// The most bytes of which a digest is taken here, as their number of bits has to fit 64 bits.
pub const SHA1_MAX_LEN: u64 = 0x1fff_ffff_ffff_ffff;

/// `BigEndian::write_u32` of byteorder: it writes `n` to a buffer of four bytes
/// with the most significant byte first.
#[verifier::external_body]
pub(crate) fn u32_to_be(n: u32) -> (bytes: [u8; 4])
    ensures
        bytes@ == be_u32(n),
{
    let mut bytes = [0u8; 4];
    BigEndian::write_u32(&mut bytes, n);
    bytes
}

/// `BigEndian::write_u64` of byteorder: it writes `n` to a buffer of eight bytes
/// with the most significant byte first.
#[verifier::external_body]
pub(crate) fn u64_to_be(n: u64) -> (bytes: [u8; 8])
    ensures
        bytes@ == be_u64(n),
{
    let mut bytes = [0u8; 8];
    BigEndian::write_u64(&mut bytes, n);
    bytes
}

/// `BigEndian::read_u32` of byteorder: it reads the number whose bytes are the first four
/// of `bytes`, the most significant first. It panics on fewer than four bytes.
#[verifier::external_body]
pub(crate) fn u32_from_be(bytes: &[u8]) -> (n: u32)
    requires
        bytes@.len() >= 4,
    ensures
        n == u32_of_be(bytes@),
{
    BigEndian::read_u32(bytes)
}

/// `BigEndian::read_u64` of byteorder: it reads the number whose bytes are the first eight
/// of `bytes`, the most significant first. It panics on fewer than eight bytes.
#[verifier::external_body]
pub(crate) fn u64_from_be(bytes: &[u8]) -> (n: u64)
    requires
        bytes@.len() >= 8,
    ensures
        n == u64_of_be(bytes@),
{
    BigEndian::read_u64(bytes)
}

/// `Sha1::from(..).digest().bytes()` of sha1_smol: the twenty bytes of the SHA-1 digest of
/// `data`. The digest depends on `data` alone. The length of `data` in bits has to fit 64 bits.
#[verifier::external_body]
pub(crate) fn sha1_digest(data: &[u8]) -> (digest: [u8; 20])
    requires
        data@.len() <= SHA1_MAX_LEN,
    ensures
        digest@ == sha1(data@),
{
    sha1_smol::Sha1::from(data).digest().bytes()
}

} // verus!
