//! Fixed-width binary k-mers read from byte windows.

use vstd::prelude::*;

verus! {

/// The little-endian value of a byte string.
pub open spec fn le_value(s: Seq<u8>) -> nat
    decreases s.len(),
{
    if s.len() == 0 {
        0
    } else {
        le_value(s.drop_last()) + (s.last() * vstd::arithmetic::power2::pow2(((s.len() - 1) * 8) as nat)) as nat
    }
}

/// An unsigned word a k-mer of its exact byte width packs into,
/// little-endian.
pub trait BinaryKmer: Sized {
    /// How many bytes one k-mer takes.
    spec fn spec_width() -> nat;

    /// The word's value as a natural number.
    spec fn spec_value(self) -> nat;

    /// Packs a k-mer of exactly the type's width.
    fn kmer_to_binary(kmer: &[u8]) -> (r: Self)
        requires
            kmer@.len() == Self::spec_width(),
        ensures
            r.spec_value() == le_value(kmer@),
    ;
}

impl BinaryKmer for u32 {
    open spec fn spec_width() -> nat {
        4
    }

    open spec fn spec_value(self) -> nat {
        self as nat
    }

    fn kmer_to_binary(kmer: &[u8]) -> (r: u32) {
        let r = (kmer[0] as u32) | ((kmer[1] as u32) << 8) | ((kmer[2] as u32) << 16) | ((
        kmer[3] as u32) << 24);
        proof {
            lemma_le_value_4(kmer@);
            let b0 = kmer@[0];
            let b1 = kmer@[1];
            let b2 = kmer@[2];
            let b3 = kmer@[3];
            assert((b0 as u32) | ((b1 as u32) << 8) | ((b2 as u32) << 16) | ((b3 as u32) << 24)
                == (b0 as u32) + (b1 as u32) * 0x100 + (b2 as u32) * 0x10000 + (b3 as u32)
                * 0x1000000) by (bit_vector);
        }
        r
    }
}

impl BinaryKmer for u64 {
    open spec fn spec_width() -> nat {
        8
    }

    open spec fn spec_value(self) -> nat {
        self as nat
    }

    fn kmer_to_binary(kmer: &[u8]) -> (r: u64) {
        let r = (kmer[0] as u64) | ((kmer[1] as u64) << 8) | ((kmer[2] as u64) << 16) | ((
        kmer[3] as u64) << 24) | ((kmer[4] as u64) << 32) | ((kmer[5] as u64) << 40) | ((
        kmer[6] as u64) << 48) | ((kmer[7] as u64) << 56);
        proof {
            lemma_le_value_8(kmer@);
            let b0 = kmer@[0];
            let b1 = kmer@[1];
            let b2 = kmer@[2];
            let b3 = kmer@[3];
            let b4 = kmer@[4];
            let b5 = kmer@[5];
            let b6 = kmer@[6];
            let b7 = kmer@[7];
            assert((b0 as u64) | ((b1 as u64) << 8) | ((b2 as u64) << 16) | ((b3 as u64) << 24)
                | ((b4 as u64) << 32) | ((b5 as u64) << 40) | ((b6 as u64) << 48) | ((b7 as u64)
                << 56) == (b0 as u64) + (b1 as u64) * 0x100 + (b2 as u64) * 0x10000 + (b3 as u64)
                * 0x1000000 + (b4 as u64) * 0x100000000 + (b5 as u64) * 0x10000000000 + (
            b6 as u64) * 0x1000000000000 + (b7 as u64) * 0x100000000000000) by (bit_vector);
        }
        r
    }
}

/// The little-endian value of four bytes, spelled out.
proof fn lemma_le_value_4(s: Seq<u8>)
    requires
        s.len() == 4,
    ensures
        le_value(s) == s[0] + s[1] * 0x100 + s[2] * 0x10000 + s[3] * 0x1000000,
{
    vstd::arithmetic::power2::lemma2_to64();
    let d1 = s.drop_last();
    let d2 = d1.drop_last();
    let d3 = d2.drop_last();
    let d4 = d3.drop_last();
    assert(d4 =~= Seq::<u8>::empty());
    assert(le_value(d4) == 0);
    assert(d3.last() == s[0] && d2.last() == s[1] && d1.last() == s[2] && s.last() == s[3]);
    assert(le_value(d3) == le_value(d4) + (d3.last() * vstd::arithmetic::power2::pow2(0)) as nat);
    assert(le_value(d2) == le_value(d3) + (d2.last() * vstd::arithmetic::power2::pow2(8)) as nat);
    assert(le_value(d1) == le_value(d2) + (d1.last() * vstd::arithmetic::power2::pow2(16)) as nat);
    assert(le_value(s) == le_value(d1) + (s.last() * vstd::arithmetic::power2::pow2(24)) as nat);
}

/// The little-endian value of eight bytes, spelled out.
proof fn lemma_le_value_8(s: Seq<u8>)
    requires
        s.len() == 8,
    ensures
        le_value(s) == s[0] + s[1] * 0x100 + s[2] * 0x10000 + s[3] * 0x1000000 + s[4]
            * 0x100000000 + s[5] * 0x10000000000 + s[6] * 0x1000000000000 + s[7]
            * 0x100000000000000,
{
    vstd::arithmetic::power2::lemma2_to64();
    vstd::arithmetic::power2::lemma2_to64_rest();
    let d1 = s.drop_last();
    let d2 = d1.drop_last();
    let d3 = d2.drop_last();
    let d4 = d3.drop_last();
    let d5 = d4.drop_last();
    let d6 = d5.drop_last();
    let d7 = d6.drop_last();
    let d8 = d7.drop_last();
    assert(d8 =~= Seq::<u8>::empty());
    assert(le_value(d8) == 0);
    assert(d7.last() == s[0] && d6.last() == s[1] && d5.last() == s[2] && d4.last() == s[3]
        && d3.last() == s[4] && d2.last() == s[5] && d1.last() == s[6] && s.last() == s[7]);
    assert(le_value(d7) == le_value(d8) + (d7.last() * vstd::arithmetic::power2::pow2(0)) as nat);
    assert(le_value(d6) == le_value(d7) + (d6.last() * vstd::arithmetic::power2::pow2(8)) as nat);
    assert(le_value(d5) == le_value(d6) + (d5.last() * vstd::arithmetic::power2::pow2(16)) as nat);
    assert(le_value(d4) == le_value(d5) + (d4.last() * vstd::arithmetic::power2::pow2(24)) as nat);
    assert(le_value(d3) == le_value(d4) + (d3.last() * vstd::arithmetic::power2::pow2(32)) as nat);
    assert(le_value(d2) == le_value(d3) + (d2.last() * vstd::arithmetic::power2::pow2(40)) as nat);
    assert(le_value(d1) == le_value(d2) + (d1.last() * vstd::arithmetic::power2::pow2(48)) as nat);
    assert(le_value(s) == le_value(d1) + (s.last() * vstd::arithmetic::power2::pow2(56)) as nat);
    assert(le_value(d5) == s[0] + s[1] * 0x100 + s[2] * 0x10000);
    assert(le_value(d3) == le_value(d5) + s[3] * 0x1000000 + s[4] * 0x100000000);
    assert(le_value(d1) == le_value(d3) + s[5] * 0x10000000000 + s[6] * 0x1000000000000);
    assert(le_value(s) == le_value(d1) + s[7] * 0x100000000000000);
}

} // verus!
