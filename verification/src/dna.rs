//! The 2-bit DNA alphabet: packing ASCII bases into codes and back.

use vstd::prelude::*;

verus! {

/// The 2-bit code of an ASCII base: bits 1 and 2 of the byte, so that
/// `A -> 0`, `C -> 1`, `T -> 2`, `G -> 3`.
pub open spec fn spec_dna_code(b: u8) -> u8 {
    (b & 6) >> 1
}

/// The ASCII base letter of a 2-bit code.
pub open spec fn spec_dna_char(c: u8) -> char {
    if c == 0 {
        'A'
    } else if c == 1 {
        'C'
    } else if c == 2 {
        'T'
    } else {
        'G'
    }
}

/// The packed little-endian word of the first `n` codes of a 16-byte chunk:
/// code `i` occupies bits `2i` and `2i+1`.
pub open spec fn spec_dna_pack(vars: Seq<u8>, n: int) -> u32
    decreases n,
{
    if n <= 0 {
        0
    } else {
        spec_dna_pack(vars, n - 1) | ((spec_dna_code(vars[n - 1]) as u32) << (2 * (n - 1)))
    }
}

/// The 2-bit code of one base byte.
pub fn dna_to_u8(s: u8) -> (r: u8)
    ensures
        r == spec_dna_code(s),
        r <= 3,
{
    proof {
        assert((s & 6) >> 1 <= 3) by (bit_vector);
    }
    (s & 6) >> 1
}

/// The base letter of one 2-bit code.
pub fn u8_to_dna(b: u8) -> (r: char)
    requires
        b <= 3,
    ensures
        r == spec_dna_char(b),
{
    if b == 0 {
        'A'
    } else if b == 1 {
        'C'
    } else if b == 2 {
        'T'
    } else {
        'G'
    }
}

/// Packs 16 base bytes into one word, two bits per base, little-endian.
pub fn dna_to_u32(vars: &[u8; 16]) -> (r: u32)
    ensures
        r == spec_dna_pack(vars@, 16),
{
    let mut total: u32 = 0;
    let mut i: usize = 0;
    while i < 16
        invariant
            i <= 16,
            total == spec_dna_pack(vars@, i as int),
        decreases 16 - i,
    {
        let c = dna_to_u8(vars[i]);
        let sh: u32 = 2 * (i as u32);
        total = total | ((c as u32) << sh);
        i = i + 1;
    }
    total
}

/// Decodes a slice of 2-bit codes into base letters.
pub fn toA(input: &[u8]) -> (r: Vec<char>)
    requires
        forall|i: int| 0 <= i < input@.len() ==> input@[i] <= 3,
    ensures
        r@ == input@.map_values(|c: u8| spec_dna_char(c)),
{
    let n = input.len();
    let mut r: Vec<char> = Vec::new();
    let mut i: usize = 0;
    while i < n
        invariant
            n == input@.len(),
            i <= n,
            forall|j: int| 0 <= j < n ==> input@[j] <= 3,
            r@ == input@.subrange(0, i as int).map_values(|c: u8| spec_dna_char(c)),
        decreases n - i,
    {
        r.push(u8_to_dna(input[i]));
        proof {
            assert(r@ =~= input@.subrange(0, i as int + 1).map_values(|c: u8| spec_dna_char(c)));
        }
        i = i + 1;
    }
    proof {
        assert(input@.subrange(0, n as int) =~= input@);
    }
    r
}

/// Encodes a slice of base letters into 2-bit codes.
pub fn toChar(input: &[char]) -> (r: Vec<u8>)
    ensures
        r@ == input@.map_values(|c: char| spec_dna_code(c as u8)),
{
    let n = input.len();
    let mut r: Vec<u8> = Vec::new();
    let mut i: usize = 0;
    while i < n
        invariant
            n == input@.len(),
            i <= n,
            r@ == input@.subrange(0, i as int).map_values(|c: char| spec_dna_code(c as u8)),
        decreases n - i,
    {
        let c = input[i];
        r.push(dna_to_u8(c as u8));
        proof {
            assert(r@ =~= input@.subrange(0, i as int + 1).map_values(
                |c: char| spec_dna_code(c as u8),
            ));
        }
        i = i + 1;
    }
    proof {
        assert(input@.subrange(0, n as int) =~= input@);
    }
    r
}

} // verus!
