//! A DNA sequence held as packed 2-bit codes.

use vstd::prelude::*;
use vstd::string::*;
use crate::bitenc::{BitEnc, enc_view};
use crate::dna::{dna_to_u8, dna_to_u32, spec_dna_char, spec_dna_code, spec_dna_pack, u8_to_dna};

verus! {

/// A sequence of bases, two bits per base.
#[derive(Debug)]
pub struct DnaSeq(pub BitEnc);

/// The 2-bit codes a sequence holds.
pub open spec fn dna_view(s: DnaSeq) -> Seq<u8> {
    enc_view(s.0)
}

impl DnaSeq {
    /// Structural invariant of the packed store.
    pub open spec fn wf(&self) -> bool {
        self.0.wf()
    }

    /// An empty sequence.
    pub fn new() -> (r: DnaSeq)
        ensures
            r.wf(),
            dna_view(r) == Seq::<u8>::empty(),
    {
        DnaSeq(BitEnc::new())
    }

    /// An empty sequence; the expected length is only a sizing hint, so two
    /// sequences built with different capacities are equal while they hold
    /// the same bases.
    pub fn with_capacity(n: usize) -> (r: DnaSeq)
        ensures
            r.wf(),
            dna_view(r) == Seq::<u8>::empty(),
    {
        let _ = n;
        DnaSeq(BitEnc::new())
    }

    /// Appends one ASCII base.
    pub fn push(&mut self, b: u8)
        requires
            old(self).wf(),
            dna_view(*old(self)).len() < usize::MAX - 16,
        ensures
            final(self).wf(),
            dna_view(*final(self)) == dna_view(*old(self)).push(spec_dna_code(b)),
    {
        let c = dna_to_u8(b);
        self.0.push(c);
    }

    /// Appends every byte of a slice as a base.
    pub fn push_iter(&mut self, bytes: &[u8])
        requires
            old(self).wf(),
            dna_view(*old(self)).len() + bytes@.len() < usize::MAX - 16,
        ensures
            final(self).wf(),
            dna_view(*final(self)) == dna_view(*old(self)) + bytes@.map_values(
                |b: u8| spec_dna_code(b),
            ),
    {
        let m = bytes.len();
        let mut i: usize = 0;
        while i < m
            invariant
                m == bytes@.len(),
                i <= m,
                self.wf(),
                dna_view(*old(self)).len() + m < usize::MAX - 16,
                dna_view(*self) == dna_view(*old(self)) + bytes@.subrange(0, i as int).map_values(
                    |b: u8| spec_dna_code(b),
                ),
            decreases m - i,
        {
            let ghost pre = dna_view(*self);
            self.push(bytes[i]);
            proof {
                assert(dna_view(*self) =~= dna_view(*old(self)) + bytes@.subrange(
                    0,
                    i as int + 1,
                ).map_values(|b: u8| spec_dna_code(b)));
            }
            i = i + 1;
        }
        proof {
            assert(bytes@.subrange(0, m as int) =~= bytes@);
        }
    }

    /// Appends every byte of a slice as a base (an older name for the same
    /// operation).
    pub fn add_iter(&mut self, bytes: &[u8])
        requires
            old(self).wf(),
            dna_view(*old(self)).len() + bytes@.len() < usize::MAX - 16,
        ensures
            final(self).wf(),
            dna_view(*final(self)) == dna_view(*old(self)) + bytes@.map_values(
                |b: u8| spec_dna_code(b),
            ),
    {
        self.push_iter(bytes);
    }

    /// Appends up to sixteen bases packed into one little-endian word, as
    /// `dna_to_u32` produces them; usable on a sixteen-base boundary with
    /// the bytes past the `m`-th zero.
    pub fn push_u32_chunk_of_n(&mut self, chunk: &[u8; 16], m: usize)
        requires
            old(self).wf(),
            dna_view(*old(self)).len() % 16 == 0,
            1 <= m <= 16,
            forall|i: int| m <= i < 16 ==> chunk@[i] == 0,
            dna_view(*old(self)).len() < usize::MAX - 16,
        ensures
            final(self).wf(),
            dna_view(*final(self)) == dna_view(*old(self)) + chunk@.subrange(
                0,
                m as int,
            ).map_values(|b: u8| spec_dna_code(b)),
    {
        let block = dna_to_u32(chunk);
        proof {
            lemma_pack_tail_zero(chunk@, m as int, 16);
            lemma_pack_codes(chunk@, m as int);
            if m < 16 {
                lemma_pack_high_zero(chunk@, m as int);
                assert(2 * (m as u32) == 2 * (m as int));
            }
        }
        self.0.push_block_with_n_elems(block, m);
        proof {
            assert(Seq::new(m as nat, |i: int| ((spec_dna_pack(chunk@, 16) >> (2 * i)) & 3) as u8)
                =~= chunk@.subrange(0, m as int).map_values(|b: u8| spec_dna_code(b)));
        }
    }

    /// The number of bases held.
    pub fn len(&self) -> (r: usize)
        ensures
            r == dna_view(*self).len(),
    {
        self.0.nr_symbols()
    }

    /// Packs a whole string.
    pub fn from_string(s: &str) -> (r: DnaSeq)
        requires
            s.spec_bytes().len() < usize::MAX - 16,
        ensures
            r.wf(),
            dna_view(r) == s.spec_bytes().map_values(|b: u8| spec_dna_code(b)),
    {
        let bytes = s.as_bytes();
        let mut r = DnaSeq::with_capacity(bytes.len());
        r.push_iter(bytes);
        proof {
            assert(dna_view(r) =~= s.spec_bytes().map_values(|b: u8| spec_dna_code(b)));
        }
        r
    }

    /// The sequence as ASCII base letters.
    pub fn to_ascii(&self) -> (r: Vec<u8>)
        requires
            self.wf(),
        ensures
            r@ == dna_view(*self).map_values(|c: u8| spec_dna_char(c) as u8),
    {
        let n = self.0.nr_symbols();
        let mut r: Vec<u8> = Vec::new();
        let mut i: usize = 0;
        while i < n
            invariant
                self.wf(),
                n == dna_view(*self).len(),
                i <= n,
                r@ == dna_view(*self).subrange(0, i as int).map_values(
                    |c: u8| spec_dna_char(c) as u8,
                ),
            decreases n - i,
        {
            let c = self.0.get(i);
            let ch = u8_to_dna(c);
            r.push(ch as u8);
            proof {
                assert(r@ =~= dna_view(*self).subrange(0, i as int + 1).map_values(
                    |c: u8| spec_dna_char(c) as u8,
                ));
            }
            i = i + 1;
        }
        proof {
            assert(dna_view(*self).subrange(0, n as int) =~= dna_view(*self));
        }
        r
    }

    /// The sequence as a string of base letters.
    pub fn to_string(&self) -> (r: String)
        requires
            self.wf(),
        ensures
            r@ == dna_view(*self).map_values(|c: u8| spec_dna_char(c)),
    {
        let n = self.0.nr_symbols();
        let mut r = String::new();
        let mut i: usize = 0;
        proof {
            reveal_strlit("A");
            reveal_strlit("C");
            reveal_strlit("T");
            reveal_strlit("G");
        }
        while i < n
            invariant
                self.wf(),
                n == dna_view(*self).len(),
                i <= n,
                r@ == dna_view(*self).subrange(0, i as int).map_values(|c: u8| spec_dna_char(c)),
            decreases n - i,
        {
            let c = self.0.get(i);
            proof {
                reveal_strlit("A");
                reveal_strlit("C");
                reveal_strlit("T");
                reveal_strlit("G");
            }
            if c == 0 {
                r.append("A");
            } else if c == 1 {
                r.append("C");
            } else if c == 2 {
                r.append("T");
            } else {
                r.append("G");
            }
            proof {
                assert(r@ =~= dna_view(*self).subrange(0, i as int + 1).map_values(
                    |c: u8| spec_dna_char(c),
                ));
            }
            i = i + 1;
        }
        proof {
            assert(dna_view(*self).subrange(0, n as int) =~= dna_view(*self));
        }
        r
    }
}

impl PartialEq for DnaSeq {
    /// Two sequences are equal when they hold the same packed bases.
    fn eq(&self, other: &DnaSeq) -> (r: bool) {
        if self.0.n != other.0.n {
            return false;
        }
        if self.0.storage.len() != other.0.storage.len() {
            return false;
        }
        let m = self.0.storage.len();
        let mut i: usize = 0;
        while i < m
            invariant
                m == self.0.storage@.len(),
                m == other.0.storage@.len(),
                i <= m,
                self.0.n == other.0.n,
                forall|j: int| 0 <= j < i ==> self.0.storage@[j] == other.0.storage@[j],
            decreases m - i,
        {
            if self.0.storage[i] != other.0.storage[i] {
                return false;
            }
            i = i + 1;
        }
        proof {
            assert(self.0.storage@ =~= other.0.storage@);
        }
        true
    }
}

impl vstd::std_specs::cmp::PartialEqSpecImpl for DnaSeq {
    open spec fn obeys_eq_spec() -> bool {
        true
    }

    open spec fn eq_spec(&self, other: &DnaSeq) -> bool {
        self.0.n == other.0.n && self.0.storage@ == other.0.storage@
    }
}

/// Packing ignores base bytes past position `m` when they are zero.
proof fn lemma_pack_tail_zero(vars: Seq<u8>, m: int, n: int)
    requires
        0 <= m <= n <= vars.len(),
        n <= 16,
        forall|i: int| m <= i < vars.len() ==> vars[i] == 0,
    ensures
        spec_dna_pack(vars, n) == spec_dna_pack(vars, m),
    decreases n - m,
{
    if n > m {
        lemma_pack_tail_zero(vars, m, n - 1);
        assert(spec_dna_code(vars[n - 1]) == 0) by {
            assert(vars[n - 1] == 0);
            assert((0u8 & 6) >> 1 == 0) by (bit_vector);
        }
        assert(spec_dna_pack(vars, n) == spec_dna_pack(vars, n - 1) | (0u32 << (2 * (n - 1))));
        let p = spec_dna_pack(vars, n - 1);
        let sh = (2 * (n - 1)) as u32;
        assert(p | (0u32 << sh) == p) by (bit_vector);
        assert(0 <= 2 * (n - 1) < 0x1_0000_0000);
        assert(2 * (n - 1) == sh);
    }
}

/// Reading two-bit lanes out of a packed word gives the codes back.
proof fn lemma_pack_codes(vars: Seq<u8>, m: int)
    requires
        0 <= m <= 16,
        16 <= vars.len(),
    ensures
        forall|i: int|
            0 <= i < m ==> ((spec_dna_pack(vars, m) >> (2 * i)) & 3) == spec_dna_code(vars[i]),
    decreases m,
{
    if m > 0 {
        lemma_pack_codes(vars, m - 1);
        let p = spec_dna_pack(vars, m - 1);
        let c = spec_dna_code(vars[m - 1]) as u32;
        let km = (2 * (m - 1)) as u32;
        assert(c <= 3) by {
            let b = vars[m - 1];
            assert((b & 6) >> 1 <= 3) by (bit_vector);
        }
        assert(p >> km == 0) by {
            lemma_pack_high_zero(vars, m - 1);
            assert(2 * (m - 1) == km);
        }
        let mm = (m - 1) as u32;
        assert forall|i: int|
            0 <= i < m implies ((spec_dna_pack(vars, m) >> (2 * i)) & 3) == spec_dna_code(
            vars[i],
        ) by {
            if i < m - 1 {
                let ii = i as u32;
                assert((ii < mm && mm <= 15 && c <= 3 && p >> (2 * mm) == 0) ==> ((p | (c << (2
                    * mm))) >> (2 * ii)) & 3 == (p >> (2 * ii)) & 3) by (bit_vector);
                assert(2 * ii == 2 * i);
                assert(2 * mm == km);
            } else {
                assert((mm <= 15 && c <= 3 && p >> (2 * mm) == 0) ==> ((p | (c << (2 * mm))) >> (
                2 * mm)) & 3 == c) by (bit_vector);
                assert(2 * mm == km);
                assert(2 * i == km);
            }
        }
    }
}

/// The bits of a packed word above lane `m` are zero.
proof fn lemma_pack_high_zero(vars: Seq<u8>, m: int)
    requires
        0 <= m <= 16,
    ensures
        m < 16 ==> (spec_dna_pack(vars, m) >> (2 * m)) == 0,
    decreases m,
{
    if m == 0 {
        assert(0u32 >> 0u32 == 0) by (bit_vector);
    } else if m < 16 {
        lemma_pack_high_zero(vars, m - 1);
        let p = spec_dna_pack(vars, m - 1);
        let c = spec_dna_code(vars[m - 1]) as u32;
        let km = (2 * (m - 1)) as u32;
        assert(c <= 3) by {
            let b = vars[m - 1];
            assert((b & 6) >> 1 <= 3) by (bit_vector);
        }
        assert((km <= 28 && c <= 3 && p >> km == 0) ==> ((p | (c << km)) >> (km + 2)) == 0)
            by (bit_vector);
        assert((2 * m) as u32 == km + 2);
        assert(2 * m == km + 2);
    }
}

} // verus!
