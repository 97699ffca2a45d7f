//! A packed vector of 2-bit symbols, sixteen to a 32-bit block.

use vstd::prelude::*;
use vstd::pervasive::VecAdditionalExecFns;

verus! {

/// Packed 2-bit symbols: symbol `i` occupies bits `2(i % 16)` and up of
/// block `i / 16`; the unused high bits of a partial last block are zero.
#[derive(Debug)]
pub struct BitEnc {
    pub storage: Vec<u32>,
    pub n: usize,
}

/// The symbols a packed vector holds.
pub open spec fn enc_view(b: BitEnc) -> Seq<u8> {
    Seq::new(b.n as nat, |i: int| (((b.storage@[i / 16]) >> (2 * (i % 16))) & 3) as u8)
}

impl BitEnc {
    /// Layout invariant: exactly enough blocks, and the bits past the last
    /// symbol of a partial block are zero.
    pub open spec fn wf(&self) -> bool {
        &&& self.storage@.len() == (self.n + 15) / 16
        &&& self.n % 16 != 0 ==> (self.storage@[self.n as int / 16] >> (2 * (self.n as int % 16)))
            == 0
    }

    /// An empty packed vector.
    pub fn new() -> (r: BitEnc)
        ensures
            r.wf(),
            enc_view(r) == Seq::<u8>::empty(),
    {
        let r = BitEnc { storage: Vec::new(), n: 0 };
        proof {
            assert(enc_view(r) =~= Seq::<u8>::empty());
        }
        r
    }

    /// The number of symbols held.
    pub fn nr_symbols(&self) -> (r: usize)
        ensures
            r == enc_view(*self).len(),
    {
        self.n
    }

    /// The symbol at position `i`.
    pub fn get(&self, i: usize) -> (r: u8)
        requires
            self.wf(),
            i < enc_view(*self).len(),
        ensures
            r == enc_view(*self)[i as int],
            r <= 3,
    {
        let blk = self.storage[i / 16];
        let sh: u32 = 2 * ((i % 16) as u32);
        let r = ((blk >> sh) & 3) as u8;
        proof {
            assert((blk >> sh) & 3 <= 3) by (bit_vector);
            assert(i as int / 16 == (i / 16) as int);
            assert(i as int % 16 == (i % 16) as int);
        }
        r
    }

    /// Appends one symbol.
    pub fn push(&mut self, sym: u8)
        requires
            old(self).wf(),
            sym <= 3,
            old(self).n < usize::MAX - 16,
        ensures
            final(self).wf(),
            enc_view(*final(self)) == enc_view(*old(self)).push(sym),
    {
        let n = self.n;
        let k = n % 16;
        if k == 0 {
            self.storage.push(sym as u32);
            self.n = n + 1;
            proof {
                let b1 = *self;
                assert(b1.storage@.len() == (b1.n + 15) / 16);
                if b1.n % 16 != 0 {
                    let s32 = sym as u32;
                    let kk = 2 * ((b1.n as int % 16) as u32);
                    assert(b1.n as int % 16 == 1);
                    assert(s32 <= 3 ==> (s32 >> 2u32) == 0) by (bit_vector);
                }
                assert forall|i: int| 0 <= i < b1.n implies enc_view(b1)[i] == enc_view(
                    *old(self),
                ).push(sym)[i] by {
                    if i < n {
                        assert(i / 16 < n / 16 + 1);
                        assert(b1.storage@[i / 16] == old(self).storage@[i / 16]);
                    } else {
                        assert(i == n);
                        assert(i / 16 == n / 16);
                        assert(b1.storage@[i / 16] == sym as u32);
                        assert(i % 16 == 0);
                        let s32 = sym as u32;
                        assert(s32 <= 3 ==> ((s32 >> 0u32) & 3) == s32) by (bit_vector);
                    }
                }
                assert(enc_view(b1) =~= enc_view(*old(self)).push(sym));
            }
        } else {
            let idx = n / 16;
            let blk = self.storage[idx];
            let sh: u32 = 2 * (k as u32);
            let blk2 = blk | ((sym as u32) << sh);
            self.storage.set(idx, blk2);
            self.n = n + 1;
            proof {
                let b1 = *self;
                let s32 = sym as u32;
                let kk = k as u32;
                assert(blk >> (2 * kk) == 0);
                assert forall|i: int| 0 <= i < b1.n implies enc_view(b1)[i] == enc_view(
                    *old(self),
                ).push(sym)[i] by {
                    if i < n {
                        if i / 16 == idx {
                            let jj = (i % 16) as u32;
                            assert(jj < kk);
                            assert((jj < kk && s32 <= 3 && blk >> (2 * kk) == 0) ==> ((blk | (s32
                                << (2 * kk))) >> (2 * jj)) & 3 == (blk >> (2 * jj)) & 3)
                                by (bit_vector);
                            assert(2 * jj == 2 * (i % 16));
                        } else {
                            assert(b1.storage@[i / 16] == old(self).storage@[i / 16]);
                        }
                    } else {
                        assert(i == n);
                        assert(i / 16 == idx);
                        assert((kk < 16 && s32 <= 3 && blk >> (2 * kk) == 0) ==> ((blk | (s32
                            << (2 * kk))) >> (2 * kk)) & 3 == s32) by (bit_vector);
                        assert(2 * kk == 2 * (i % 16));
                    }
                }
                assert(enc_view(b1) =~= enc_view(*old(self)).push(sym));
                assert(b1.storage@.len() == (b1.n + 15) / 16);
                if b1.n % 16 != 0 {
                    assert(b1.n as int % 16 == kk + 1);
                    assert((kk < 15 && s32 <= 3 && blk >> (2 * kk) == 0) ==> ((blk | (s32 << (2
                        * kk))) >> (2 * (kk + 1))) == 0) by (bit_vector);
                }
            }
        }
    }

    /// Appends a whole packed block holding `m` symbols; usable only on a
    /// block boundary, with the bits past the `m`-th symbol zero.
    pub fn push_block_with_n_elems(&mut self, block: u32, m: usize)
        requires
            old(self).wf(),
            old(self).n % 16 == 0,
            1 <= m <= 16,
            m < 16 ==> (block >> (2 * (m as u32))) == 0,
            old(self).n < usize::MAX - 16,
        ensures
            final(self).wf(),
            enc_view(*final(self)) == enc_view(*old(self)) + Seq::new(
                m as nat,
                |i: int| ((block >> (2 * i)) & 3) as u8,
            ),
    {
        let n = self.n;
        self.storage.push(block);
        self.n = n + m;
        proof {
            let b1 = *self;
            let added = Seq::new(m as nat, |i: int| ((block >> (2 * i)) & 3) as u8);
            assert(b1.storage@.len() == (b1.n + 15) / 16);
            if b1.n % 16 != 0 {
                assert(b1.n as int % 16 == m as int);
                assert(b1.n as int / 16 == n as int / 16);
            }
            assert forall|i: int| 0 <= i < b1.n implies enc_view(b1)[i] == (enc_view(*old(self))
                + added)[i] by {
                if i < n {
                    assert(i / 16 < n / 16);
                    assert(b1.storage@[i / 16] == old(self).storage@[i / 16]);
                } else {
                    assert(i / 16 == n / 16);
                    assert(i % 16 == i - n);
                    assert(b1.storage@[i / 16] == block);
                }
            }
            assert(enc_view(b1) =~= enc_view(*old(self)) + added);
        }
    }
}

} // verus!
