//! Materialized reads and the metadata tags that the output identifier
//! carries.

use vstd::prelude::*;
use crate::numbers::{dec_rep, u64_to_dec};

verus! {

/// How an output record came to be.
#[derive(PartialEq, Eq, Structural, Clone, Copy, Debug)]
pub enum ReadType {
    /// A consensus called from a duplicate group.
    Consensus,
    /// The sole member of a size-1 group, passed through.
    Single,
    /// One original member of a duplicate group, reported alongside its
    /// consensus.
    Original,
    /// A member of a group that was too large to align, passed through.
    Ignored,
}

/// A fully materialized read: identifier line, bases and per-base quality,
/// all as raw bytes.
pub struct Record {
    pub id: Vec<u8>,
    pub seq: Vec<u8>,
    pub qual: Vec<u8>,
}

/// The view of a record: its three byte strings.
pub open spec fn rec_view(r: Record) -> (Seq<u8>, Seq<u8>, Seq<u8>) {
    (r.id@, r.seq@, r.qual@)
}

/// Byte-wise copy of a byte vector.
pub fn clone_bytes(v: &Vec<u8>) -> (r: Vec<u8>)
    ensures
        r@ == v@,
{
    let r = v.clone();
    proof {
        assert(r@ =~= v@);
    }
    r
}

/// Appends a byte slice to a byte vector.
pub fn extend_bytes(v: &mut Vec<u8>, s: &[u8])
    ensures
        final(v)@ == old(v)@ + s@,
{
    v.extend_from_slice(s);
    proof {
        assert(final(v)@ =~= old(v)@ + s@);
    }
}

/// The PHRED score of one quality byte: its ASCII value minus 33, and 0 for
/// bytes below the printable PHRED range.
pub open spec fn phred_of(b: u8) -> nat {
    if b >= 33 {
        (b - 33) as nat
    } else {
        0
    }
}

/// The summed PHRED score of a quality string.
pub open spec fn phred_total(q: Seq<u8>) -> nat
    decreases q.len(),
{
    if q.len() == 0 {
        0
    } else {
        phred_total(q.drop_last()) + phred_of(q.last())
    }
}

/// The summed score never exceeds 255 per byte.
pub proof fn lemma_phred_total_bound(q: Seq<u8>)
    ensures
        phred_total(q) <= q.len() * 255,
    decreases q.len(),
{
    if q.len() > 0 {
        lemma_phred_total_bound(q.drop_last());
    }
}

/// The average quality in hundredths of a PHRED point, rounded to the
/// nearest hundredth (half away from zero): round(100 * total / bases).
pub open spec fn centi_avg(total: nat, bases: nat) -> nat {
    if bases == 0 {
        0
    } else {
        (200 * total + bases) / (2 * bases)
    }
}

impl Record {
    /// The sequence length in bases.
    pub fn len(&self) -> (r: usize)
        ensures
            r == self.seq@.len(),
    {
        self.seq.len()
    }

    /// The summed PHRED score of the record's quality string.
    pub fn phred_quality_total(&self) -> (r: u128)
        ensures
            r == phred_total(self.qual@),
    {
        let mut total: u128 = 0;
        let mut i: usize = 0;
        proof {
            lemma_phred_total_bound(self.qual@);
        }
        while i < self.qual.len()
            invariant
                i <= self.qual@.len(),
                total == phred_total(self.qual@.subrange(0, i as int)),
                total <= i * 255,
            decreases self.qual@.len() - i,
    {
            let b = self.qual[i];
            let d: u128 = if b >= 33 {
                (b - 33) as u128
            } else {
                0
            };
            proof {
                assert(self.qual@.subrange(0, i as int + 1).drop_last() =~= self.qual@.subrange(
                    0,
                    i as int,
                ));
                assert(self.qual@.subrange(0, i as int + 1).last() == self.qual@[i as int]);
                assert(i * 255 + 255 <= (i + 1) * 255) by (nonlinear_arith);
            }
            total = total + d;
            i = i + 1;
        }
        proof {
            assert(self.qual@.subrange(0, self.qual@.len() as int) =~= self.qual@);
        }
        total
    }

    /// The record's average quality in hundredths of a PHRED point.
    pub fn phred_quality_avg_centi(&self) -> (r: u64)
        ensures
            r == centi_avg(phred_total(self.qual@), self.qual@.len()),
            r <= 25500,
    {
        let total = self.phred_quality_total();
        let bases = self.qual.len();
        if bases == 0 {
            return 0;
        }
        proof {
            lemma_phred_total_bound(self.qual@);
            lemma_centi_avg_bound(phred_total(self.qual@), self.qual@.len());
        }
        let r: u128 = (200 * total + bases as u128) / (2 * bases as u128);
        r as u64
    }

    /// A field-for-field copy.
    pub fn duplicate(&self) -> (r: Record)
        ensures
            rec_view(r) == rec_view(*self),
    {
        Record {
            id: clone_bytes(&self.id),
            seq: clone_bytes(&self.seq),
            qual: clone_bytes(&self.qual),
        }
    }
}

/// With at most 255 points per base, the rounded centi-average is at most
/// 25500.
pub proof fn lemma_centi_avg_bound(total: nat, bases: nat)
    requires
        total <= bases * 255,
        bases > 0,
    ensures
        centi_avg(total, bases) <= 25500,
{
    assert(200 * total + bases <= 200 * (bases * 255) + bases) by (nonlinear_arith)
        requires total <= bases * 255;
    assert((200 * 255 * bases + bases) / (2 * bases) <= 25500) by (nonlinear_arith)
        requires bases > 0;
    assert(200 * total + bases <= 200 * 255 * bases + bases) by (nonlinear_arith)
        requires total <= bases * 255;
    vstd::arithmetic::div_mod::lemma_div_is_ordered(
        (200 * total + bases) as int,
        (200 * 255 * bases + bases) as int,
        (2 * bases) as int,
    );
}

// ---------------------------------------------------------------------------
// Metadata tags on the output identifier.
// ---------------------------------------------------------------------------
/// `" UT:Z:"`, the read-type tag marker.
pub open spec fn ut_marker() -> Seq<u8> {
    seq![32u8, 85u8, 84u8, 58u8, 90u8, 58u8]
}

/// `" UG:i:"`, the group-ordinal tag marker.
pub open spec fn ug_marker() -> Seq<u8> {
    seq![32u8, 85u8, 71u8, 58u8, 105u8, 58u8]
}

/// `" QL:f:"`, the average-quality tag marker.
pub open spec fn ql_marker() -> Seq<u8> {
    seq![32u8, 81u8, 76u8, 58u8, 102u8, 58u8]
}

/// `"SIN"`.
pub open spec fn sin_label() -> Seq<u8> {
    seq![83u8, 73u8, 78u8]
}

/// `"IGN"`.
pub open spec fn ign_label() -> Seq<u8> {
    seq![73u8, 71u8, 78u8]
}

/// `"CON_"`.
pub open spec fn con_head() -> Seq<u8> {
    seq![67u8, 79u8, 78u8, 95u8]
}

/// `"ORIG_"`.
pub open spec fn orig_head() -> Seq<u8> {
    seq![79u8, 82u8, 73u8, 71u8, 95u8]
}

/// `"_OF_"`.
pub open spec fn of_infix() -> Seq<u8> {
    seq![95u8, 79u8, 70u8, 95u8]
}

/// The read-type label: `CON_<size>`, `SIN`, `ORIG_<idx>_OF_<size>` or
/// `IGN`.
pub open spec fn label_bytes(rt: ReadType, group_idx: nat, group_size: nat) -> Seq<u8> {
    match rt {
        ReadType::Consensus => con_head() + dec_rep(group_size),
        ReadType::Single => sin_label(),
        ReadType::Original => orig_head() + dec_rep(group_idx) + of_infix() + dec_rep(group_size),
        ReadType::Ignored => ign_label(),
    }
}

/// A centi-quality as fixed-point text with two decimals: `<int>.<frac>`,
/// the fraction zero-padded to two digits.
pub open spec fn centi_bytes(c: nat) -> Seq<u8> {
    dec_rep(c / 100) + seq![46u8] + (if c % 100 < 10 {
        seq![48u8] + dec_rep(c % 100)
    } else {
        dec_rep(c % 100)
    })
}

/// Whether the average-quality tag is reported for this read type.
pub open spec fn reports_quality(rt: ReadType) -> bool {
    rt == ReadType::Consensus || rt == ReadType::Single
}

/// The full metadata suffix appended to a record identifier.
pub open spec fn metadata_suffix(
    rt: ReadType,
    umi_group: nat,
    group_idx: nat,
    group_size: nat,
    centi: nat,
) -> Seq<u8> {
    ut_marker() + label_bytes(rt, group_idx, group_size) + ug_marker() + dec_rep(umi_group) + (
    if reports_quality(rt) {
        ql_marker() + centi_bytes(centi)
    } else {
        Seq::<u8>::empty()
    })
}

/// Appends `" UT:Z:"` to `v`.
fn push_ut_marker(v: &mut Vec<u8>)
    ensures
        final(v)@ == old(v)@ + ut_marker(),
{
    v.push(32);
    v.push(85);
    v.push(84);
    v.push(58);
    v.push(90);
    v.push(58);
    proof {
        assert(final(v)@ =~= old(v)@ + ut_marker());
    }
}

/// Appends `" UG:i:"` to `v`.
fn push_ug_marker(v: &mut Vec<u8>)
    ensures
        final(v)@ == old(v)@ + ug_marker(),
{
    v.push(32);
    v.push(85);
    v.push(71);
    v.push(58);
    v.push(105);
    v.push(58);
    proof {
        assert(final(v)@ =~= old(v)@ + ug_marker());
    }
}

/// Appends `" QL:f:"` to `v`.
fn push_ql_marker(v: &mut Vec<u8>)
    ensures
        final(v)@ == old(v)@ + ql_marker(),
{
    v.push(32);
    v.push(81);
    v.push(76);
    v.push(58);
    v.push(102);
    v.push(58);
    proof {
        assert(final(v)@ =~= old(v)@ + ql_marker());
    }
}

/// Appends the decimal digits of `n` to `v`.
fn push_dec(v: &mut Vec<u8>, n: u64)
    ensures
        final(v)@ == old(v)@ + dec_rep(n as nat),
{
    let digits = u64_to_dec(n);
    let mut i: usize = 0;
    while i < digits.len()
        invariant
            i <= digits@.len(),
            digits@ == dec_rep(n as nat),
            v@ == old(v)@ + digits@.subrange(0, i as int),
        decreases digits@.len() - i,
    {
        let ghost pre = v@;
        v.push(digits[i]);
        proof {
            assert(pre.push(digits@[i as int]) =~= old(v)@ + digits@.subrange(0, i as int + 1));
        }
        i = i + 1;
    }
    proof {
        assert(digits@.subrange(0, digits@.len() as int) =~= digits@);
    }
}

/// Appends the label for `rt` to `v`.
fn push_label(v: &mut Vec<u8>, rt: ReadType, group_idx: u64, group_size: u64)
    ensures
        final(v)@ == old(v)@ + label_bytes(rt, group_idx as nat, group_size as nat),
{
    match rt {
        ReadType::Consensus => {
            v.push(67);
            v.push(79);
            v.push(78);
            v.push(95);
            proof {
                assert(v@ =~= old(v)@ + con_head());
            }
            push_dec(v, group_size);
            proof {
                assert(final(v)@ =~= old(v)@ + label_bytes(
                    rt,
                    group_idx as nat,
                    group_size as nat,
                ));
            }
        },
        ReadType::Single => {
            v.push(83);
            v.push(73);
            v.push(78);
            proof {
                assert(final(v)@ =~= old(v)@ + sin_label());
            }
        },
        ReadType::Original => {
            v.push(79);
            v.push(82);
            v.push(73);
            v.push(71);
            v.push(95);
            proof {
                assert(v@ =~= old(v)@ + orig_head());
            }
            push_dec(v, group_idx);
            v.push(95);
            v.push(79);
            v.push(70);
            v.push(95);
            proof {
                assert(v@ =~= old(v)@ + orig_head() + dec_rep(group_idx as nat) + of_infix());
            }
            push_dec(v, group_size);
            proof {
                assert(final(v)@ =~= old(v)@ + label_bytes(
                    rt,
                    group_idx as nat,
                    group_size as nat,
                ));
            }
        },
        ReadType::Ignored => {
            v.push(73);
            v.push(71);
            v.push(78);
            proof {
                assert(final(v)@ =~= old(v)@ + ign_label());
            }
        },
    }
}

/// Appends the two-decimal fixed-point text of a centi-quality to `v`.
fn push_centi(v: &mut Vec<u8>, c: u64)
    ensures
        final(v)@ == old(v)@ + centi_bytes(c as nat),
{
    push_dec(v, c / 100);
    v.push(46);
    proof {
        assert(v@ =~= old(v)@ + dec_rep((c / 100) as nat) + seq![46u8]);
    }
    let frac = c % 100;
    if frac < 10 {
        v.push(48);
        push_dec(v, frac);
        proof {
            assert(final(v)@ =~= old(v)@ + centi_bytes(c as nat));
        }
    } else {
        push_dec(v, frac);
        proof {
            assert(final(v)@ =~= old(v)@ + centi_bytes(c as nat));
        }
    }
}

impl Record {
    /// Appends the metadata tags to the record's identifier in place: the
    /// read-type tag, the group ordinal, and, for consensus and singleton
    /// records, the group's average quality.
    pub fn add_metadata(
        &mut self,
        umi_group: u64,
        read_type: ReadType,
        group_idx: u64,
        group_size: u64,
        avg_qual_centi: u64,
    )
        ensures
            final(self).id@ == old(self).id@ + metadata_suffix(
                read_type,
                umi_group as nat,
                group_idx as nat,
                group_size as nat,
                avg_qual_centi as nat,
            ),
            final(self).seq@ == old(self).seq@,
            final(self).qual@ == old(self).qual@,
    {
        push_ut_marker(&mut self.id);
        push_label(&mut self.id, read_type, group_idx, group_size);
        push_ug_marker(&mut self.id);
        push_dec(&mut self.id, umi_group);
        let report = match read_type {
            ReadType::Consensus => true,
            ReadType::Single => true,
            _ => false,
        };
        if report {
            push_ql_marker(&mut self.id);
            push_centi(&mut self.id, avg_qual_centi);
        }
        proof {
            assert(final(self).id@ =~= old(self).id@ + metadata_suffix(
                read_type,
                umi_group as nat,
                group_idx as nat,
                group_size as nat,
                avg_qual_centi as nat,
            ));
        }
    }

    /// The record rendered in FASTQ form: `@id`, sequence, `+`, quality,
    /// with no trailing newline.
    pub fn fastq_bytes(&self) -> (r: Vec<u8>)
        ensures
            r@ == fastq_rendering(self.id@, self.seq@, self.qual@),
    {
        let mut r: Vec<u8> = Vec::new();
        r.push(64);
        extend_bytes(&mut r, self.id.as_slice());
        r.push(10);
        extend_bytes(&mut r, self.seq.as_slice());
        r.push(10);
        r.push(43);
        r.push(10);
        extend_bytes(&mut r, self.qual.as_slice());
        proof {
            assert(r@ =~= fastq_rendering(self.id@, self.seq@, self.qual@));
        }
        r
    }
}

/// The FASTQ text of a record: `@id\nseq\n+\nqual`, with no trailing
/// newline.
pub open spec fn fastq_rendering(id: Seq<u8>, seq: Seq<u8>, qual: Seq<u8>) -> Seq<u8> {
    seq![64u8] + id + seq![10u8] + seq + seq![10u8, 43u8, 10u8] + qual
}

} // verus!
