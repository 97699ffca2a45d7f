//! Per-group consensus policy and the ordered assembly of the output
//! stream. The alignment engine itself is an outside collaborator: its
//! output sequence is handed in per duplex group, and everything else —
//! which groups need it, how records are tagged, and the exact output
//! bytes in group order — is decided here.

use vstd::prelude::*;
use vstd::string::*;
use crate::groups::UMIGroup;
use crate::ident::id_chars;
use crate::records::{Record, ReadType, clone_bytes, extend_bytes, fastq_rendering,
    metadata_suffix, rec_view};

verus! {

/// A configuration the pipeline rejects before starting.
#[derive(PartialEq, Eq, Structural, Clone, Copy, Debug)]
pub enum ConfigError {
    /// The thread count must be at least one.
    ThreadCount { threads: usize },
    /// A reorder buffer must hold at least one slot per thread.
    CacheTooSmall { threads: usize, cache_size: usize },
}

/// Whether a group requires the alignment engine: more than one member and
/// not marked to pass through.
pub open spec fn spec_needs_engine(g: UMIGroup) -> bool {
    g.records@.len() > 1 && !g.ignore
}

/// How many of these groups require the engine.
pub open spec fn duplex_count(gs: Seq<UMIGroup>) -> nat
    decreases gs.len(),
{
    if gs.len() == 0 {
        0
    } else {
        duplex_count(gs.drop_last()) + (if spec_needs_engine(gs.last()) {
            1nat
        } else {
            0nat
        })
    }
}

/// The quality byte that stands for a group's average quality: 33 plus the
/// whole PHRED points, capped at the printable range.
pub open spec fn cons_qual_byte(avg: nat) -> u8 {
    (33 + (if avg / 100 > 93 {
        93nat
    } else {
        avg / 100
    })) as u8
}

/// The derived quality string of a consensus record: the group's average
/// quality at every base.
pub open spec fn cons_fill_qual(len: nat, avg: nat) -> Seq<u8> {
    Seq::new(len, |i: int| cons_qual_byte(avg))
}

/// The records one group contributes to the output, as (id, sequence,
/// quality) byte views, given the engine's consensus sequence `eng` (read
/// only for groups that need the engine):
/// - one member: that member, tagged as a singleton;
/// - oversized (ignored) group: each member unmodified, tagged as ignored;
/// - otherwise: the members tagged as originals when requested, then the
///   consensus record under the group's identifier.
pub open spec fn spec_group_out(g: UMIGroup, eng: Seq<u8>, originals: bool) -> Seq<
    (Seq<u8>, Seq<u8>, Seq<u8>),
> {
    let n = g.records@.len();
    let avg = g.avg_qual_centi as nat;
    let idx = g.index as nat;
    if n == 1 {
        seq![
            (
                g.records@[0].id@ + metadata_suffix(ReadType::Single, idx, 1, 1, avg),
                g.records@[0].seq@,
                g.records@[0].qual@,
            ),
        ]
    } else if g.ignore {
        Seq::new(
            n as nat,
            |k: int|
                (
                    g.records@[k].id@ + metadata_suffix(
                        ReadType::Ignored,
                        idx,
                        (k + 1) as nat,
                        n,
                        avg,
                    ),
                    g.records@[k].seq@,
                    g.records@[k].qual@,
                ),
        )
    } else {
        (if originals {
            Seq::new(
                n as nat,
                |k: int|
                    (
                        g.records@[k].id@ + metadata_suffix(
                            ReadType::Original,
                            idx,
                            (k + 1) as nat,
                            n,
                            avg,
                        ),
                        g.records@[k].seq@,
                        g.records@[k].qual@,
                    ),
            )
        } else {
            Seq::empty()
        }) + seq![
            (
                vstd::utf8::encode_utf8(id_chars(g.id)) + metadata_suffix(
                    ReadType::Consensus,
                    idx,
                    0,
                    n,
                    avg,
                ),
                eng,
                cons_fill_qual(eng.len(), avg),
            ),
        ]
    }
}

/// All records of a run, in group order, consuming one engine output per
/// group that needs the engine.
pub open spec fn spec_run_out(gs: Seq<UMIGroup>, engs: Seq<Seq<u8>>, originals: bool) -> Seq<
    (Seq<u8>, Seq<u8>, Seq<u8>),
>
    decreases gs.len(),
{
    if gs.len() == 0 {
        Seq::empty()
    } else {
        spec_run_out(gs.drop_last(), engs, originals) + spec_group_out(
            gs.last(),
            if spec_needs_engine(gs.last()) {
                engs[duplex_count(gs.drop_last()) as int]
            } else {
                Seq::empty()
            },
            originals,
        )
    }
}

/// The output bytes of a record stream: each record in FASTQ form, with a
/// newline between consecutive records and none at the end.
pub open spec fn spec_join_fastq(rs: Seq<(Seq<u8>, Seq<u8>, Seq<u8>)>) -> Seq<u8>
    decreases rs.len(),
{
    if rs.len() == 0 {
        Seq::empty()
    } else if rs.len() == 1 {
        fastq_rendering(rs[0].0, rs[0].1, rs[0].2)
    } else {
        spec_join_fastq(rs.drop_last()) + seq![10u8] + fastq_rendering(
            rs.last().0,
            rs.last().1,
            rs.last().2,
        )
    }
}

/// Whether a group requires the alignment engine.
pub fn needs_engine(g: &UMIGroup) -> (r: bool)
    ensures
        r == spec_needs_engine(*g),
{
    g.records.len() > 1 && !g.ignore
}

/// Computes the group's consensus record in place:
/// - a one-member group's consensus is its sole member, tagged as a
///   singleton — the engine's output is never read (pass-through);
/// - a group that needs the engine gets a record under the group's
///   identifier, tagged as a consensus of `n` members, carrying the
///   engine's sequence and the average-quality fill;
/// - an oversized (ignored) multi-member group keeps its consensus slot
///   unchanged: its members are passed through at rendering.
pub fn call_umi_group(group: &mut UMIGroup, engine_seq: Option<Vec<u8>>)
    requires
        old(group).records@.len() >= 1,
        spec_needs_engine(*old(group)) ==> engine_seq is Some,
    ensures
        final(group).id == old(group).id,
        final(group).index == old(group).index,
        final(group).records == old(group).records,
        final(group).avg_qual_centi == old(group).avg_qual_centi,
        final(group).ignore == old(group).ignore,
        old(group).records@.len() == 1 ==> match final(group).consensus {
            Some(rec) => {
                &&& rec.id@ == old(group).records@[0].id@ + metadata_suffix(
                    ReadType::Single,
                    old(group).index as nat,
                    1,
                    1,
                    old(group).avg_qual_centi as nat,
                )
                &&& rec.seq@ == old(group).records@[0].seq@
                &&& rec.qual@ == old(group).records@[0].qual@
            },
            None => false,
        },
        spec_needs_engine(*old(group)) ==> match final(group).consensus {
            Some(rec) => {
                &&& rec.id@ == vstd::utf8::encode_utf8(id_chars(old(group).id))
                    + metadata_suffix(
                    ReadType::Consensus,
                    old(group).index as nat,
                    0,
                    old(group).records@.len(),
                    old(group).avg_qual_centi as nat,
                )
                &&& rec.seq@ == engine_seq->Some_0@
                &&& rec.qual@ == cons_fill_qual(
                    engine_seq->Some_0@.len(),
                    old(group).avg_qual_centi as nat,
                )
            },
            None => false,
        },
        (old(group).records@.len() > 1 && old(group).ignore) ==> final(group).consensus == old(
            group,
        ).consensus,
{
    let n = group.records.len();
    let idx: u64 = group.index as u64;
    if n == 1 {
        let mut rec = group.records[0].duplicate();
        rec.add_metadata(idx, ReadType::Single, 1, 1, group.avg_qual_centi);
        group.consensus = Some(rec);
        return ;
    }
    if group.ignore {
        return ;
    }
    let eng = match engine_seq {
        Some(v) => v,
        None => {
            proof {
                assert(false);
            }
            unreached()
        },
    };
    let id_text = group.id.to_text();
    let id_bytes = id_text.as_str().as_bytes_vec();
    let fill_whole = group.avg_qual_centi / 100;
    let fill: u8 = 33 + (if fill_whole > 93 {
        93
    } else {
        fill_whole as u8
    });
    let target = eng.len();
    let mut qual: Vec<u8> = Vec::new();
    let mut i: usize = 0;
    while i < target
        invariant
            i <= target,
            qual@.len() == i,
            forall|j: int| 0 <= j < i ==> qual@[j] == fill,
        decreases target - i,
    {
        qual.push(fill);
        i = i + 1;
    }
    let mut rec = Record { id: id_bytes, seq: eng, qual };
    proof {
        assert(fill == cons_qual_byte(group.avg_qual_centi as nat));
        assert(rec.qual@ =~= cons_fill_qual(rec.seq@.len(), group.avg_qual_centi as nat));
    }
    rec.add_metadata(
        idx,
        ReadType::Consensus,
        0,
        group.records.len() as u64,
        group.avg_qual_centi,
    );
    group.consensus = Some(rec);
}

/// The element views of a list of engine outputs.
pub open spec fn engs_view(v: Seq<Vec<u8>>) -> Seq<Seq<u8>> {
    Seq::new(v.len(), |i: int| v[i]@)
}

/// The records one group contributes, as owned records.
fn group_out_records(g: &UMIGroup, engine_seq: Option<Vec<u8>>, originals: bool) -> (out: Vec<
    Record,
>)
    requires
        g.records@.len() >= 1,
        spec_needs_engine(*g) ==> engine_seq is Some,
    ensures
        ({
            let eng = if spec_needs_engine(*g) {
                engine_seq->Some_0@
            } else {
                Seq::empty()
            };
            &&& out@.len() == spec_group_out(*g, eng, originals).len()
            &&& forall|i: int|
                0 <= i < out@.len() ==> rec_view(#[trigger] out@[i]) == spec_group_out(
                    *g,
                    eng,
                    originals,
                )[i]
        }),
{
    let n = g.records.len();
    let idx: u64 = g.index as u64;
    let avg = g.avg_qual_centi;
    let mut out: Vec<Record> = Vec::new();
    let ghost eng = if spec_needs_engine(*g) {
        engine_seq->Some_0@
    } else {
        Seq::<u8>::empty()
    };
    if n == 1 {
        let mut rec = g.records[0].duplicate();
        rec.add_metadata(idx, ReadType::Single, 1, 1, avg);
        out.push(rec);
        proof {
            assert(rec_view(out@[0]) == spec_group_out(*g, eng, originals)[0]);
        }
        return out;
    }
    if g.ignore {
        let mut k: usize = 0;
        while k < n
            invariant
                n == g.records@.len(),
                n > 1,
                g.ignore,
                idx == g.index as u64,
                avg == g.avg_qual_centi,
                k <= n,
                out@.len() == k,
                forall|i: int|
                    0 <= i < k ==> rec_view(#[trigger] out@[i]) == spec_group_out(
                        *g,
                        eng,
                        originals,
                    )[i],
            decreases n - k,
        {
            let mut rec = g.records[k].duplicate();
            rec.add_metadata(idx, ReadType::Ignored, (k as u64) + 1, n as u64, avg);
            out.push(rec);
            k = k + 1;
        }
        return out;
    }
    if originals {
        let mut k: usize = 0;
        while k < n
            invariant
                n == g.records@.len(),
                n > 1,
                !g.ignore,
                originals,
                idx == g.index as u64,
                avg == g.avg_qual_centi,
                k <= n,
                out@.len() == k,
                forall|i: int|
                    0 <= i < k ==> rec_view(#[trigger] out@[i]) == spec_group_out(
                        *g,
                        eng,
                        originals,
                    )[i],
            decreases n - k,
        {
            let mut rec = g.records[k].duplicate();
            rec.add_metadata(idx, ReadType::Original, (k as u64) + 1, n as u64, avg);
            out.push(rec);
            k = k + 1;
        }
    }
    let eng_bytes = match engine_seq {
        Some(v) => v,
        None => {
            proof {
                assert(false);
            }
            unreached()
        },
    };
    let id_text = g.id.to_text();
    let id_bytes = id_text.as_str().as_bytes_vec();
    let fill_whole = avg / 100;
    let fill: u8 = 33 + (if fill_whole > 93 {
        93
    } else {
        fill_whole as u8
    });
    let target = eng_bytes.len();
    let mut qual: Vec<u8> = Vec::new();
    let mut i: usize = 0;
    while i < target
        invariant
            i <= target,
            qual@.len() == i,
            forall|j: int| 0 <= j < i ==> qual@[j] == fill,
        decreases target - i,
    {
        qual.push(fill);
        i = i + 1;
    }
    let mut rec = Record { id: id_bytes, seq: eng_bytes, qual };
    proof {
        assert(fill == cons_qual_byte(avg as nat));
        assert(rec.qual@ =~= cons_fill_qual(rec.seq@.len(), avg as nat));
    }
    rec.add_metadata(idx, ReadType::Consensus, 0, n as u64, avg);
    out.push(rec);
    proof {
        let sg = spec_group_out(*g, eng, originals);
        assert(rec_view(out@[out@.len() - 1]) == sg[sg.len() - 1]);
    }
    out
}

/// Appending one record to the joined output.
proof fn lemma_join_push(rs: Seq<(Seq<u8>, Seq<u8>, Seq<u8>)>, v: (Seq<u8>, Seq<u8>, Seq<u8>))
    ensures
        spec_join_fastq(rs.push(v)) == if rs.len() == 0 {
            fastq_rendering(v.0, v.1, v.2)
        } else {
            spec_join_fastq(rs) + seq![10u8] + fastq_rendering(v.0, v.1, v.2)
        },
{
    assert(rs.push(v).drop_last() =~= rs);
    assert(rs.push(v).last() == v);
    if rs.len() == 0 {
        assert(rs.push(v)[0] == v);
    }
}

/// A prefix requires no more engine outputs than the whole.
proof fn lemma_dupcount_take_le(gs: Seq<UMIGroup>, i: int)
    requires
        0 <= i <= gs.len(),
    ensures
        duplex_count(gs.take(i)) <= duplex_count(gs),
    decreases gs.len() - i,
{
    if i < gs.len() {
        assert(gs.take(i + 1).drop_last() =~= gs.take(i));
        assert(gs.take(i + 1).last() == gs[i]);
        lemma_dupcount_take_le(gs, i + 1);
    } else {
        assert(gs.take(i) =~= gs);
    }
}

/// One more group extends the run output by that group's records, and
/// consumes one engine output exactly when the group needs the engine.
proof fn lemma_run_out_step(gs: Seq<UMIGroup>, engs: Seq<Seq<u8>>, originals: bool, i: int)
    requires
        0 <= i < gs.len(),
    ensures
        spec_run_out(gs.take(i + 1), engs, originals) == spec_run_out(gs.take(i), engs, originals)
            + spec_group_out(
            gs[i],
            if spec_needs_engine(gs[i]) {
                engs[duplex_count(gs.take(i)) as int]
            } else {
                Seq::empty()
            },
            originals,
        ),
        duplex_count(gs.take(i + 1)) == duplex_count(gs.take(i)) + (if spec_needs_engine(gs[i]) {
            1nat
        } else {
            0nat
        }),
{
    assert(gs.take(i + 1).drop_last() =~= gs.take(i));
    assert(gs.take(i + 1).last() == gs[i]);
}

/// Generates the full ordered output of a run: each yielded group's records
/// in group order, consuming the engine's consensus sequences in the order
/// the duplex groups appear. The output is pinned by the groups, the engine
/// outputs and the originals flag alone — in particular it does not depend
/// on the thread count, so any two valid thread counts give byte-identical
/// output.
#[verifier::rlimit(60)]
pub fn consensus(
    groups: Vec<UMIGroup>,
    engine_seqs: Vec<Vec<u8>>,
    threads: usize,
    output_originals: bool,
) -> (r: Result<Vec<u8>, ConfigError>)
    requires
        engine_seqs@.len() == duplex_count(groups@),
        forall|i: int| 0 <= i < groups@.len() ==> (#[trigger] groups@[i]).records@.len() >= 1,
    ensures
        threads == 0 ==> r == Err::<Vec<u8>, ConfigError>(ConfigError::ThreadCount { threads }),
        threads >= 1 ==> {
            &&& r is Ok
            &&& r->Ok_0@ == spec_join_fastq(
                spec_run_out(groups@, engs_view(engine_seqs@), output_originals),
            )
        },
{
    if threads == 0 {
        return Err(ConfigError::ThreadCount { threads });
    }
    let ghost engs = engs_view(engine_seqs@);
    let n = groups.len();
    let mut out: Vec<u8> = Vec::new();
    let ghost mut rs: Seq<(Seq<u8>, Seq<u8>, Seq<u8>)> = Seq::empty();
    let mut d: usize = 0;
    let mut i: usize = 0;
    proof {
        assert(groups@.take(0) =~= Seq::<UMIGroup>::empty());
        assert(spec_run_out(groups@.take(0), engs, output_originals) =~= rs);
        assert(spec_join_fastq(rs) =~= out@);
    }
    while i < n
        invariant
            n == groups@.len(),
            engs == engs_view(engine_seqs@),
            engine_seqs@.len() == duplex_count(groups@),
            forall|k: int| 0 <= k < n ==> (#[trigger] groups@[k]).records@.len() >= 1,
            i <= n,
            d == duplex_count(groups@.take(i as int)),
            rs == spec_run_out(groups@.take(i as int), engs, output_originals),
            out@ == spec_join_fastq(rs),
        decreases n - i,
    {
        proof {
            lemma_run_out_step(groups@, engs, output_originals, i as int);
            lemma_dupcount_take_le(groups@, i as int + 1);
        }
        let el = engine_seqs.len();
        let g = &groups[i];
        let eng_opt: Option<Vec<u8>> = if needs_engine(g) {
            proof {
                assert(duplex_count(groups@.take(i as int + 1)) == d + 1);
                assert(d + 1 <= el);
            }
            let e = clone_bytes(&engine_seqs[d]);
            d = d + 1;
            Some(e)
        } else {
            None
        };
        let recs = group_out_records(g, eng_opt, output_originals);
        let ghost this_out = spec_group_out(
            groups@[i as int],
            if spec_needs_engine(groups@[i as int]) {
                engs[duplex_count(groups@.take(i as int)) as int]
            } else {
                Seq::empty()
            },
            output_originals,
        );
        let m = recs.len();
        let mut k: usize = 0;
        while k < m
            invariant
                m == recs@.len(),
                m == this_out.len(),
                forall|j: int| 0 <= j < m ==> rec_view(#[trigger] recs@[j]) == this_out[j],
                k <= m,
                rs == spec_run_out(groups@.take(i as int), engs, output_originals)
                    + this_out.take(k as int),
                out@ == spec_join_fastq(rs),
            decreases m - k,
        {
            let ghost pre = rs;
            if out.len() > 0 {
                out.push(10);
            }
            let fb = recs[k].fastq_bytes();
            extend_bytes(&mut out, fb.as_slice());
            proof {
                rs = rs.push(this_out[k as int]);
                lemma_join_push(pre, this_out[k as int]);
                assert(rec_view(recs@[k as int]) == this_out[k as int]);
                if pre.len() == 0 {
                    assert(spec_join_fastq(pre) =~= Seq::<u8>::empty());
                    assert(out@ =~= spec_join_fastq(rs));
                } else {
                    assert(spec_join_fastq(pre).len() > 0) by {
                        lemma_join_nonempty(pre);
                    }
                    assert(out@ =~= spec_join_fastq(rs));
                }
                assert(spec_run_out(groups@.take(i as int), engs, output_originals)
                    + this_out.take(k as int + 1) =~= rs);
            }
            k = k + 1;
        }
        proof {
            assert(this_out.take(m as int) =~= this_out);
        }
        i = i + 1;
    }
    proof {
        assert(groups@.take(n as int) =~= groups@);
    }
    Ok(out)
}

/// A non-empty record stream joins to non-empty bytes.
proof fn lemma_join_nonempty(rs: Seq<(Seq<u8>, Seq<u8>, Seq<u8>)>)
    requires
        rs.len() > 0,
    ensures
        spec_join_fastq(rs).len() > 0,
    decreases rs.len(),
{
    if rs.len() > 1 {
        lemma_join_nonempty(rs.drop_last());
    }
}

/// Pass-through law for singletons: a one-member group contributes exactly
/// one record, whose sequence and quality are its member's own, and the
/// engine's output is never consulted — the contribution is the same
/// whatever the engine would have said.
pub proof fn lemma_singleton_passthrough(
    g: UMIGroup,
    eng1: Seq<u8>,
    eng2: Seq<u8>,
    originals: bool,
)
    requires
        g.records@.len() == 1,
    ensures
        spec_group_out(g, eng1, originals).len() == 1,
        spec_group_out(g, eng1, originals)[0].1 == g.records@[0].seq@,
        spec_group_out(g, eng1, originals)[0].2 == g.records@[0].qual@,
        spec_group_out(g, eng1, originals) == spec_group_out(g, eng2, originals),
{
}

/// Pass-through law for oversized groups: a group marked to be skipped
/// contributes each member unmodified (but for the ignored tag on its
/// identifier), and the engine's output is never consulted.
pub proof fn lemma_oversized_passthrough(
    g: UMIGroup,
    eng1: Seq<u8>,
    eng2: Seq<u8>,
    originals: bool,
)
    requires
        g.records@.len() > 1,
        g.ignore,
    ensures
        spec_group_out(g, eng1, originals).len() == g.records@.len(),
        forall|k: int|
            0 <= k < g.records@.len() ==> {
                &&& (#[trigger] spec_group_out(g, eng1, originals)[k]).1 == g.records@[k].seq@
                &&& spec_group_out(g, eng1, originals)[k].2 == g.records@[k].qual@
                &&& spec_group_out(g, eng1, originals)[k].0 == g.records@[k].id@
                    + metadata_suffix(
                    ReadType::Ignored,
                    g.index as nat,
                    (k + 1) as nat,
                    g.records@.len(),
                    g.avg_qual_centi as nat,
                )
            },
        spec_group_out(g, eng1, originals) == spec_group_out(g, eng2, originals),
{
}

/// Additivity of the engine-output demand over concatenation.
proof fn lemma_dupcount_add(a: Seq<UMIGroup>, b: Seq<UMIGroup>)
    ensures
        duplex_count(a + b) == duplex_count(a) + duplex_count(b),
    decreases b.len(),
{
    if b.len() == 0 {
        assert(a + b =~= a);
    } else {
        assert((a + b).drop_last() =~= a + b.drop_last());
        assert((a + b).last() == b.last());
        lemma_dupcount_add(a, b.drop_last());
    }
}

/// Chunked assembly law: splitting the groups at any point and processing
/// the two parts separately — handing the second part the engine outputs
/// that remain — yields, concatenated, exactly the whole run's records. A
/// pipeline may therefore process the stream chunk by chunk, at any chunk
/// size, without changing one byte of the ordered output.
#[verifier::rlimit(100)]
pub proof fn lemma_chunked_assembly(
    gs: Seq<UMIGroup>,
    engs: Seq<Seq<u8>>,
    originals: bool,
    k: int,
)
    requires
        0 <= k <= gs.len(),
        duplex_count(gs) <= engs.len(),
    ensures
        spec_run_out(gs, engs, originals) == spec_run_out(gs.take(k), engs, originals)
            + spec_run_out(gs.skip(k), engs.skip(duplex_count(gs.take(k)) as int), originals),
    decreases gs.len() - k,
{
    let dk = duplex_count(gs.take(k)) as int;
    assert(duplex_count(Seq::<UMIGroup>::empty()) == 0);
    assert(gs.take(k) + gs.skip(k) =~= gs);
    lemma_dupcount_add(gs.take(k), gs.skip(k));
    assert(dk + duplex_count(gs.skip(k)) == duplex_count(gs));
    if k == gs.len() {
        assert(gs.take(k) =~= gs);
        assert(gs.skip(k) =~= Seq::<UMIGroup>::empty());
        assert(spec_run_out(gs.skip(k), engs.skip(dk), originals) == Seq::<
            (Seq<u8>, Seq<u8>, Seq<u8>),
        >::empty());
        assert(spec_run_out(gs, engs, originals) + Seq::<
            (Seq<u8>, Seq<u8>, Seq<u8>),
        >::empty() =~= spec_run_out(gs, engs, originals));
    } else {
        lemma_chunked_assembly(gs, engs, originals, k + 1);
        lemma_run_out_step(gs, engs, originals, k);
        let tail1 = gs.skip(k);
        let dk1 = duplex_count(gs.take(k + 1)) as int;
        let d0 = duplex_count(seq![gs[k]]) as int;
        lemma_dupcount_take_le(gs, k + 1);
        assert(seq![gs[k]].drop_last() =~= Seq::<UMIGroup>::empty());
        assert(duplex_count(seq![gs[k]].drop_last()) == 0);
        assert(seq![gs[k]].last() == gs[k]);
        assert(d0 == if spec_needs_engine(gs[k]) { 1int } else { 0int });
        assert(dk1 == dk + d0);
        assert(tail1.drop_first() =~= gs.skip(k + 1));
        assert(tail1[0] == gs[k]);
        assert(duplex_count(tail1) <= engs.skip(dk).len());
        lemma_run_out_front(tail1, engs.skip(dk), originals);
        vstd::seq_lib::lemma_seq_skip_of_skip(engs, dk, d0);
        assert(engs.skip(dk).skip(d0) =~= engs.skip(dk1));
        if spec_needs_engine(gs[k]) {
            assert(engs.skip(dk)[0] == engs[dk]);
        }
        assert(spec_run_out(tail1, engs.skip(dk), originals) =~= spec_group_out(
            gs[k],
            if spec_needs_engine(gs[k]) {
                engs[dk]
            } else {
                Seq::empty()
            },
            originals,
        ) + spec_run_out(gs.skip(k + 1), engs.skip(dk1), originals));
        assert(spec_run_out(gs.take(k), engs, originals) + spec_run_out(
            tail1,
            engs.skip(dk),
            originals,
        ) =~= spec_run_out(gs.take(k + 1), engs, originals) + spec_run_out(
            gs.skip(k + 1),
            engs.skip(dk1),
            originals,
        ));
    }
}

/// Peeling the first group off a run.
#[verifier::rlimit(100)]
proof fn lemma_run_out_front(gs: Seq<UMIGroup>, engs: Seq<Seq<u8>>, originals: bool)
    requires
        gs.len() > 0,
        duplex_count(gs) <= engs.len(),
    ensures
        spec_run_out(gs, engs, originals) == spec_group_out(
            gs[0],
            if spec_needs_engine(gs[0]) {
                engs[0]
            } else {
                Seq::empty()
            },
            originals,
        ) + spec_run_out(
            gs.drop_first(),
            engs.skip(duplex_count(seq![gs[0]]) as int),
            originals,
        ),
    decreases gs.len(),
{
    let d0 = duplex_count(seq![gs[0]]) as int;
    assert(duplex_count(Seq::<UMIGroup>::empty()) == 0);
    assert(seq![gs[0]].drop_last() =~= Seq::<UMIGroup>::empty());
    assert(duplex_count(seq![gs[0]].drop_last()) == 0);
    assert(seq![gs[0]].last() == gs[0]);
    assert(d0 == if spec_needs_engine(gs[0]) { 1int } else { 0int });
    if gs.len() == 1 {
        assert(gs.drop_last() =~= Seq::<UMIGroup>::empty());
        assert(gs.drop_first() =~= Seq::<UMIGroup>::empty());
        assert(gs.last() == gs[0]);
        assert(duplex_count(gs.drop_last()) == 0);
        assert(spec_run_out(gs.drop_last(), engs, originals) == Seq::<
            (Seq<u8>, Seq<u8>, Seq<u8>),
        >::empty());
        assert(spec_run_out(gs.drop_first(), engs.skip(d0), originals) == Seq::<
            (Seq<u8>, Seq<u8>, Seq<u8>),
        >::empty());
        assert(Seq::<(Seq<u8>, Seq<u8>, Seq<u8>)>::empty() + spec_group_out(
            gs[0],
            if spec_needs_engine(gs[0]) {
                engs[0]
            } else {
                Seq::empty()
            },
            originals,
        ) =~= spec_group_out(
            gs[0],
            if spec_needs_engine(gs[0]) {
                engs[0]
            } else {
                Seq::empty()
            },
            originals,
        ) + Seq::<(Seq<u8>, Seq<u8>, Seq<u8>)>::empty());
    } else {
        let front = gs.drop_last();
        assert(duplex_count(front) <= duplex_count(gs)) by {
            assert(gs.take(gs.len() - 1) =~= front);
            lemma_dupcount_take_le(gs, gs.len() - 1);
        }
        lemma_run_out_front(front, engs, originals);
        assert(front[0] == gs[0]);
        assert(front.drop_first() =~= gs.drop_first().drop_last());
        lemma_dupcount_add(seq![gs[0]], gs.drop_first().drop_last());
        assert(seq![gs[0]] + gs.drop_first().drop_last() =~= front);
        assert(gs.drop_first().last() == gs.last());
        assert(duplex_count(front) == d0 + duplex_count(gs.drop_first().drop_last()));
        if spec_needs_engine(gs.last()) {
            assert(engs.skip(d0)[duplex_count(gs.drop_first().drop_last()) as int] == engs[
                duplex_count(front) as int]);
        }
        assert(spec_run_out(gs.drop_first(), engs.skip(d0), originals) =~= spec_run_out(
            gs.drop_first().drop_last(),
            engs.skip(d0),
            originals,
        ) + spec_group_out(
            gs.last(),
            if spec_needs_engine(gs.last()) {
                engs[duplex_count(front) as int]
            } else {
                Seq::empty()
            },
            originals,
        ));
        assert(spec_group_out(
            gs[0],
            if spec_needs_engine(gs[0]) {
                engs[0]
            } else {
                Seq::empty()
            },
            originals,
        ) + spec_run_out(gs.drop_first(), engs.skip(d0), originals) =~= spec_run_out(
            gs,
            engs,
            originals,
        ));
    }
}

} // verus!
