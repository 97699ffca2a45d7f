//! Materializing duplicate groups: the 4-line record grammar, and the
//! single-pass iterator that yields each group in file-discovery order.

use vstd::prelude::*;
use crate::duplicates::{DuplicateMap, GroupView, IdGroup, RecordPosition, map_view};
use crate::ident::RecordIdentifier;
use crate::index::scan_to;
use crate::records::{Record, centi_avg, phred_total};

verus! {

/// An error while materializing one group member.
#[derive(PartialEq, Eq, Structural, Clone, Copy, Debug)]
pub enum GroupError {
    /// The bytes of member `member` (at byte offset `pos`) are not a
    /// well-formed 4-line record.
    RecordDecode { member: usize, pos: usize },
}

/// One fully materialized duplicate group.
pub struct UMIGroup {
    /// The group's identifier.
    pub id: RecordIdentifier,
    /// The 0-based, gap-free ordinal among yielded groups.
    pub index: usize,
    /// The group's records, in file order.
    pub records: Vec<Record>,
    /// The mean quality across all bases of all members, in hundredths.
    pub avg_qual_centi: u64,
    /// Whether the group's byte span exceeded the ceiling, so that it must
    /// be passed through unaligned.
    pub ignore: bool,
    /// The consensus record, once computed.
    pub consensus: Option<Record>,
}

/// What a well-formed raw record's bytes denote: `@id`, sequence, a `+`
/// separator line, and a quality string of the sequence's length with all
/// bytes in the printable PHRED range, with one optional trailing newline.
pub open spec fn spec_parse_fastq(b: Seq<u8>) -> Option<(Seq<u8>, Seq<u8>, Seq<u8>)> {
    let len = b.len() as int;
    let n1 = scan_to(b, 10, 0, len);
    let n2 = scan_to(b, 10, n1 + 1, len);
    let n3 = scan_to(b, 10, n2 + 1, len);
    let n4 = scan_to(b, 10, n3 + 1, len);
    if n1 < len && n2 < len && n3 < len && (n4 == len || n4 == len - 1) && n1 >= 1 && b[0] == 64
        && n2 + 1 < n3 && b[n2 + 1] == 43 {
        let id = b.subrange(1, n1);
        let seq = b.subrange(n1 + 1, n2);
        let qual = b.subrange(n3 + 1, n4);
        if qual.len() == seq.len() && (forall|i: int| 0 <= i < qual.len() ==> qual[i] >= 33) {
            Some((id, seq, qual))
        } else {
            None
        }
    } else {
        None
    }
}

/// Parses one raw record; agrees with `spec_parse_fastq`.
pub fn parse_fastq_record(b: &Vec<u8>) -> (r: Option<Record>)
    ensures
        ({
            let p = spec_parse_fastq(b@);
            match r {
                Some(rec) => {
                    &&& p is Some
                    &&& rec.id@ == p->Some_0.0
                    &&& rec.seq@ == p->Some_0.1
                    &&& rec.qual@ == p->Some_0.2
                },
                None => p is None,
            }
        }),
{
    let len = b.len();
    let n1 = crate::index::find_byte(b, 10, 0, len);
    if n1 >= len {
        return None;
    }
    let n2 = crate::index::find_byte(b, 10, n1 + 1, len);
    if n2 >= len {
        return None;
    }
    let n3 = crate::index::find_byte(b, 10, n2 + 1, len);
    if n3 >= len {
        return None;
    }
    let n4 = crate::index::find_byte(b, 10, n3 + 1, len);
    if !((n4 == len || n4 == len - 1) && n1 >= 1) {
        return None;
    }
    if !(b[0] == 64 && n2 + 1 < n3 && b[n2 + 1] == 43) {
        return None;
    }
    let ghost idg = b@.subrange(1, n1 as int);
    let ghost seqg = b@.subrange(n1 as int + 1, n2 as int);
    let ghost qualg = b@.subrange(n3 as int + 1, n4 as int);
    if !(n2 - (n1 + 1) == n4 - (n3 + 1)) {
        proof {
            assert(qualg.len() != seqg.len());
        }
        return None;
    }
    let mut id: Vec<u8> = Vec::new();
    let mut i: usize = 1;
    while i < n1
        invariant
            1 <= i <= n1 <= b@.len(),
            id@ == b@.subrange(1, i as int),
        decreases n1 - i,
    {
        let ghost pre = id@;
        id.push(b[i]);
        proof {
            assert(pre.push(b@[i as int]) =~= b@.subrange(1, i as int + 1));
        }
        i = i + 1;
    }
    let mut seqv: Vec<u8> = Vec::new();
    let mut i: usize = n1 + 1;
    while i < n2
        invariant
            n1 + 1 <= i <= n2 <= b@.len(),
            seqv@ == b@.subrange(n1 as int + 1, i as int),
        decreases n2 - i,
    {
        let ghost pre = seqv@;
        seqv.push(b[i]);
        proof {
            assert(pre.push(b@[i as int]) =~= b@.subrange(n1 as int + 1, i as int + 1));
        }
        i = i + 1;
    }
    proof {
        if spec_parse_fastq(b@) is Some {
            assert(spec_parse_fastq(b@)->Some_0.2 == qualg);
        }
    }
    let mut qual: Vec<u8> = Vec::new();
    let mut i: usize = n3 + 1;
    while i < n4
        invariant
            n3 + 1 <= i <= n4 <= b@.len(),
            qualg == b@.subrange(n3 as int + 1, n4 as int),
            spec_parse_fastq(b@) is Some ==> spec_parse_fastq(b@)->Some_0.2 == qualg,
            qual@ == b@.subrange(n3 as int + 1, i as int),
            forall|j: int| 0 <= j < qual@.len() ==> qual@[j] >= 33,
        decreases n4 - i,
    {
        let v = b[i];
        if v < 33 {
            proof {
                assert(qualg[i - n3 - 1] == b@[i as int]);
                assert(qualg[i - n3 - 1] < 33);
            }
            return None;
        }
        let ghost pre = qual@;
        qual.push(v);
        proof {
            assert(pre.push(b@[i as int]) =~= b@.subrange(n3 as int + 1, i as int + 1));
        }
        i = i + 1;
    }
    proof {
        assert(id@ =~= idg);
        assert(seqv@ =~= seqg);
        assert(qual@ =~= qualg);
    }
    Some(Record { id, seq: seqv, qual })
}

/// The total summed PHRED score of several records.
pub open spec fn total_phred(rs: Seq<Record>) -> nat
    decreases rs.len(),
{
    if rs.len() == 0 {
        0
    } else {
        total_phred(rs.drop_last()) + phred_total(rs.last().qual@)
    }
}

/// The total base count of several records, by their quality strings.
pub open spec fn total_bases(rs: Seq<Record>) -> nat
    decreases rs.len(),
{
    if rs.len() == 0 {
        0
    } else {
        total_bases(rs.drop_last()) + rs.last().qual@.len()
    }
}

/// The total byte span of a group's records in the source file.
pub open spec fn span_of(ps: Seq<RecordPosition>) -> nat
    decreases ps.len(),
{
    if ps.len() == 0 {
        0
    } else {
        span_of(ps.drop_last()) + ps.last().length as nat
    }
}

/// Whether a group is yielded under the `duplicates_only` policy.
pub open spec fn yieldable(g: GroupView, duplicates_only: bool) -> bool {
    !duplicates_only || g.positions.len() > 1
}

/// The groups the iterator yields, in file-discovery order.
pub open spec fn kept_groups(gs: Seq<GroupView>, duplicates_only: bool) -> Seq<GroupView> {
    gs.filter(|g: GroupView| yieldable(g, duplicates_only))
}

/// A single-pass producer of materialized duplicate groups. It walks the
/// duplicate index in file-discovery order, skipping size-1 groups when
/// `duplicates_only` is set without consuming an ordinal, and assigns each
/// yielded group the next gap-free index. Once a member fails to decode the
/// iterator is failed and yields nothing further.
pub struct GroupIterator {
    pub groups: Vec<IdGroup>,
    pub cursor: usize,
    pub emitted: usize,
    pub duplicates_only: bool,
    pub max_group_bytes: usize,
    pub failed: bool,
}

/// The ghost image of the iterator's group list.
pub open spec fn iter_groups(it: GroupIterator) -> Seq<GroupView> {
    Seq::new(
        it.groups@.len(),
        |i: int|
            GroupView {
                key: crate::ident::id_key(it.groups@[i].id),
                positions: it.groups@[i].positions@,
            },
    )
}

impl GroupIterator {
    /// The iterator invariant: the cursor rests on the next yieldable group
    /// (or the end), and the ordinal counter equals the number of yieldable
    /// groups already passed.
    pub open spec fn wf(&self) -> bool {
        &&& self.cursor <= iter_groups(*self).len()
        &&& self.emitted == kept_groups(
            iter_groups(*self).take(self.cursor as int),
            self.duplicates_only,
        ).len()
        &&& !self.failed ==> (self.cursor == iter_groups(*self).len() || yieldable(
            iter_groups(*self)[self.cursor as int],
            self.duplicates_only,
        ))
    }

    /// Whether the iterator will yield nothing further.
    pub open spec fn spec_done(&self) -> bool {
        self.failed || self.cursor == iter_groups(*self).len()
    }

    /// The group list the iterator walks.
    pub open spec fn spec_groups(&self) -> Seq<GroupView> {
        iter_groups(*self)
    }

    /// Whether the iterator is failed.
    pub open spec fn spec_failed(&self) -> bool {
        self.failed
    }

    /// The duplicates-only policy flag.
    pub open spec fn spec_duplicates_only(&self) -> bool {
        self.duplicates_only
    }

    /// The number of groups yielded so far.
    pub open spec fn spec_emitted(&self) -> nat {
        self.emitted as nat
    }

    /// Takes the duplicate index and positions the cursor on the first
    /// yieldable group.
    pub fn new(map: DuplicateMap, duplicates_only: bool, max_group_bytes: usize) -> (r:
        GroupIterator)
        ensures
            r.wf(),
            iter_groups(r) == map_view(map),
            r.spec_duplicates_only() == duplicates_only,
            r.spec_emitted() == 0,
            !r.spec_failed(),
    {
        let mut it = GroupIterator {
            groups: map.by_id,
            cursor: 0,
            emitted: 0,
            duplicates_only,
            max_group_bytes,
            failed: false,
        };
        proof {
            assert(iter_groups(it) =~= map_view(map));
            assert(iter_groups(it).take(0) =~= Seq::<GroupView>::empty());
            lemma_filter_empty(duplicates_only);
        }
        it.skip_unyieldable();
        it
    }

    /// Advances the cursor over groups the policy skips, without consuming
    /// an ordinal.
    fn skip_unyieldable(&mut self)
        requires
            old(self).cursor <= iter_groups(*old(self)).len(),
            old(self).emitted == kept_groups(
                iter_groups(*old(self)).take(old(self).cursor as int),
                old(self).duplicates_only,
            ).len(),
        ensures
            final(self).wf(),
            iter_groups(*final(self)) == iter_groups(*old(self)),
            final(self).duplicates_only == old(self).duplicates_only,
            final(self).max_group_bytes == old(self).max_group_bytes,
            final(self).emitted == old(self).emitted,
            final(self).failed == old(self).failed,
    {
        let n = self.groups.len();
        while self.cursor < n && self.duplicates_only && self.groups[self.cursor].positions.len()
            <= 1
            invariant
                n == self.groups@.len(),
                self.cursor <= n,
                iter_groups(*self) == iter_groups(*old(self)),
                self.duplicates_only == old(self).duplicates_only,
                self.max_group_bytes == old(self).max_group_bytes,
                self.emitted == old(self).emitted,
                self.failed == old(self).failed,
                self.emitted == kept_groups(
                    iter_groups(*self).take(self.cursor as int),
                    self.duplicates_only,
                ).len(),
            decreases n - self.cursor,
        {
            proof {
                lemma_kept_step(iter_groups(*self), self.cursor as int, self.duplicates_only);
            }
            self.cursor = self.cursor + 1;
        }
    }

    /// The positions of the next group to fetch, or `None` when the
    /// iterator is exhausted or failed. Fetching the returned positions and
    /// handing the bytes to `supply` yields the group.
    pub fn next_request(&self) -> (r: Option<Vec<RecordPosition>>)
        requires
            self.wf(),
        ensures
            match r {
                Some(ps) => !self.spec_done() && ps@ == iter_groups(
                    *self,
                )[self.cursor as int].positions,
                None => self.spec_done(),
            },
    {
        if self.failed || self.cursor >= self.groups.len() {
            return None;
        }
        let src = &self.groups[self.cursor].positions;
        let mut ps: Vec<RecordPosition> = Vec::new();
        let mut i: usize = 0;
        while i < src.len()
            invariant
                i <= src@.len(),
                src == &self.groups@[self.cursor as int].positions,
                self.cursor < self.groups@.len(),
                ps@ == src@.subrange(0, i as int),
            decreases src@.len() - i,
        {
            let ghost pre = ps@;
            ps.push(src[i]);
            proof {
                assert(pre.push(src@[i as int]) =~= src@.subrange(0, i as int + 1));
            }
            i = i + 1;
        }
        proof {
            assert(ps@ =~= src@);
        }
        Some(ps)
    }
}

/// A parsed record's parts are no longer than its raw bytes.
proof fn lemma_fastq_lens(b: Seq<u8>)
    requires
        spec_parse_fastq(b) is Some,
    ensures
        spec_parse_fastq(b)->Some_0.2.len() <= b.len(),
{
}

/// A prefix's span never exceeds the whole's.
proof fn lemma_span_take_le(ps: Seq<RecordPosition>, i: int)
    requires
        0 <= i <= ps.len(),
    ensures
        span_of(ps.take(i)) <= span_of(ps),
    decreases ps.len() - i,
{
    if i < ps.len() {
        assert(ps.take(i + 1).drop_last() =~= ps.take(i));
        assert(ps.take(i + 1).last() == ps[i]);
        lemma_span_take_le(ps, i + 1);
    } else {
        assert(ps.take(i) =~= ps);
    }
}

impl GroupIterator {
    /// Materializes the group under the cursor from the raw bytes of its
    /// members, assigns it the next ordinal, and advances past it. `payloads`
    /// must hold, member for member, the bytes read at the positions that
    /// `next_request` returned (each span read exactly). On the first member
    /// whose bytes are not a well-formed record the iterator fails
    /// terminally.
    #[verifier::rlimit(100)]
    pub fn supply(&mut self, payloads: Vec<Vec<u8>>) -> (r: Result<UMIGroup, GroupError>)
        requires
            old(self).wf(),
            !old(self).spec_done(),
            payloads@.len() == iter_groups(*old(self))[old(self).cursor as int].positions.len(),
            forall|i: int|
                0 <= i < payloads@.len() ==> (#[trigger] payloads@[i])@.len() == iter_groups(
                    *old(self),
                )[old(self).cursor as int].positions[i].length,
            span_of(iter_groups(*old(self))[old(self).cursor as int].positions) <= u64::MAX,
        ensures
            final(self).wf(),
            iter_groups(*final(self)) == iter_groups(*old(self)),
            final(self).duplicates_only == old(self).duplicates_only,
            final(self).max_group_bytes == old(self).max_group_bytes,
            ({
                let gv = iter_groups(*old(self))[old(self).cursor as int];
                let kept = kept_groups(iter_groups(*old(self)), old(self).duplicates_only);
                match r {
                    Ok(g) => {
                        &&& g.index == old(self).emitted
                        &&& g.index < kept.len()
                        &&& gv == kept[g.index as int]
                        &&& crate::ident::id_key(g.id) == gv.key
                        &&& g.records@.len() == payloads@.len()
                        &&& forall|i: int|
                            0 <= i < payloads@.len() ==> {
                                let p = spec_parse_fastq((#[trigger] payloads@[i])@);
                                &&& p is Some
                                &&& g.records@[i].id@ == p->Some_0.0
                                &&& g.records@[i].seq@ == p->Some_0.1
                                &&& g.records@[i].qual@ == p->Some_0.2
                            }
                        &&& g.ignore == (span_of(gv.positions) > old(self).max_group_bytes)
                        &&& g.avg_qual_centi == centi_avg(
                            total_phred(g.records@),
                            total_bases(g.records@),
                        )
                        &&& g.consensus is None
                        &&& final(self).emitted == old(self).emitted + 1
                        &&& final(self).failed == old(self).failed
                    },
                    Err(GroupError::RecordDecode { member, pos }) => {
                        &&& member < payloads@.len()
                        &&& spec_parse_fastq(payloads@[member as int]@) is None
                        &&& forall|j: int|
                            0 <= j < member ==> spec_parse_fastq(
                                (#[trigger] payloads@[j])@,
                            ) is Some
                        &&& pos == gv.positions[member as int].pos
                        &&& final(self).failed
                        &&& final(self).emitted == old(self).emitted
                    },
                }
            }),
    {
        let ghost gv = iter_groups(*old(self))[old(self).cursor as int];
        let n = payloads.len();
        let mut records: Vec<Record> = Vec::new();
        let mut i: usize = 0;
        while i < n
            invariant
                *old(self) == *self,
                old(self).wf(),
                !old(self).spec_done(),
                self.cursor < self.groups@.len(),
                gv == iter_groups(*self)[self.cursor as int],
                n == payloads@.len(),
                n == gv.positions.len(),
                i <= n,
                records@.len() == i,
                forall|j: int|
                    0 <= j < i ==> {
                        let p = spec_parse_fastq((#[trigger] payloads@[j])@);
                        &&& p is Some
                        &&& records@[j].id@ == p->Some_0.0
                        &&& records@[j].seq@ == p->Some_0.1
                        &&& records@[j].qual@ == p->Some_0.2
                    },
                forall|j: int|
                    0 <= j < n ==> (#[trigger] payloads@[j])@.len() == gv.positions[j].length,
            decreases n - i,
        {
            proof {
                assert(payloads@[i as int]@.len() == gv.positions[i as int].length);
            }
            match parse_fastq_record(&payloads[i]) {
                None => {
                    self.failed = true;
                    let p = self.groups[self.cursor].positions[i].pos;
                    proof {
                        assert(iter_groups(*self) =~= iter_groups(*old(self)));
                    }
                    return Err(GroupError::RecordDecode { member: i, pos: p });
                },
                Some(rec) => {
                    records.push(rec);
                },
            }
            i = i + 1;
        }
        proof {
            assert forall|k: int|
                0 <= k < n implies (#[trigger] records@[k]).qual@.len() <= gv.positions[k].length by {
                lemma_fastq_lens(payloads@[k]@);
                assert(payloads@[k]@.len() == gv.positions[k].length);
            }
        }
        // Quality statistics over all bases of all members.
        let mut tp: u128 = 0;
        let mut tb: u128 = 0;
        let mut j: usize = 0;
        while j < records.len()
            invariant
                records@.len() == n,
                n == gv.positions.len(),
                j <= n,
                forall|k: int|
                    0 <= k < n ==> (#[trigger] records@[k]).qual@.len() <= gv.positions[k].length,
                span_of(gv.positions) <= u64::MAX,
                tb == total_bases(records@.subrange(0, j as int)),
                tp == total_phred(records@.subrange(0, j as int)),
                tb <= span_of(gv.positions.take(j as int)),
                tp <= 255 * tb,
            decreases n - j,
        {
            let ghost pre = records@.subrange(0, j as int);
            proof {
                assert(records@.subrange(0, j as int + 1).drop_last() =~= pre);
                assert(records@.subrange(0, j as int + 1).last() == records@[j as int]);
                assert(gv.positions.take(j as int + 1).drop_last() =~= gv.positions.take(
                    j as int,
                ));
                assert(gv.positions.take(j as int + 1).last() == gv.positions[j as int]);
                lemma_span_take_le(gv.positions, j as int + 1);
                crate::records::lemma_phred_total_bound(records@[j as int].qual@);
            }
            let q = records[j].phred_quality_total();
            let b = records[j].qual.len();
            proof {
                assert(tp + q <= 255 * (tb + b)) by (nonlinear_arith)
                    requires
                        tp <= 255 * tb,
                        q <= 255 * b,
                ;
            }
            tp = tp + q;
            tb = tb + b as u128;
            j = j + 1;
        }
        proof {
            assert(records@.subrange(0, n as int) =~= records@);
            assert(gv.positions.take(n as int) =~= gv.positions);
        }
        // The group's byte span, against the configured ceiling.
        let ghost ps = gv.positions;
        let grp_positions_len = self.groups[self.cursor].positions.len();
        let mut span: u128 = 0;
        let mut k: usize = 0;
        while k < grp_positions_len
            invariant
                *old(self) == *self,
                !old(self).spec_done(),
                self.cursor < self.groups@.len(),
                grp_positions_len == ps.len(),
                ps == iter_groups(*self)[self.cursor as int].positions,
                k <= ps.len(),
                span == span_of(ps.take(k as int)),
                span <= span_of(ps),
                span_of(ps) <= u64::MAX,
            decreases grp_positions_len - k,
        {
            proof {
                assert(ps.take(k as int + 1).drop_last() =~= ps.take(k as int));
                assert(ps.take(k as int + 1).last() == ps[k as int]);
                lemma_span_take_le(ps, k as int + 1);
            }
            let l = self.groups[self.cursor].positions[k].length;
            proof {
                assert(ps[k as int].length == l);
            }
            span = span + l as u128;
            k = k + 1;
        }
        proof {
            assert(ps.take(grp_positions_len as int) =~= ps);
        }
        let ignore = span > self.max_group_bytes as u128;
        // Assemble and advance.
        let avg: u64 = if tb == 0 {
            0
        } else {
            proof {
                assert(tp <= 255 * (u64::MAX as u128)) by (nonlinear_arith)
                    requires
                        tp <= 255 * tb,
                        tb <= u64::MAX,
                ;
            }
            let q = (200 * tp + tb) / (2 * tb);
            proof {
                assert(200 * tp + tb <= 200 * (255 * tb) + tb) by (nonlinear_arith)
                    requires
                        tp <= 255 * tb,
                ;
                vstd::arithmetic::div_mod::lemma_div_is_ordered(
                    (200 * tp + tb) as int,
                    (200 * (255 * tb) + tb) as int,
                    (2 * tb) as int,
                );
                assert((200 * (255 * tb) + tb) / (2 * tb) <= 25501) by (nonlinear_arith)
                    requires
                        tb > 0,
                ;
            }
            q as u64
        };
        let group = UMIGroup {
            id: self.groups[self.cursor].id.duplicate(),
            index: self.emitted,
            records,
            avg_qual_centi: avg,
            ignore,
            consensus: None,
        };
        let ghost gs = iter_groups(*self);
        let ghost c = self.cursor as int;
        let ghost dup = self.duplicates_only;
        proof {
            lemma_kept_step(gs, c, dup);
            Seq::lemma_filter_len(gs.take(c + 1), |g: GroupView| yieldable(g, dup));
            Seq::lemma_filter_len(gs.take(c), |g: GroupView| yieldable(g, dup));
            lemma_kept_prefix(gs, c + 1, dup);
            assert(self.emitted <= c);
            assert(kept_groups(gs, dup)[self.emitted as int] == gv);
        }
        let glen = self.groups.len();
        proof {
            assert(self.cursor < glen);
        }
        self.emitted = self.emitted + 1;
        self.cursor = self.cursor + 1;
        self.skip_unyieldable();
        proof {
            assert(iter_groups(*self) =~= iter_groups(*old(self)));
        }
        Ok(group)
    }
}

/// Gap-free ordinal law: at any reachable iterator state, the ordinal
/// counter equals the number of yieldable groups already passed, and the
/// group under the cursor — the next to be yielded — is exactly the
/// yieldable group of that rank in file-discovery order. So over a whole
/// run the yielded groups carry the ordinals `0, 1, …, N-1`, gap-free, in
/// file-discovery order, for either setting of `duplicates_only`.
pub proof fn lemma_gap_free_ordinals(it: GroupIterator)
    requires
        it.wf(),
        !it.spec_done(),
    ensures
        it.spec_emitted() == kept_groups(
            it.spec_groups().take(it.cursor as int),
            it.spec_duplicates_only(),
        ).len(),
        it.spec_emitted() < kept_groups(it.spec_groups(), it.spec_duplicates_only()).len(),
        it.spec_groups()[it.cursor as int] == kept_groups(
            it.spec_groups(),
            it.spec_duplicates_only(),
        )[it.spec_emitted() as int],
{
    let gs = it.spec_groups();
    let dup = it.spec_duplicates_only();
    let c = it.cursor as int;
    lemma_kept_step(gs, c, dup);
    Seq::lemma_filter_len(gs.take(c + 1), |g: GroupView| yieldable(g, dup));
    lemma_kept_prefix(gs, c + 1, dup);
    assert(kept_groups(gs, dup)[it.spec_emitted() as int] == gs[c]);
}

/// Filtering the empty sequence yields the empty sequence.
proof fn lemma_filter_empty(duplicates_only: bool)
    ensures
        kept_groups(Seq::<GroupView>::empty(), duplicates_only) == Seq::<GroupView>::empty(),
{
    reveal(Seq::filter);
}

/// Filtering one more group appends it exactly when it is yieldable.
proof fn lemma_kept_step(gs: Seq<GroupView>, c: int, duplicates_only: bool)
    requires
        0 <= c < gs.len(),
    ensures
        kept_groups(gs.take(c + 1), duplicates_only) == if yieldable(gs[c], duplicates_only) {
            kept_groups(gs.take(c), duplicates_only).push(gs[c])
        } else {
            kept_groups(gs.take(c), duplicates_only)
        },
{
    reveal(Seq::filter);
    assert(gs.take(c + 1).drop_last() =~= gs.take(c));
    assert(gs.take(c + 1).last() == gs[c]);
}

/// A filtered prefix is a prefix of the filtered whole.
proof fn lemma_kept_prefix(gs: Seq<GroupView>, c: int, duplicates_only: bool)
    requires
        0 <= c <= gs.len(),
    ensures
        kept_groups(gs, duplicates_only) == kept_groups(gs.take(c), duplicates_only)
            + kept_groups(gs.skip(c), duplicates_only),
{
    broadcast use vstd::seq_lib::group_filter_ensures;

    assert(gs =~= gs.take(c) + gs.skip(c));
    Seq::filter_distributes_over_add(
        gs.take(c),
        gs.skip(c),
        |g: GroupView| yieldable(g, duplicates_only),
    );
}

} // verus!
