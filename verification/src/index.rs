//! The positional index file: a metadata line, a column-header line, and
//! tab-separated rows describing one read each.

use vstd::prelude::*;
use vstd::utf8::{decode_utf8, valid_utf8};
use std::collections::BTreeMap;
use crate::numbers::{dec_val, parse_dec};
use crate::metadata::{all_digits, spec_parse_centi};
use crate::ident::{RecordIdentifier, id_key, split_head, split_tail};
use crate::duplicates::{DuplicateMap, GroupView, RecordPosition, map_view, map_wf, spec_insert};

verus! {

broadcast use vstd::std_specs::btree::axiom_key_obeys_cmp_spec_meaning;

/// Errors of index parsing, each tied to the input that raises it.
#[derive(PartialEq, Eq, Structural, Clone, Copy, Debug)]
pub enum IndexError {
    /// The file is empty: the metadata line is missing.
    MissingHeader,
    /// The first line does not begin with `#`.
    BadHeader,
    /// The row on this 1-based line is malformed.
    BadRow { line: usize },
    /// The non-ignored row on this line repeats an earlier row's position.
    DuplicatePosition { line: usize },
}

/// One parsed index row: the read's identifier text, its byte offset in the
/// source file, its average quality in hundredths, its base count, its exact
/// byte span, and whether upstream filters excluded it.
pub struct IndexRecord {
    pub id: String,
    pub pos: usize,
    pub avg_qual_centi: u64,
    pub n_bases: usize,
    pub rec_len: usize,
    pub ignored: bool,
}

/// The ghost image of one row, over the raw field bytes.
pub ghost struct SpecRow {
    pub id: Seq<u8>,
    pub pos: usize,
    pub avg_qual_centi: u64,
    pub n_bases: usize,
    pub rec_len: usize,
    pub ignored: bool,
    pub line: nat,
}

/// Position of the first `b` in `s[from..to)`, or `to` when there is none
/// (or the range is empty).
pub open spec fn scan_to(s: Seq<u8>, b: u8, from: int, to: int) -> int
    decreases to - from,
{
    if from < 0 || from >= to {
        to
    } else if s[from] == b {
        from
    } else {
        scan_to(s, b, from + 1, to)
    }
}

/// The six fields of a row within `s[from..to)`, or `None` when the row
/// does not consist of exactly six tab-separated fields.
pub open spec fn spec_row_fields(s: Seq<u8>, from: int, to: int) -> Option<
    (Seq<u8>, Seq<u8>, Seq<u8>, Seq<u8>, Seq<u8>, Seq<u8>),
> {
    let t1 = scan_to(s, 9, from, to);
    let t2 = scan_to(s, 9, t1 + 1, to);
    let t3 = scan_to(s, 9, t2 + 1, to);
    let t4 = scan_to(s, 9, t3 + 1, to);
    let t5 = scan_to(s, 9, t4 + 1, to);
    if t1 < to && t2 < to && t3 < to && t4 < to && t5 < to && scan_to(s, 9, t5 + 1, to) == to {
        Some(
            (
                s.subrange(from, t1),
                s.subrange(t1 + 1, t2),
                s.subrange(t2 + 1, t3),
                s.subrange(t3 + 1, t4),
                s.subrange(t4 + 1, t5),
                s.subrange(t5 + 1, to),
            ),
        )
    } else {
        None
    }
}

/// `"true"` as bytes.
pub open spec fn true_bytes() -> Seq<u8> {
    seq![116u8, 114u8, 117u8, 101u8]
}

/// `"false"` as bytes.
pub open spec fn false_bytes() -> Seq<u8> {
    seq![102u8, 97u8, 108u8, 115u8, 101u8]
}

/// A digit field denoting a value that fits in `usize`.
pub open spec fn spec_usize_field(f: Seq<u8>) -> Option<usize> {
    if all_digits(f) && dec_val(f) <= usize::MAX {
        Some(dec_val(f) as usize)
    } else {
        None
    }
}

/// What the row in `s[from..to)` denotes, on line `line`: six tab-separated
/// fields — an identifier in valid UTF-8, a position, a two-decimal average
/// quality, a base count, a byte span, and `true` or `false` — or `None`
/// when malformed.
pub open spec fn spec_parse_row(s: Seq<u8>, from: int, to: int, line: nat) -> Option<SpecRow> {
    match spec_row_fields(s, from, to) {
        None => None,
        Some((f0, f1, f2, f3, f4, f5)) => {
            if valid_utf8(f0) && spec_usize_field(f1) is Some && spec_parse_centi(f2) is Some
                && spec_usize_field(f3) is Some && spec_usize_field(f4) is Some && (f5
                == true_bytes() || f5 == false_bytes()) {
                Some(
                    SpecRow {
                        id: f0,
                        pos: spec_usize_field(f1)->Some_0,
                        avg_qual_centi: spec_parse_centi(f2)->Some_0 as u64,
                        n_bases: spec_usize_field(f3)->Some_0,
                        rec_len: spec_usize_field(f4)->Some_0,
                        ignored: f5 == true_bytes(),
                        line,
                    },
                )
            } else {
                None
            }
        },
    }
}

/// Position of the first `b` in `content[from..to)`, or `to`.
pub fn find_byte(content: &Vec<u8>, b: u8, from: usize, to: usize) -> (r: usize)
    requires
        to <= content@.len(),
    ensures
        r == scan_to(content@, b, from as int, to as int),
        r <= to,
        from < to ==> from <= r,
{
    if from >= to {
        return to;
    }
    let mut i: usize = from;
    while i < to
        invariant
            from <= i <= to <= content@.len(),
            scan_to(content@, b, from as int, to as int) == scan_to(
                content@,
                b,
                i as int,
                to as int,
            ),
        decreases to - i,
    {
        if content[i] == b {
            return i;
        }
        i = i + 1;
    }
    i
}

/// Compares `content[from..to)` with the four bytes of `"true"` or the five
/// bytes of `"false"`.
fn parse_bool_field(content: &Vec<u8>, from: usize, to: usize) -> (r: Option<bool>)
    requires
        from <= to <= content@.len(),
    ensures
        ({
            let f = content@.subrange(from as int, to as int);
            match r {
                Some(v) => v == (f == true_bytes()) && (f == true_bytes() || f == false_bytes()),
                None => f != true_bytes() && f != false_bytes(),
            }
        }),
{
    let ghost f = content@.subrange(from as int, to as int);
    let len = to - from;
    if len == 4 && content[from] == 116 && content[from + 1] == 114 && content[from + 2] == 117
        && content[from + 3] == 101 {
        proof {
            assert(f =~= true_bytes());
        }
        Some(true)
    } else if len == 5 && content[from] == 102 && content[from + 1] == 97 && content[from + 2]
        == 108 && content[from + 3] == 115 && content[from + 4] == 101 {
        proof {
            assert(f =~= false_bytes());
        }
        Some(false)
    } else {
        proof {
            if f == true_bytes() {
                assert(f.len() == 4 && f[0] == 116 && f[1] == 114 && f[2] == 117 && f[3] == 101);
            }
            if f == false_bytes() {
                assert(f.len() == 5 && f[0] == 102 && f[1] == 97 && f[2] == 108 && f[3] == 115
                    && f[4] == 101);
            }
        }
        None
    }
}

/// Parses a digit field as a `usize`.
fn parse_usize_field(content: &Vec<u8>, from: usize, to: usize) -> (r: Option<usize>)
    requires
        from <= to <= content@.len(),
    ensures
        ({
            let f = content@.subrange(from as int, to as int);
            match r {
                Some(v) => spec_usize_field(f) == Some(v),
                None => spec_usize_field(f) is None,
            }
        }),
{
    proof {
        crate::metadata::lemma_all_digits_subrange(content@, from as int, to as int);
    }
    match parse_dec(content.as_slice(), from, to) {
        None => None,
        Some(v) => {
            if v <= usize::MAX as u64 {
                Some(v as usize)
            } else {
                None
            }
        },
    }
}

/// Relies on `core::str::from_utf8` and `str::to_owned`: decodes the bytes
/// as text exactly when they are valid UTF-8.
#[verifier::external_body]
pub(crate) fn bytes_to_string(content: &Vec<u8>, from: usize, to: usize) -> (r: Option<String>)
    requires
        from <= to <= content@.len(),
    ensures
        ({
            let f = content@.subrange(from as int, to as int);
            match r {
                Some(s) => valid_utf8(f) && s@ == decode_utf8(f),
                None => !valid_utf8(f),
            }
        }),
{
    match core::str::from_utf8(&content[from..to]) {
        Ok(s) => Some(s.to_owned()),
        Err(_) => None,
    }
}

/// Parses the row in `content[from..to)`; agrees with `spec_parse_row`.
pub fn parse_index_row(content: &Vec<u8>, from: usize, to: usize) -> (r: Option<IndexRecord>)
    requires
        from <= to <= content@.len(),
        to < usize::MAX,
    ensures
        forall|line: nat|
            ({
                let p = #[trigger] spec_parse_row(content@, from as int, to as int, line);
            match r {
                Some(rec) => {
                    &&& p is Some
                    &&& rec.id@ == decode_utf8(p->Some_0.id)
                    &&& rec.pos == p->Some_0.pos
                    &&& rec.avg_qual_centi == p->Some_0.avg_qual_centi
                    &&& rec.n_bases == p->Some_0.n_bases
                    &&& rec.rec_len == p->Some_0.rec_len
                    &&& rec.ignored == p->Some_0.ignored
                },
                None => p is None,
            }
        }),
{
    let ghost line: nat = 0;
    let t1 = find_byte(content, 9, from, to);
    let t2 = find_byte(content, 9, t1 + 1, to);
    let t3 = find_byte(content, 9, t2 + 1, to);
    let t4 = find_byte(content, 9, t3 + 1, to);
    let t5 = find_byte(content, 9, t4 + 1, to);
    if !(t1 < to && t2 < to && t3 < to && t4 < to && t5 < to) {
        return None;
    }
    let t6 = find_byte(content, 9, t5 + 1, to);
    if t6 != to {
        return None;
    }
    let id = match bytes_to_string(content, from, t1) {
        None => {
            return None;
        },
        Some(s) => s,
    };
    let pos = match parse_usize_field(content, t1 + 1, t2) {
        None => {
            return None;
        },
        Some(v) => v,
    };
    let centi = match crate::metadata::parse_centi_at(content, t2 + 1, t3) {
        None => {
            return None;
        },
        Some(v) => v,
    };
    let n_bases = match parse_usize_field(content, t3 + 1, t4) {
        None => {
            return None;
        },
        Some(v) => v,
    };
    let rec_len = match parse_usize_field(content, t4 + 1, t5) {
        None => {
            return None;
        },
        Some(v) => v,
    };
    let ignored = match parse_bool_field(content, t5 + 1, to) {
        None => {
            return None;
        },
        Some(v) => v,
    };
    Some(IndexRecord { id, pos, avg_qual_centi: centi, n_bases, rec_len, ignored })
}


// ---------------------------------------------------------------------------
// Walking the rows and building the duplicate index.
// ---------------------------------------------------------------------------
/// The key a row's identifier groups under.
pub open spec fn row_key(row: SpecRow) -> (Seq<char>, Seq<char>) {
    (split_head(decode_utf8(row.id)), split_tail(decode_utf8(row.id)))
}

/// The record position a row describes.
pub open spec fn row_rp(row: SpecRow) -> RecordPosition {
    RecordPosition { pos: row.pos, length: row.rec_len }
}

/// The number of non-ignored rows.
pub open spec fn count_kept(rows: Seq<SpecRow>) -> nat
    decreases rows.len(),
{
    if rows.len() == 0 {
        0
    } else {
        count_kept(rows.drop_last()) + (if rows.last().ignored {
            0nat
        } else {
            1nat
        })
    }
}

/// The groups that the non-ignored rows build, in discovery order.
pub open spec fn spec_build(rows: Seq<SpecRow>) -> Seq<GroupView>
    decreases rows.len(),
{
    if rows.len() == 0 {
        Seq::empty()
    } else {
        let b = spec_build(rows.drop_last());
        if rows.last().ignored {
            b
        } else {
            spec_insert(b, row_key(rows.last()), row_rp(rows.last()))
        }
    }
}

/// The byte positions of the non-ignored rows.
pub open spec fn row_positions(rows: Seq<SpecRow>) -> Set<usize> {
    Set::new(
        |p: usize| exists|i: int| 0 <= i < rows.len() && !(#[trigger] rows[i]).ignored && rows[i].pos == p,
    )
}

/// Where the rows begin: one past the end of the second line.
pub open spec fn body_start(s: Seq<u8>) -> int {
    let e1 = scan_to(s, 10, 0, s.len() as int);
    let e2 = scan_to(s, 10, e1 + 1, s.len() as int);
    e2 + 1
}

/// Walks the rows from `from` at line `ln`, with `seen` the positions of the
/// non-ignored rows already taken: the parsed rows, or the first error.
/// Empty lines are skipped.
pub open spec fn spec_scan(s: Seq<u8>, from: int, ln: nat, seen: Set<usize>) -> Result<
    Seq<SpecRow>,
    IndexError,
>
    decreases s.len() - from,
{
    if from >= s.len() || from < 0 {
        Ok(Seq::empty())
    } else {
        let e = scan_to(s, 10, from, s.len() as int);
        if e == from {
            spec_scan(s, from + 1, ln + 1, seen)
        } else if from < e {
            match spec_parse_row(s, from, e, ln) {
                None => Err(IndexError::BadRow { line: ln as usize }),
                Some(row) => {
                    if !row.ignored && seen.contains(row.pos) {
                        Err(IndexError::DuplicatePosition { line: ln as usize })
                    } else {
                        let seen2 = if row.ignored {
                            seen
                        } else {
                            seen.insert(row.pos)
                        };
                        let nxt = if e < s.len() {
                            e + 1
                        } else {
                            s.len() as int
                        };
                        match spec_scan(s, nxt, ln + 1, seen2) {
                            Err(e2) => Err(e2),
                            Ok(rs) => Ok(seq![row] + rs),
                        }
                    }
                },
            }
        } else {
            Ok(Seq::empty())
        }
    }
}

/// The sum of all group sizes.
pub open spec fn sum_sizes(gs: Seq<GroupView>) -> nat
    decreases gs.len(),
{
    if gs.len() == 0 {
        0
    } else {
        sum_sizes(gs.drop_last()) + gs.last().positions.len()
    }
}

/// The number of reads lying in groups of size above one.
pub open spec fn dup_reads(gs: Seq<GroupView>) -> nat
    decreases gs.len(),
{
    if gs.len() == 0 {
        0
    } else {
        dup_reads(gs.drop_last()) + (if gs.last().positions.len() > 1 {
            gs.last().positions.len()
        } else {
            0nat
        })
    }
}

/// The number of groups of size above one.
pub open spec fn dup_ids(gs: Seq<GroupView>) -> nat
    decreases gs.len(),
{
    if gs.len() == 0 {
        0
    } else {
        dup_ids(gs.drop_last()) + (if gs.last().positions.len() > 1 {
            1nat
        } else {
            0nat
        })
    }
}

/// The number of groups of exactly this size.
pub open spec fn size_count(gs: Seq<GroupView>, sz: nat) -> nat
    decreases gs.len(),
{
    if gs.len() == 0 {
        0
    } else {
        size_count(gs.drop_last(), sz) + (if gs.last().positions.len() == sz {
            1nat
        } else {
            0nat
        })
    }
}

/// The histogram of duplicate-group sizes: each size above one that occurs,
/// with its count.
pub open spec fn spec_dist_partial(gs: Seq<GroupView>) -> Map<usize, usize> {
    Map::new(
        |sz: usize| sz >= 2 && size_count(gs, sz as nat) > 0,
        |sz: usize| size_count(gs, sz as nat) as usize,
    )
}

/// The full distribution: the duplicate-size histogram plus the singleton
/// count under key 1.
pub open spec fn spec_distribution(gs: Seq<GroupView>, singles: usize) -> Map<usize, usize> {
    spec_dist_partial(gs).insert(1, singles)
}

/// Summary statistics of the duplicate index.
pub struct DuplicateStatistics {
    pub total_reads: usize,
    pub duplicate_reads: usize,
    pub duplicate_ids: usize,
    pub distribution: BTreeMap<usize, usize>,
}

impl DuplicateStatistics {
    /// The share of duplicate reads among all reads, in thousandths,
    /// rounded down; 0 when there are no reads.
    pub fn proportion_duplicate_permille(&self) -> (r: u64)
        requires
            self.duplicate_reads <= self.total_reads,
        ensures
            self.total_reads == 0 ==> r == 0,
            self.total_reads > 0 ==> r == (1000 * self.duplicate_reads as nat) / (
            self.total_reads as nat),
    {
        if self.total_reads == 0 {
            0
        } else {
            let d = self.duplicate_reads as u128;
            let t = self.total_reads as u128;
            let r = (1000 * d) / t;
            proof {
                assert(t > 0 && d <= t ==> (1000 * (d as int)) / (t as int) <= 1000)
                    by (nonlinear_arith);
            }
            r as u64
        }
    }
}

/// Building over one more row adds its position once to its group.
proof fn lemma_build_step_sum(rows: Seq<SpecRow>)
    ensures
        sum_sizes(spec_build(rows)) == count_kept(rows),
    decreases rows.len(),
{
    if rows.len() > 0 {
        lemma_build_step_sum(rows.drop_last());
        let b = spec_build(rows.drop_last());
        if !rows.last().ignored {
            lemma_insert_sum(b, row_key(rows.last()), row_rp(rows.last()));
        }
    }
}

/// One insertion grows the size sum by exactly one.
proof fn lemma_insert_sum(gs: Seq<GroupView>, key: (Seq<char>, Seq<char>), rp: RecordPosition)
    ensures
        sum_sizes(spec_insert(gs, key, rp)) == sum_sizes(gs) + 1,
{
    let g = crate::duplicates::find_group(gs, key);
    crate::duplicates::lemma_find_group_props(gs, key);
    if g < 0 {
        let gs2 = gs.push(GroupView { key, positions: seq![rp] });
        assert(gs2.drop_last() =~= gs);
        assert(gs2.last().positions.len() == 1);
    } else {
        let gv = GroupView { key, positions: gs[g].positions.push(rp) };
        let gs2 = gs.update(g, gv);
        lemma_sum_update(gs, g, gv);
    }
}

/// Updating one group changes the sum by the size difference.
proof fn lemma_sum_update(gs: Seq<GroupView>, g: int, gv: GroupView)
    requires
        0 <= g < gs.len(),
    ensures
        sum_sizes(gs.update(g, gv)) == sum_sizes(gs) - gs[g].positions.len()
            + gv.positions.len(),
    decreases gs.len(),
{
    let gs2 = gs.update(g, gv);
    if g == gs.len() - 1 {
        assert(gs2.drop_last() =~= gs.drop_last());
        assert(gs2.last() == gv);
    } else {
        assert(gs2.drop_last() =~= gs.drop_last().update(g, gv));
        assert(gs2.last() == gs.last());
        lemma_sum_update(gs.drop_last(), g, gv);
    }
}

/// Partial duplicate statistics never exceed the size sum.
proof fn lemma_stats_bounds(gs: Seq<GroupView>)
    ensures
        dup_reads(gs) <= sum_sizes(gs),
        dup_ids(gs) <= gs.len(),
        forall|sz: nat| #[trigger] size_count(gs, sz) <= gs.len(),
    decreases gs.len(),
{
    if gs.len() > 0 {
        lemma_stats_bounds(gs.drop_last());
        assert forall|sz: nat| #[trigger] size_count(gs, sz) <= gs.len() by {
            assert(size_count(gs.drop_last(), sz) <= gs.drop_last().len());
        }
    } else {
        assert forall|sz: nat| #[trigger] size_count(gs, sz) <= gs.len() by {
            assert(size_count(gs, sz) == 0);
        }
    }
}

/// A prefix's size sum never exceeds the whole's.
proof fn lemma_sum_take_le(gs: Seq<GroupView>, i: int)
    requires
        0 <= i <= gs.len(),
    ensures
        sum_sizes(gs.take(i)) <= sum_sizes(gs),
    decreases gs.len() - i,
{
    if i < gs.len() {
        assert(gs.take(i + 1).drop_last() =~= gs.take(i));
        assert(gs.take(i + 1).last() == gs[i]);
        lemma_sum_take_le(gs, i + 1);
    } else {
        assert(gs.take(i) =~= gs);
    }
}

/// Stepping the three statistics by one group.
proof fn lemma_stats_step(gs: Seq<GroupView>, i: int)
    requires
        0 <= i < gs.len(),
    ensures
        dup_reads(gs.take(i + 1)) == dup_reads(gs.take(i)) + (if gs[i].positions.len() > 1 {
            gs[i].positions.len()
        } else {
            0
        }),
        dup_ids(gs.take(i + 1)) == dup_ids(gs.take(i)) + (if gs[i].positions.len() > 1 {
            1nat
        } else {
            0nat
        }),
        forall|sz: nat|
            #[trigger] size_count(gs.take(i + 1), sz) == size_count(gs.take(i), sz) + (if gs[i].positions.len() == sz {
                1nat
            } else {
                0nat
            }),
{
    assert(gs.take(i + 1).drop_last() =~= gs.take(i));
    assert(gs.take(i + 1).last() == gs[i]);
}

/// The positional index as loaded into memory.
pub struct IndexReader {
    pub content: Vec<u8>,
}

impl IndexReader {
    /// Wraps the raw bytes of an index file.
    pub fn new(content: Vec<u8>) -> (r: IndexReader)
        ensures
            r.content@ == content@,
    {
        IndexReader { content }
    }

    /// Reads the index rows and groups the non-ignored reads by identifier.
    /// Returns the duplicate index together with its summary statistics, or
    /// the first error: a missing or bad metadata line, the first malformed
    /// row, or the first repeated position.
    #[verifier::rlimit(100)]
    pub fn get_duplicates(&self) -> (r: Result<(DuplicateMap, DuplicateStatistics), IndexError>)
        requires
            self.content@.len() < usize::MAX - 4,
        ensures
            ({
                let s = self.content@;
                match r {
                    Ok((m, st)) => {
                        &&& s.len() > 0 && s[0] == 35
                        &&& spec_scan(s, body_start(s), 3, Set::empty()) is Ok
                        &&& {
                            let rows = spec_scan(s, body_start(s), 3, Set::empty())->Ok_0;
                            &&& map_wf(m)
                            &&& map_view(m) == spec_build(rows)
                            &&& m.pos_to_id@.dom() == row_positions(rows)
                            &&& st.total_reads == count_kept(rows)
                            &&& st.duplicate_reads == dup_reads(map_view(m))
                            &&& st.duplicate_ids == dup_ids(map_view(m))
                            &&& st.duplicate_reads <= st.total_reads
                            &&& st.distribution@ == spec_distribution(
                                map_view(m),
                                (st.total_reads - st.duplicate_reads) as usize,
                            )
                        }
                    },
                    Err(IndexError::MissingHeader) => s.len() == 0,
                    Err(IndexError::BadHeader) => s.len() > 0 && s[0] != 35,
                    Err(e) => spec_scan(s, body_start(s), 3, Set::empty()) == Err::<
                        Seq<SpecRow>,
                        IndexError,
                    >(e),
                }
            }),
    {
        let s = &self.content;
        let n = s.len();
        if n == 0 {
            return Err(IndexError::MissingHeader);
        }
        if s[0] != 35 {
            return Err(IndexError::BadHeader);
        }
        let e1 = find_byte(s, 10, 0, n);
        let e2 = find_byte(s, 10, e1 + 1, n);
        let mut cur: usize = e2 + 1;
        let ghost start: int = body_start(s@);
        proof {
            assert(start == cur as int);
        }
        let mut ln: usize = 3;
        let mut m = DuplicateMap::new();
        let mut total: usize = 0;
        let ghost mut rows: Seq<SpecRow> = Seq::empty();
        proof {
            assert(spec_build(rows) =~= map_view(m));
            assert(m.pos_to_id@.dom() =~= Set::<usize>::empty());
            assert(m.pos_to_id@.dom() =~= row_positions(rows));
        }
        loop
            invariant_except_break
                s == &self.content,
                start == body_start(s@),
                n == s@.len(),
                n < usize::MAX - 4,
                cur <= n + 1,
                ln <= cur + 3,
                total <= cur,
                map_wf(m),
                map_view(m) == spec_build(rows),
                m.pos_to_id@.dom() == row_positions(rows),
                total == count_kept(rows),
                total == sum_sizes(map_view(m)),
                ({
                    match spec_scan(s@, cur as int, ln as nat, m.pos_to_id@.dom()) {
                        Ok(rest) => spec_scan(s@, start, 3, Set::empty()) == Ok::<
                            Seq<SpecRow>,
                            IndexError,
                        >(rows + rest),
                        Err(er) => spec_scan(s@, start, 3, Set::empty()) == Err::<
                            Seq<SpecRow>,
                            IndexError,
                        >(er),
                    }
                }),
            ensures
                map_wf(m),
                map_view(m) == spec_build(rows),
                m.pos_to_id@.dom() == row_positions(rows),
                total == count_kept(rows),
                total == sum_sizes(map_view(m)),
                spec_scan(s@, start, 3, Set::empty()) == Ok::<Seq<SpecRow>, IndexError>(rows),
            decreases n + 1 - cur,
        {
            if cur >= n {
                proof {
                    assert(spec_scan(s@, cur as int, ln as nat, m.pos_to_id@.dom()) == Ok::<
                        Seq<SpecRow>,
                        IndexError,
                    >(Seq::empty()));
                    assert(rows + Seq::<SpecRow>::empty() =~= rows);
                }
                break;
            }
            let e = find_byte(s, 10, cur, n);
            if e == cur {
                cur = cur + 1;
                ln = ln + 1;
                continue;
            }
            match parse_index_row(s, cur, e) {
                None => {
                    proof {
                        assert(spec_parse_row(s@, cur as int, e as int, ln as nat) is None);
                        assert(spec_scan(s@, cur as int, ln as nat, m.pos_to_id@.dom())
                            == Err::<Seq<SpecRow>, IndexError>(
                            IndexError::BadRow { line: ln },
                        ));
                        assert(spec_scan(s@, start, 3, Set::empty()) == Err::<
                            Seq<SpecRow>,
                            IndexError,
                        >(IndexError::BadRow { line: ln }));
                    }
                    return Err(IndexError::BadRow { line: ln });
                },
                Some(rec) => {
                    let ghost row = spec_parse_row(s@, cur as int, e as int, ln as nat)->Some_0;
                    if !rec.ignored {
                        if m.contains_pos(rec.pos) {
                            proof {
                                assert(spec_scan(s@, cur as int, ln as nat, m.pos_to_id@.dom())
                                    == Err::<Seq<SpecRow>, IndexError>(
                                    IndexError::DuplicatePosition { line: ln },
                                ));
                                assert(spec_scan(s@, start, 3, Set::empty()) == Err::<
                                    Seq<SpecRow>,
                                    IndexError,
                                >(IndexError::DuplicatePosition { line: ln }));
                            }
                            return Err(IndexError::DuplicatePosition { line: ln });
                        }
                        let id = RecordIdentifier::from_string(rec.id.as_str());
                        proof {
                            assert(id_key(id) == row_key(row));
                        }
                        m.insert(id, RecordPosition { pos: rec.pos, length: rec.rec_len });
                        total = total + 1;
                    }
                    proof {
                        let rows2 = rows.push(row);
                        assert(rows2.drop_last() =~= rows);
                        assert(rows2.last() == row);
                        if !row.ignored {
                            lemma_insert_sum(
                                spec_build(rows),
                                row_key(row),
                                row_rp(row),
                            );
                            assert(row_positions(rows2) =~= row_positions(rows).insert(row.pos))
                                by {
                                assert forall|p: usize| row_positions(rows2).contains(p) implies
                                    row_positions(rows).insert(row.pos).contains(p) by {
                                    let i = choose|i: int|
                                        0 <= i < rows2.len() && !(#[trigger] rows2[i]).ignored
                                            && rows2[i].pos == p;
                                    if i < rows.len() {
                                        assert(rows[i] == rows2[i]);
                                    }
                                }
                                assert forall|p: usize|
                                    row_positions(rows).insert(row.pos).contains(p) implies
                                    row_positions(rows2).contains(p) by {
                                    if p == row.pos {
                                        assert(!rows2[rows.len() as int].ignored && rows2[
                                        rows.len() as int].pos == p);
                                    } else {
                                        let i = choose|i: int|
                                            0 <= i < rows.len() && !(#[trigger] rows[i]).ignored
                                                && rows[i].pos == p;
                                        assert(!rows2[i].ignored && rows2[i].pos == p);
                                    }
                                }
                            }
                        } else {
                            assert(row_positions(rows2) =~= row_positions(rows)) by {
                                assert forall|p: usize| row_positions(rows2).contains(p) implies
                                    row_positions(rows).contains(p) by {
                                    let i = choose|i: int|
                                        0 <= i < rows2.len() && !(#[trigger] rows2[i]).ignored
                                            && rows2[i].pos == p;
                                    assert(i < rows.len());
                                    assert(rows[i] == rows2[i]);
                                }
                                assert forall|p: usize| row_positions(rows).contains(p) implies
                                    row_positions(rows2).contains(p) by {
                                    let i = choose|i: int|
                                        0 <= i < rows.len() && !(#[trigger] rows[i]).ignored
                                            && rows[i].pos == p;
                                    assert(!rows2[i].ignored && rows2[i].pos == p);
                                }
                            }
                        }
                        rows = rows2;
                    }
                    cur = if e < n {
                        e + 1
                    } else {
                        n
                    };
                    ln = ln + 1;
                    proof {
                        match spec_scan(s@, cur as int, ln as nat, m.pos_to_id@.dom()) {
                            Ok(rest) => {
                                assert(rows.drop_last() + (seq![row] + rest) =~= rows + rest);
                            },
                            Err(er) => {},
                        }
                    }
                },
            }
        }
        // Second pass: summary statistics over the finished groups.
        let ghost gs = map_view(m);
        let mut dup_r: usize = 0;
        let mut dup_i: usize = 0;
        let mut dist: BTreeMap<usize, usize> = BTreeMap::new();
        proof {
            assert(gs.take(0) =~= Seq::<GroupView>::empty());
            assert(dist@ =~= spec_dist_partial(gs.take(0)));
        }
        let gn = m.by_id.len();
        let mut g: usize = 0;
        while g < gn
            invariant
                gn == m.by_id@.len(),
                g <= gn,
                gs == map_view(m),
                total == sum_sizes(gs),
                dup_r == dup_reads(gs.take(g as int)),
                dup_i == dup_ids(gs.take(g as int)),
                dup_i <= g,
                dist@ == spec_dist_partial(gs.take(g as int)),
            decreases gn - g,
        {
            let sz = m.by_id[g].positions.len();
            proof {
                assert(gs[g as int].positions.len() == sz);
                lemma_stats_step(gs, g as int);
                lemma_stats_bounds(gs.take(g as int + 1));
                lemma_sum_take_le(gs, g as int + 1);
                lemma_stats_bounds(gs.take(g as int));
            }
            if sz > 1 {
                dup_r = dup_r + sz;
                dup_i = dup_i + 1;
                let cur_count: usize = match dist.get(&sz) {
                    None => 0,
                    Some(c) => *c,
                };
                proof {
                    broadcast use vstd::std_specs::btree::group_btree_axioms;
                    assert(cur_count == size_count(gs.take(g as int), sz as nat));
                }
                dist.insert(sz, cur_count + 1);
                proof {
                    assert(dist@ =~= spec_dist_partial(gs.take(g as int + 1)));
                }
            } else {
                proof {
                    assert(dist@ =~= spec_dist_partial(gs.take(g as int + 1)));
                }
            }
            g = g + 1;
        }
        proof {
            assert(gs.take(gn as int) =~= gs);
            lemma_stats_bounds(gs);
        }
        let singles = total - dup_r;
        dist.insert(1, singles);
        let st = DuplicateStatistics {
            total_reads: total,
            duplicate_reads: dup_r,
            duplicate_ids: dup_i,
            distribution: dist,
        };
        proof {
            assert(st.distribution@ =~= spec_distribution(gs, singles));
        }
        Ok((m, st))
    }
}

} // verus!
