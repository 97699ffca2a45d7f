//! Re-parsing the metadata tags from an output identifier, and the
//! round-trip law tying the parser to the encoder.

use vstd::prelude::*;
use crate::numbers::{dec_rep, dec_val, is_digit, lemma_dec_rep_digits, lemma_dec_round_trip,
    parse_dec};
use crate::records::{ReadType, centi_bytes, con_head, ign_label, label_bytes, metadata_suffix,
    of_infix, orig_head, ql_marker, reports_quality, sin_label, ug_marker, ut_marker};

verus! {

/// The values recovered from an output identifier's metadata tags.
/// `group_idx` is meaningful for original records only; `group_size` is not
/// recorded for ignored records (it is reported as 0 there); a singleton
/// record always has group size 1.
#[derive(PartialEq, Eq, Structural, Clone, Copy, Debug)]
pub struct ParsedMetadata {
    pub read_type: ReadType,
    pub umi_group: u64,
    pub group_idx: u64,
    pub group_size: u64,
    pub has_quality: bool,
    pub avg_qual_centi: u64,
}

/// Position of the last space in `s`, or `-1` when there is none.
pub open spec fn last_space(s: Seq<u8>) -> int
    decreases s.len(),
{
    if s.len() == 0 {
        -1
    } else if s.last() == 32 {
        s.len() - 1
    } else {
        last_space(s.drop_last())
    }
}

/// No byte of `s` is a space.
pub open spec fn no_space(s: Seq<u8>) -> bool {
    forall|i: int| 0 <= i < s.len() ==> s[i] != 32
}

/// Position of the first non-digit byte of `s`, or `-1` when all are digits.
pub open spec fn first_non_digit(s: Seq<u8>) -> int
    decreases s.len(),
{
    if s.len() == 0 {
        -1
    } else if !is_digit(s[0]) {
        0
    } else {
        let r = first_non_digit(s.drop_first());
        if r < 0 {
            -1
        } else {
            r + 1
        }
    }
}

/// Every byte of `s` is a digit and there is at least one.
pub open spec fn all_digits(s: Seq<u8>) -> bool {
    s.len() > 0 && forall|i: int| 0 <= i < s.len() ==> is_digit(#[trigger] s[i])
}

/// `s` begins with `p`.
pub open spec fn starts_with(s: Seq<u8>, p: Seq<u8>) -> bool {
    s.len() >= p.len() && s.take(p.len() as int) == p
}

/// What a read-type label denotes: the type, the member index (originals
/// only, else 0) and the member count (1 for singletons, 0 for ignored).
pub open spec fn spec_parse_label(t: Seq<u8>) -> Option<(ReadType, nat, nat)> {
    if t == sin_label() {
        Some((ReadType::Single, 1 as nat, 1 as nat))
    } else if t == ign_label() {
        Some((ReadType::Ignored, 0 as nat, 0 as nat))
    } else if starts_with(t, con_head()) {
        let d = t.skip(con_head().len() as int);
        if all_digits(d) && dec_val(d) <= u64::MAX {
            Some((ReadType::Consensus, 0 as nat, dec_val(d)))
        } else {
            None
        }
    } else if starts_with(t, orig_head()) {
        let rest = t.skip(orig_head().len() as int);
        let i = first_non_digit(rest);
        if 1 <= i && i + 4 <= rest.len() && rest.subrange(i, i + 4) == of_infix() {
            let gi = rest.take(i);
            let gs = rest.skip(i + 4);
            if all_digits(gs) && dec_val(gi) <= u64::MAX && dec_val(gs) <= u64::MAX {
                Some((ReadType::Original, dec_val(gi), dec_val(gs)))
            } else {
                None
            }
        } else {
            None
        }
    } else {
        None
    }
}

/// What a two-decimal fixed-point quality text denotes, in hundredths.
pub open spec fn spec_parse_centi(t: Seq<u8>) -> Option<nat> {
    let i = first_non_digit(t);
    if 1 <= i && i + 3 == t.len() && t[i] == 46 && is_digit(t[i + 1]) && is_digit(t[i + 2]) {
        let v = dec_val(t.take(i)) * 100 + dec_val(t.skip(i + 1));
        if v <= u64::MAX {
            Some(v)
        } else {
            None
        }
    } else {
        None
    }
}

/// What the trailing metadata tags of an identifier denote, reading the
/// space-separated tokens from the end: an optional `QL:f:` token, then a
/// `UG:i:` token, then a `UT:Z:` token.
pub open spec fn spec_parse_metadata(s: Seq<u8>) -> Option<ParsedMetadata> {
    let i3 = last_space(s);
    if i3 < 0 {
        None
    } else {
        let t3 = s.skip(i3 + 1);
        if starts_with(t3, ql_marker().skip(1)) {
            match spec_parse_centi(t3.skip(5)) {
                None => None,
                Some(c) => {
                    let s2 = s.take(i3);
                    let i2 = last_space(s2);
                    if i2 < 0 {
                        None
                    } else {
                        let t2 = s2.skip(i2 + 1);
                        if starts_with(t2, ug_marker().skip(1)) && all_digits(t2.skip(5))
                            && dec_val(t2.skip(5)) <= u64::MAX {
                            let s1 = s2.take(i2);
                            let i1 = last_space(s1);
                            if i1 < 0 {
                                None
                            } else {
                                let t1 = s1.skip(i1 + 1);
                                if starts_with(t1, ut_marker().skip(1)) {
                                    match spec_parse_label(t1.skip(5)) {
                                        None => None,
                                        Some((rt, gi, gs)) => if reports_quality(rt) {
                                            Some(
                                                ParsedMetadata {
                                                    read_type: rt,
                                                    umi_group: dec_val(t2.skip(5)) as u64,
                                                    group_idx: gi as u64,
                                                    group_size: gs as u64,
                                                    has_quality: true,
                                                    avg_qual_centi: c as u64,
                                                },
                                            )
                                        } else {
                                            None
                                        },
                                    }
                                } else {
                                    None
                                }
                            }
                        } else {
                            None
                        }
                    }
                },
            }
        } else if starts_with(t3, ug_marker().skip(1)) && all_digits(t3.skip(5)) && dec_val(
            t3.skip(5),
        ) <= u64::MAX {
            let s2 = s.take(i3);
            let i2 = last_space(s2);
            if i2 < 0 {
                None
            } else {
                let t2 = s2.skip(i2 + 1);
                if starts_with(t2, ut_marker().skip(1)) {
                    match spec_parse_label(t2.skip(5)) {
                        None => None,
                        Some((rt, gi, gs)) => if !reports_quality(rt) {
                            Some(
                                ParsedMetadata {
                                    read_type: rt,
                                    umi_group: dec_val(t3.skip(5)) as u64,
                                    group_idx: gi as u64,
                                    group_size: gs as u64,
                                    has_quality: false,
                                    avg_qual_centi: 0,
                                },
                            )
                        } else {
                            None
                        },
                    }
                } else {
                    None
                }
            }
        } else {
            None
        }
    }
}

// ---------------------------------------------------------------------------
// The executable parser.
// ---------------------------------------------------------------------------
/// A two-digit string's value is at most 99.
proof fn lemma_two_digit_val(s: Seq<u8>)
    requires
        s.len() == 2,
        is_digit(s[0]),
        is_digit(s[1]),
    ensures
        dec_val(s) <= 99,
{
    assert(s.drop_last() =~= seq![s[0]]);
    assert(seq![s[0]].drop_last() =~= Seq::<u8>::empty());
    assert(dec_val(Seq::<u8>::empty()) == 0);
    assert(dec_val(seq![s[0]]) <= 9);
    assert(dec_val(s) <= 99);
}

/// `all_digits` on a subrange, phrased over the underlying string.
pub proof fn lemma_all_digits_subrange(s: Seq<u8>, a: int, b: int)
    requires
        0 <= a <= b <= s.len(),
    ensures
        all_digits(s.subrange(a, b)) <==> (b > a && forall|i: int|
            a <= i < b ==> is_digit(#[trigger] s[i])),
{
    let sub = s.subrange(a, b);
    if b > a && forall|i: int| a <= i < b ==> is_digit(#[trigger] s[i]) {
        assert forall|j: int| 0 <= j < sub.len() implies is_digit(#[trigger] sub[j]) by {
            assert(sub[j] == s[a + j]);
            assert(is_digit(s[a + j]));
        }
    }
    if all_digits(sub) {
        assert forall|i: int| a <= i < b implies is_digit(#[trigger] s[i]) by {
            assert(sub[i - a] == s[i]);
            assert(is_digit(sub[i - a]));
        }
    }
}

/// What holds of a string at its first non-digit position.
proof fn lemma_first_non_digit_props(s: Seq<u8>)
    ensures
        first_non_digit(s) >= 0 ==> {
            &&& first_non_digit(s) < s.len()
            &&& !is_digit(s[first_non_digit(s)])
            &&& forall|j: int| 0 <= j < first_non_digit(s) ==> is_digit(#[trigger] s[j])
        },
        first_non_digit(s) < 0 ==> forall|j: int| 0 <= j < s.len() ==> is_digit(#[trigger] s[j]),
    decreases s.len(),
{
    if s.len() > 0 && is_digit(s[0]) {
        lemma_first_non_digit_props(s.drop_first());
        let r = first_non_digit(s.drop_first());
        if r >= 0 {
            assert forall|j: int| 0 <= j < r + 1 implies is_digit(#[trigger] s[j]) by {
                if j > 0 {
                    assert(is_digit(s.drop_first()[j - 1]));
                }
            }
        } else {
            assert forall|j: int| 0 <= j < s.len() implies is_digit(#[trigger] s[j]) by {
                if j > 0 {
                    assert(is_digit(s.drop_first()[j - 1]));
                }
            }
        }
    }
}

/// All-digit strings have no non-digit position.
proof fn lemma_first_non_digit_none(s: Seq<u8>)
    requires
        forall|j: int| 0 <= j < s.len() ==> is_digit(#[trigger] s[j]),
    ensures
        first_non_digit(s) < 0,
    decreases s.len(),
{
    if s.len() > 0 {
        lemma_first_non_digit_none(s.drop_first());
    }
}

/// Position of the last space of `s` before `upto`, or `None`; agrees with
/// `last_space` on the prefix.
fn rfind_space(s: &Vec<u8>, upto: usize) -> (r: Option<usize>)
    requires
        upto <= s@.len(),
    ensures
        match r {
            Some(k) => k < upto && last_space(s@.take(upto as int)) == k,
            None => last_space(s@.take(upto as int)) < 0,
        },
{
    let mut j: usize = upto;
    while j > 0
        invariant
            j <= upto <= s@.len(),
            last_space(s@.take(upto as int)) == last_space(s@.take(j as int)),
        decreases j,
    {
        if s[j - 1] == 32 {
            proof {
                assert(s@.take(j as int).last() == 32);
            }
            return Some(j - 1);
        }
        proof {
            assert(s@.take(j as int).drop_last() =~= s@.take(j as int - 1));
            assert(s@.take(j as int).last() != 32);
        }
        j = j - 1;
    }
    proof {
        assert(s@.take(0) =~= Seq::<u8>::empty());
    }
    None
}

/// Position of the first non-digit of `s` in `[from, to)`, or `None`; agrees
/// with `first_non_digit` on that range.
fn find_non_digit(s: &Vec<u8>, from: usize, to: usize) -> (r: Option<usize>)
    requires
        from <= to <= s@.len(),
    ensures
        match r {
            Some(k) => from <= k < to && first_non_digit(s@.subrange(from as int, to as int)) == k
                - from,
            None => first_non_digit(s@.subrange(from as int, to as int)) < 0,
        },
{
    let ghost t = s@.subrange(from as int, to as int);
    let mut i: usize = from;
    while i < to
        invariant
            from <= i <= to <= s@.len(),
            t == s@.subrange(from as int, to as int),
            forall|j: int| 0 <= j < i - from ==> is_digit(#[trigger] t[j]),
        decreases to - i,
    {
        let b = s[i];
        if b < 48 || b > 57 {
            proof {
                lemma_first_non_digit_at(t, i - from);
            }
            return Some(i);
        }
        i = i + 1;
    }
    proof {
        lemma_first_non_digit_none(t);
    }
    None
}

/// Does `s` hold exactly the five bytes at `at`?
fn bytes5_at(s: &Vec<u8>, at: usize, p0: u8, p1: u8, p2: u8, p3: u8, p4: u8) -> (r: bool)
    requires
        at <= s@.len(),
    ensures
        r == (at + 5 <= s@.len() && s@.subrange(at as int, at as int + 5) == seq![
            p0,
            p1,
            p2,
            p3,
            p4,
        ]),
{
    if s.len() - at < 5 {
        return false;
    }
    let r = s[at] == p0 && s[at + 1] == p1 && s[at + 2] == p2 && s[at + 3] == p3 && s[at + 4]
        == p4;
    proof {
        if r {
            assert(s@.subrange(at as int, at as int + 5) =~= seq![p0, p1, p2, p3, p4]);
        } else {
            assert(s@.subrange(at as int, at as int + 5) != seq![p0, p1, p2, p3, p4]) by {
                let sub = s@.subrange(at as int, at as int + 5);
                if sub == seq![p0, p1, p2, p3, p4] {
                    assert(sub[0] == p0 && sub[1] == p1 && sub[2] == p2 && sub[3] == p3 && sub[4]
                        == p4);
                }
            }
        }
    }
    r
}

/// Parses the read-type label in `s[from..to)`; agrees with
/// `spec_parse_label` on that range.
fn parse_label_at(s: &Vec<u8>, from: usize, to: usize) -> (r: Option<(ReadType, u64, u64)>)
    requires
        from <= to <= s@.len(),
    ensures
        ({
            let p = spec_parse_label(s@.subrange(from as int, to as int));
            match r {
                Some((rt, gi, gs)) => p == Some((rt, gi as nat, gs as nat)),
                None => p is None,
            }
        }),
{
    let ghost t = s@.subrange(from as int, to as int);
    let len = to - from;
    if len == 3 && s[from] == 83 && s[from + 1] == 73 && s[from + 2] == 78 {
        proof {
            assert(t =~= sin_label());
        }
        return Some((ReadType::Single, 1, 1));
    }
    if len == 3 && s[from] == 73 && s[from + 1] == 71 && s[from + 2] == 78 {
        proof {
            assert(t =~= ign_label());
        }
        return Some((ReadType::Ignored, 0, 0));
    }
    proof {
        if t == sin_label() {
            assert(t.len() == 3 && t[0] == 83 && t[1] == 73 && t[2] == 78);
        }
        if t == ign_label() {
            assert(t.len() == 3 && t[0] == 73 && t[1] == 71 && t[2] == 78);
        }
    }
    if len >= 4 && s[from] == 67 && s[from + 1] == 79 && s[from + 2] == 78 && s[from + 3] == 95 {
        proof {
            assert(t.take(con_head().len() as int) =~= con_head());
            assert(t.skip(con_head().len() as int) =~= s@.subrange(from as int + 4, to as int));
            lemma_all_digits_subrange(s@, from as int + 4, to as int);
        }
        return match parse_dec(s.as_slice(), from + 4, to) {
            Some(v) => Some((ReadType::Consensus, 0, v)),
            None => None,
        };
    }
    proof {
        if starts_with(t, con_head()) {
            assert(t.len() >= 4);
            assert(t.take(con_head().len() as int)[0] == 67);
            assert(t.take(con_head().len() as int)[1] == 79);
            assert(t.take(con_head().len() as int)[2] == 78);
            assert(t.take(con_head().len() as int)[3] == 95);
        }
    }
    if len >= 5 && s[from] == 79 && s[from + 1] == 82 && s[from + 2] == 73 && s[from + 3] == 71
        && s[from + 4] == 95 {
        proof {
            assert(t.take(orig_head().len() as int) =~= orig_head());
            assert(t.skip(orig_head().len() as int) =~= s@.subrange(from as int + 5, to as int));
        }
        let ghost rest = t.skip(orig_head().len() as int);
        let nd = find_non_digit(s, from + 5, to);
        let i = match nd {
            None => {
                return None;
            },
            Some(i) => i,
        };
        if i == from + 5 {
            return None;
        }
        if to - i < 4 || !(s[i] == 95 && s[i + 1] == 79 && s[i + 2] == 70 && s[i + 3] == 95) {
            proof {
                let ri = i - from - 5;
                if ri + 4 <= rest.len() && rest.subrange(ri as int, ri as int + 4) == of_infix() {
                    let sub = rest.subrange(ri as int, ri as int + 4);
                    assert(sub[0] == 95 && sub[1] == 79 && sub[2] == 70 && sub[3] == 95);
                    assert(rest[ri as int] == s@[i as int]);
                    assert(rest[ri as int + 1] == s@[i as int + 1]);
                    assert(rest[ri as int + 2] == s@[i as int + 2]);
                    assert(rest[ri as int + 3] == s@[i as int + 3]);
                }
            }
            return None;
        }
        proof {
            let ri = i - from - 5;
            assert(rest.subrange(ri as int, ri as int + 4) =~= of_infix());
            assert(rest.take(ri as int) =~= s@.subrange(from as int + 5, i as int));
            assert(rest.skip(ri as int + 4) =~= s@.subrange(i as int + 4, to as int));
            lemma_first_non_digit_props(rest);
            assert forall|j: int| from + 5 <= j < i implies is_digit(#[trigger] s@[j]) by {
                assert(s@[j] == rest[j - from - 5]);
                assert(is_digit(rest[j - from - 5]));
            }
            lemma_all_digits_subrange(s@, i as int + 4, to as int);
        }
        let gi = match parse_dec(s.as_slice(), from + 5, i) {
            Some(v) => v,
            None => {
                return None;
            },
        };
        let gs = match parse_dec(s.as_slice(), i + 4, to) {
            Some(v) => v,
            None => {
                return None;
            },
        };
        return Some((ReadType::Original, gi, gs));
    }
    proof {
        if starts_with(t, orig_head()) {
            assert(t.len() >= 5);
            assert(t.take(orig_head().len() as int)[0] == 79);
            assert(t.take(orig_head().len() as int)[1] == 82);
            assert(t.take(orig_head().len() as int)[2] == 73);
            assert(t.take(orig_head().len() as int)[3] == 71);
            assert(t.take(orig_head().len() as int)[4] == 95);
        }
    }
    None
}

/// Parses the two-decimal fixed-point quality in `s[from..to)`; agrees with
/// `spec_parse_centi` on that range.
pub fn parse_centi_at(s: &Vec<u8>, from: usize, to: usize) -> (r: Option<u64>)
    requires
        from <= to <= s@.len(),
    ensures
        ({
            let p = spec_parse_centi(s@.subrange(from as int, to as int));
            match r {
                Some(v) => p == Some(v as nat),
                None => p is None,
            }
        }),
{
    let ghost t = s@.subrange(from as int, to as int);
    let nd = find_non_digit(s, from, to);
    let i = match nd {
        None => {
            return None;
        },
        Some(i) => i,
    };
    if i == from {
        return None;
    }
    if !(to - i == 3 && s[i] == 46 && s[i + 1] >= 48 && s[i + 1] <= 57 && s[i + 2] >= 48 && s[i
        + 2] <= 57) {
        proof {
            let ri = i - from;
            assert(t[ri as int] == s@[i as int]);
            if ri + 3 == t.len() {
                assert(t[ri as int + 1] == s@[i as int + 1]);
                assert(t[ri as int + 2] == s@[i as int + 2]);
            }
        }
        return None;
    }
    proof {
        let ri = i - from;
        assert(t[ri as int] == 46 && is_digit(t[ri as int + 1]) && is_digit(t[ri as int + 2]));
        assert(t.take(ri as int) =~= s@.subrange(from as int, i as int));
        assert(t.skip(ri as int + 1) =~= s@.subrange(i as int + 1, to as int));
        lemma_first_non_digit_props(t);
        assert forall|j: int| from <= j < i implies is_digit(#[trigger] s@[j]) by {
            assert(s@[j] == t[j - from]);
            assert(is_digit(t[j - from]));
        }
        let fr = s@.subrange(i as int + 1, to as int);
        assert(fr[0] == s@[i as int + 1] && fr[1] == s@[i as int + 2]);
        assert(is_digit(fr[0]) && is_digit(fr[1]));
        assert forall|j: int| i + 1 <= j < to implies is_digit(#[trigger] s@[j]) by {
            assert(j == i + 1 || j == i + 2);
        }
        lemma_two_digit_val(fr);
    }
    let whole = match parse_dec(s.as_slice(), from, i) {
        Some(v) => v,
        None => {
            proof {
                assert(dec_val(s@.subrange(from as int, i as int)) > u64::MAX);
                let w = dec_val(t.take(i - from));
                let f2 = dec_val(t.skip(i - from + 1));
                assert(w * 100 + f2 >= w) by (nonlinear_arith);
            }
            return None;
        },
    };
    let frac = match parse_dec(s.as_slice(), i + 1, to) {
        Some(v) => v,
        None => {
            return None;
        },
    };
    if whole > (u64::MAX - frac) / 100 {
        proof {
            assert((whole as nat) * 100 + frac > u64::MAX) by (nonlinear_arith)
                requires
                    whole > (u64::MAX - frac) / 100,
                    frac <= u64::MAX,
            ;
        }
        return None;
    }
    proof {
        assert((whole as nat) * 100 + frac <= u64::MAX) by (nonlinear_arith)
            requires
                whole <= (u64::MAX - frac) / 100,
                frac <= u64::MAX,
        ;
    }
    Some(whole * 100 + frac)
}

/// Re-parses the metadata tags from an output identifier, reading the
/// space-separated tokens from the end; agrees with `spec_parse_metadata`.
#[verifier::rlimit(100)]
pub fn parse_metadata(id: &Vec<u8>) -> (r: Option<ParsedMetadata>)
    ensures
        r == spec_parse_metadata(id@),
{
    proof {
        assert(id@.take(id@.len() as int) =~= id@);
        assert(ql_marker().skip(1) =~= seq![81u8, 76u8, 58u8, 102u8, 58u8]);
        assert(ug_marker().skip(1) =~= seq![85u8, 71u8, 58u8, 105u8, 58u8]);
        assert(ut_marker().skip(1) =~= seq![85u8, 84u8, 58u8, 90u8, 58u8]);
    }
    let i3 = match rfind_space(id, id.len()) {
        None => {
            return None;
        },
        Some(k) => k,
    };
    let n = id.len();
    let ghost t3 = id@.skip(i3 + 1);
    proof {
        assert(t3 =~= id@.subrange(i3 + 1, n as int));
        assert(t3.len() >= 5 ==> t3.take(5) =~= id@.subrange(i3 + 1, i3 + 6));
        assert(i3 + 6 <= n ==> t3.skip(5) =~= id@.subrange(i3 + 6, n as int));
    }
    if bytes5_at(id, i3 + 1, 81, 76, 58, 102, 58) {
        // " QL:f:" tail: quality, then group ordinal, then read type.
        proof {
            assert(starts_with(t3, ql_marker().skip(1)));
        }
        let c = match parse_centi_at(id, i3 + 6, n) {
            None => {
                proof {
                    assert(spec_parse_metadata(id@) is None);
                }
                return None;
            },
            Some(c) => c,
        };
        let i2 = match rfind_space(id, i3) {
            None => {
                proof {
                    assert(spec_parse_metadata(id@) is None);
                }
                return None;
            },
            Some(k) => k,
        };
        let ghost s2 = id@.take(i3 as int);
        let ghost t2 = s2.skip(i2 + 1);
        proof {
            assert(t2 =~= id@.subrange(i2 + 1, i3 as int));
            assert(t2.len() >= 5 ==> t2.take(5) =~= id@.subrange(i2 + 1, i2 + 6));
            assert(i2 + 6 <= i3 ==> t2.skip(5) =~= id@.subrange(i2 + 6, i3 as int));
            if i2 + 6 <= i3 {
                lemma_all_digits_subrange(id@, i2 + 6, i3 as int);
            }
        }
        if !bytes5_at(id, i2 + 1, 85, 71, 58, 105, 58) || i2 + 6 > i3 {
            proof {
                if starts_with(t2, ug_marker().skip(1)) {
                    assert(i2 + 6 <= i3);
                    assert(t2.take(5) =~= id@.subrange(i2 + 1, i2 + 6));
                }
                assert(!starts_with(t2, ug_marker().skip(1)));
                assert(spec_parse_metadata(id@) is None);
            }
            return None;
        }
        proof {
            assert(starts_with(t2, ug_marker().skip(1)));
        }
        let ug = match parse_dec(id.as_slice(), i2 + 6, i3) {
            None => {
                proof {
                    assert(!(all_digits(t2.skip(5)) && dec_val(t2.skip(5)) <= u64::MAX));
                    assert(spec_parse_metadata(id@) is None);
                }
                return None;
            },
            Some(v) => v,
        };
        proof {
            assert(all_digits(t2.skip(5)) && dec_val(t2.skip(5)) == ug as nat);
        }
        let i1 = match rfind_space(id, i2) {
            None => {
                proof {
                    assert(s2.take(i2 as int) =~= id@.take(i2 as int));
                    assert(last_space(s2.take(i2 as int)) < 0);
                    assert(spec_parse_metadata(id@) is None);
                }
                return None;
            },
            Some(k) => k,
        };
        let ghost s1 = s2.take(i2 as int);
        let ghost t1 = s1.skip(i1 + 1);
        proof {
            assert(s1 =~= id@.take(i2 as int));
            assert(t1 =~= id@.subrange(i1 + 1, i2 as int));
            assert(t1.len() >= 5 ==> t1.take(5) =~= id@.subrange(i1 + 1, i1 + 6));
            assert(i1 + 6 <= i2 ==> t1.skip(5) =~= id@.subrange(i1 + 6, i2 as int));
        }
        if !bytes5_at(id, i1 + 1, 85, 84, 58, 90, 58) || i1 + 6 > i2 {
            proof {
                if starts_with(t1, ut_marker().skip(1)) {
                    assert(i1 + 6 <= i2);
                    assert(t1.take(5) =~= id@.subrange(i1 + 1, i1 + 6));
                }
                assert(!starts_with(t1, ut_marker().skip(1)));
                assert(spec_parse_metadata(id@) is None);
            }
            return None;
        }
        proof {
            assert(starts_with(t1, ut_marker().skip(1)));
        }
        let lab = match parse_label_at(id, i1 + 6, i2) {
            None => {
                proof {
                    assert(spec_parse_label(t1.skip(5)) is None);
                    assert(spec_parse_metadata(id@) is None);
                }
                return None;
            },
            Some(l) => l,
        };
        let (rt, gi, gs) = lab;
        let quality = match rt {
            ReadType::Consensus => true,
            ReadType::Single => true,
            _ => false,
        };
        proof {
            assert(quality == reports_quality(rt));
        }
        if !quality {
            proof {
                assert(spec_parse_metadata(id@) is None);
            }
            return None;
        }
        let out = ParsedMetadata {
            read_type: rt,
            umi_group: ug,
            group_idx: gi,
            group_size: gs,
            has_quality: true,
            avg_qual_centi: c,
        };
        proof {
            assert(spec_parse_metadata(id@) == Some(out));
        }
        Some(out)
    } else if bytes5_at(id, i3 + 1, 85, 71, 58, 105, 58) && i3 + 6 <= n {
        // " UG:i:" tail: group ordinal, then read type; no quality tag.
        proof {
            if starts_with(t3, ql_marker().skip(1)) {
                assert(t3.take(5)[0] == 81);
            }
            assert(!starts_with(t3, ql_marker().skip(1)));
            assert(starts_with(t3, ug_marker().skip(1)));
            lemma_all_digits_subrange(id@, i3 + 6, n as int);
        }
        let ug = match parse_dec(id.as_slice(), i3 + 6, n) {
            None => {
                proof {
                    assert(!(all_digits(t3.skip(5)) && dec_val(t3.skip(5)) <= u64::MAX));
                    assert(spec_parse_metadata(id@) is None);
                }
                return None;
            },
            Some(v) => v,
        };
        proof {
            assert(all_digits(t3.skip(5)) && dec_val(t3.skip(5)) == ug as nat);
        }
        let i2 = match rfind_space(id, i3) {
            None => {
                proof {
                    assert(spec_parse_metadata(id@) is None);
                }
                return None;
            },
            Some(k) => k,
        };
        let ghost s2 = id@.take(i3 as int);
        let ghost t2 = s2.skip(i2 + 1);
        proof {
            assert(t2 =~= id@.subrange(i2 + 1, i3 as int));
            assert(t2.len() >= 5 ==> t2.take(5) =~= id@.subrange(i2 + 1, i2 + 6));
            assert(i2 + 6 <= i3 ==> t2.skip(5) =~= id@.subrange(i2 + 6, i3 as int));
        }
        if !bytes5_at(id, i2 + 1, 85, 84, 58, 90, 58) || i2 + 6 > i3 {
            proof {
                if starts_with(t2, ut_marker().skip(1)) {
                    assert(i2 + 6 <= i3);
                    assert(t2.take(5) =~= id@.subrange(i2 + 1, i2 + 6));
                }
                assert(!starts_with(t2, ut_marker().skip(1)));
                assert(spec_parse_metadata(id@) is None);
            }
            return None;
        }
        proof {
            assert(starts_with(t2, ut_marker().skip(1)));
        }
        let lab = match parse_label_at(id, i2 + 6, i3) {
            None => {
                proof {
                    assert(spec_parse_label(t2.skip(5)) is None);
                    assert(spec_parse_metadata(id@) is None);
                }
                return None;
            },
            Some(l) => l,
        };
        let (rt, gi, gs) = lab;
        let quality = match rt {
            ReadType::Consensus => true,
            ReadType::Single => true,
            _ => false,
        };
        proof {
            assert(quality == reports_quality(rt));
        }
        if quality {
            proof {
                assert(spec_parse_metadata(id@) is None);
            }
            return None;
        }
        let out = ParsedMetadata {
            read_type: rt,
            umi_group: ug,
            group_idx: gi,
            group_size: gs,
            has_quality: false,
            avg_qual_centi: 0,
        };
        proof {
            assert(spec_parse_metadata(id@) == Some(out));
        }
        Some(out)
    } else {
        proof {
            if starts_with(t3, ql_marker().skip(1)) {
                assert(t3.take(5)[0] == 81);
            }
            if starts_with(t3, ug_marker().skip(1)) {
                assert(i3 + 6 <= n);
                assert(t3.take(5) =~= id@.subrange(i3 + 1, i3 + 6));
            }
            assert(spec_parse_metadata(id@) is None);
        }
        None
    }
}

// ---------------------------------------------------------------------------
// Supporting lemmas.
// ---------------------------------------------------------------------------
/// Appending space-free bytes does not move the last space.
proof fn lemma_last_space_append(s: Seq<u8>, b: Seq<u8>)
    requires
        no_space(b),
    ensures
        last_space(s + b) == last_space(s),
    decreases b.len(),
{
    if b.len() == 0 {
        assert(s + b =~= s);
    } else {
        assert((s + b).last() == b.last());
        assert(b.last() != 32);
        assert((s + b).drop_last() =~= s + b.drop_last());
        assert(no_space(b.drop_last()));
        lemma_last_space_append(s, b.drop_last());
    }
}

/// A space followed by space-free bytes is the last space.
proof fn lemma_last_space_at(a: Seq<u8>, b: Seq<u8>)
    requires
        no_space(b),
    ensures
        last_space(a + seq![32u8] + b) == a.len(),
{
    lemma_last_space_append(a + seq![32u8], b);
    assert((a + seq![32u8]).last() == 32);
    assert(last_space(a + seq![32u8]) == a.len());
}

/// A witness position pins `first_non_digit` down.
proof fn lemma_first_non_digit_at(s: Seq<u8>, i: int)
    requires
        0 <= i < s.len(),
        !is_digit(s[i]),
        forall|j: int| 0 <= j < i ==> is_digit(#[trigger] s[j]),
    ensures
        first_non_digit(s) == i,
    decreases s.len(),
{
    if i > 0 {
        lemma_first_non_digit_at(s.drop_first(), i - 1);
    }
}

/// The decimal digits of a number hold no space and no non-digit.
proof fn lemma_dec_rep_no_space(n: nat)
    ensures
        no_space(dec_rep(n)),
        forall|i: int| 0 <= i < dec_rep(n).len() ==> is_digit(#[trigger] dec_rep(n)[i]),
{
    lemma_dec_rep_digits(n);
    assert forall|i: int| 0 <= i < dec_rep(n).len() implies dec_rep(n)[i] != 32 by {
        assert(is_digit(dec_rep(n)[i]));
    }
}

/// Labels hold no space.
proof fn lemma_label_no_space(rt: ReadType, gi: nat, gs: nat)
    ensures
        no_space(label_bytes(rt, gi, gs)),
{
    lemma_dec_rep_no_space(gi);
    lemma_dec_rep_no_space(gs);
    match rt {
        ReadType::Consensus => {
            assert forall|i: int| 0 <= i < label_bytes(rt, gi, gs).len() implies label_bytes(
                rt,
                gi,
                gs,
            )[i] != 32 by {
                if i >= con_head().len() {
                    assert(label_bytes(rt, gi, gs)[i] == dec_rep(gs)[i - con_head().len()]);
                }
            }
        },
        ReadType::Single => {},
        ReadType::Original => {
            let l = label_bytes(rt, gi, gs);
            assert forall|i: int| 0 <= i < l.len() implies l[i] != 32 by {
                let a = orig_head().len() as int;
                let b = a + dec_rep(gi).len();
                let c = b + of_infix().len();
                if i < a {
                    assert(l[i] == orig_head()[i]);
                } else if i < b {
                    assert(l[i] == dec_rep(gi)[i - a]);
                } else if i < c {
                    assert(l[i] == of_infix()[i - b]);
                } else {
                    assert(l[i] == dec_rep(gs)[i - c]);
                }
            }
        },
        ReadType::Ignored => {},
    }
}

/// The fixed-point quality text holds no space.
proof fn lemma_centi_no_space(c: nat)
    ensures
        no_space(centi_bytes(c)),
{
    lemma_dec_rep_no_space(c / 100);
    lemma_dec_rep_no_space(c % 100);
    let t = centi_bytes(c);
    let a = dec_rep(c / 100).len() as int;
    assert forall|i: int| 0 <= i < t.len() implies t[i] != 32 by {
        if i < a {
            assert(t[i] == dec_rep(c / 100)[i - 0]);
        } else if i == a {
            assert(t[i] == 46);
        } else {
            if c % 100 < 10 {
                if i == a + 1 {
                    assert(t[i] == 48);
                } else {
                    assert(t[i] == dec_rep(c % 100)[i - a - 2]);
                }
            } else {
                assert(t[i] == dec_rep(c % 100)[i - a - 1]);
            }
        }
    }
}

/// Re-parsing a label recovers what the encoder wrote.
proof fn lemma_label_round_trip(rt: ReadType, gi: u64, gs: u64)
    ensures
        ({
            let p = spec_parse_label(label_bytes(rt, gi as nat, gs as nat));
            &&& p is Some
            &&& p->Some_0.0 == rt
            &&& rt == ReadType::Original ==> p->Some_0.1 == gi as nat
            &&& (rt == ReadType::Consensus || rt == ReadType::Original) ==> p->Some_0.2
                == gs as nat
            &&& rt == ReadType::Single ==> p->Some_0.2 == 1
        }),
{
    let t = label_bytes(rt, gi as nat, gs as nat);
    lemma_dec_rep_digits(gi as nat);
    lemma_dec_rep_digits(gs as nat);
    match rt {
        ReadType::Single => {},
        ReadType::Ignored => {
            assert(t != sin_label()) by {
                assert(t[0] == 73 && sin_label()[0] == 83);
            }
        },
        ReadType::Consensus => {
            assert(t.len() >= 5);
            assert(t != sin_label() && t != ign_label());
            assert(t.take(con_head().len() as int) =~= con_head());
            let d = t.skip(con_head().len() as int);
            assert(d =~= dec_rep(gs as nat));
            lemma_dec_round_trip(gs as nat);
        },
        ReadType::Original => {
            assert(t.len() >= 11);
            assert(t != sin_label() && t != ign_label());
            assert(!starts_with(t, con_head())) by {
                assert(t[0] == 79);
                if starts_with(t, con_head()) {
                    assert(t.take(con_head().len() as int)[0] == 67);
                }
            }
            assert(t.take(orig_head().len() as int) =~= orig_head());
            let rest = t.skip(orig_head().len() as int);
            assert(rest =~= dec_rep(gi as nat) + of_infix() + dec_rep(gs as nat));
            let di = dec_rep(gi as nat).len() as int;
            assert(!is_digit(rest[di])) by {
                assert(rest[di] == of_infix()[0]);
            }
            assert(forall|j: int| 0 <= j < di ==> is_digit(#[trigger] rest[j]));
            lemma_first_non_digit_at(rest, di);
            assert(rest.subrange(di, di + 4) =~= of_infix());
            assert(rest.take(di) =~= dec_rep(gi as nat));
            assert(rest.skip(di + 4) =~= dec_rep(gs as nat));
            lemma_dec_round_trip(gi as nat);
            lemma_dec_round_trip(gs as nat);
        },
    }
}

/// Re-parsing the fixed-point quality text recovers the centi-value.
proof fn lemma_centi_round_trip(c: u64)
    ensures
        spec_parse_centi(centi_bytes(c as nat)) == Some(c as nat),
{
    let t = centi_bytes(c as nat);
    let w = (c as nat) / 100;
    let f = (c as nat) % 100;
    lemma_dec_rep_digits(w);
    lemma_dec_rep_digits(f);
    let a = dec_rep(w).len() as int;
    let frac2 = if f < 10 {
        seq![48u8] + dec_rep(f)
    } else {
        dec_rep(f)
    };
    assert(frac2.len() == 2) by {
        if f >= 10 {
            assert(dec_rep(f) =~= dec_rep(f / 10) + seq![(48 + f % 10) as u8]);
            assert(dec_rep(f / 10).len() == 1);
        } else {
            assert(dec_rep(f).len() == 1);
        }
    }
    assert(t =~= dec_rep(w) + seq![46u8] + frac2);
    assert(!is_digit(t[a]));
    assert(forall|j: int| 0 <= j < a ==> is_digit(#[trigger] t[j]));
    lemma_first_non_digit_at(t, a);
    assert(t.len() == a + 3);
    assert(is_digit(t[a + 1]) && is_digit(t[a + 2])) by {
        if f < 10 {
            assert(t[a + 1] == 48);
            assert(t[a + 2] == dec_rep(f)[0]);
        } else {
            assert(t[a + 1] == dec_rep(f)[0]);
            assert(t[a + 2] == dec_rep(f)[1]);
        }
    }
    assert(t.take(a) =~= dec_rep(w));
    lemma_dec_round_trip(w);
    assert(t.skip(a + 1) =~= frac2);
    assert(dec_val(frac2) == f) by {
        lemma_dec_round_trip(f);
        if f < 10 {
            assert(frac2.drop_last() =~= seq![48u8]);
            assert(seq![48u8].drop_last() =~= Seq::<u8>::empty());
            assert(dec_val(Seq::<u8>::empty()) == 0);
            assert(dec_val(seq![48u8]) == 0);
            assert(frac2.last() == dec_rep(f).last());
            assert(dec_rep(f) =~= seq![(48 + f) as u8]);
            assert(dec_val(frac2) == 0 * 10 + f);
        }
    }
    assert(dec_val(t.take(a)) * 100 + dec_val(t.skip(a + 1)) == w * 100 + f);
    assert(w * 100 + f == c as nat) by (nonlinear_arith)
        requires w == (c as nat) / 100 && f == (c as nat) % 100;
}

/// The conclusion of the round-trip law for the tag values `rt, ug, gi, gs, c`.
pub open spec fn round_trip_recovers(
    p: Option<ParsedMetadata>,
    rt: ReadType,
    ug: u64,
    gi: u64,
    gs: u64,
    c: u64,
) -> bool {
    &&& p is Some
    &&& p->Some_0.read_type == rt
    &&& p->Some_0.umi_group == ug
    &&& rt == ReadType::Original ==> p->Some_0.group_idx == gi
    &&& (rt == ReadType::Consensus || rt == ReadType::Original) ==> p->Some_0.group_size == gs
    &&& rt == ReadType::Single ==> p->Some_0.group_size == 1
    &&& p->Some_0.has_quality == reports_quality(rt)
    &&& reports_quality(rt) ==> p->Some_0.avg_qual_centi == c
}

#[verifier::rlimit(100)]
proof fn lemma_round_trip_with_quality(base: Seq<u8>, rt: ReadType, ug: u64, gi: u64, gs: u64, c: u64)
    requires
        reports_quality(rt),
    ensures
        round_trip_recovers(
            spec_parse_metadata(base + metadata_suffix(rt, ug as nat, gi as nat, gs as nat, c as nat)),
            rt,
            ug,
            gi,
            gs,
            c,
        ),
{
    let label = label_bytes(rt, gi as nat, gs as nat);
    let ugd = dec_rep(ug as nat);
    let s = base + metadata_suffix(rt, ug as nat, gi as nat, gs as nat, c as nat);
    lemma_label_no_space(rt, gi as nat, gs as nat);
    lemma_dec_rep_no_space(ug as nat);
    lemma_dec_rep_digits(ug as nat);
    lemma_label_round_trip(rt, gi, gs);
    let ut_h = ut_marker().skip(1);
    let ug_h = ug_marker().skip(1);
    let ql_h = ql_marker().skip(1);
    assert(no_space(ut_h) && no_space(ug_h) && no_space(ql_h));
    let s1 = base + seq![32u8] + ut_h + label;
    let s2 = s1 + seq![32u8] + ug_h + ugd;
    lemma_centi_no_space(c as nat);
    lemma_centi_round_trip(c);
    let cb = centi_bytes(c as nat);
    assert(s =~= s2 + seq![32u8] + (ql_h + cb));
    assert(no_space(ql_h + cb));
    lemma_last_space_at(s2, ql_h + cb);
    assert(last_space(s) == s2.len());
    let t3b = s.skip(s2.len() as int + 1);
    assert(t3b =~= ql_h + cb);
    assert(starts_with(t3b, ql_h)) by {
        assert(t3b.take(5) =~= ql_h);
    }
    assert(t3b.skip(5) =~= cb);
    assert(s.take(s2.len() as int) =~= s2);
    assert(s2 =~= s1 + seq![32u8] + (ug_h + ugd));
    assert(no_space(ug_h + ugd));
    lemma_last_space_at(s1, ug_h + ugd);
    assert(last_space(s2) == s1.len());
    let t2b = s2.skip(s1.len() as int + 1);
    assert(t2b =~= ug_h + ugd);
    assert(starts_with(t2b, ug_h)) by {
        assert(t2b.take(5) =~= ug_h);
    }
    assert(t2b.skip(5) =~= ugd);
    lemma_dec_round_trip(ug as nat);
    assert(s2.take(s1.len() as int) =~= s1);
    assert(s1 =~= base + seq![32u8] + (ut_h + label));
    assert(no_space(ut_h + label));
    lemma_last_space_at(base, ut_h + label);
    assert(last_space(s1) == base.len());
    let t1b = s1.skip(base.len() as int + 1);
    assert(t1b =~= ut_h + label);
    assert(starts_with(t1b, ut_h)) by {
        assert(t1b.take(5) =~= ut_h);
    }
    assert(t1b.skip(5) =~= label);
}

#[verifier::rlimit(100)]
proof fn lemma_round_trip_without_quality(base: Seq<u8>, rt: ReadType, ug: u64, gi: u64, gs: u64, c: u64)
    requires
        !reports_quality(rt),
    ensures
        round_trip_recovers(
            spec_parse_metadata(base + metadata_suffix(rt, ug as nat, gi as nat, gs as nat, c as nat)),
            rt,
            ug,
            gi,
            gs,
            c,
        ),
{
    let label = label_bytes(rt, gi as nat, gs as nat);
    let ugd = dec_rep(ug as nat);
    let s = base + metadata_suffix(rt, ug as nat, gi as nat, gs as nat, c as nat);
    lemma_label_no_space(rt, gi as nat, gs as nat);
    lemma_dec_rep_no_space(ug as nat);
    lemma_dec_rep_digits(ug as nat);
    lemma_label_round_trip(rt, gi, gs);
    let ut_h = ut_marker().skip(1);
    let ug_h = ug_marker().skip(1);
    let ql_h = ql_marker().skip(1);
    assert(no_space(ut_h) && no_space(ug_h) && no_space(ql_h));
    let s1 = base + seq![32u8] + ut_h + label;
    assert(s =~= s1 + seq![32u8] + (ug_h + ugd));
    assert(no_space(ug_h + ugd));
    lemma_last_space_at(s1, ug_h + ugd);
    assert(last_space(s) == s1.len());
    let t3b = s.skip(s1.len() as int + 1);
    assert(t3b =~= ug_h + ugd);
    assert(!starts_with(t3b, ql_h)) by {
        if starts_with(t3b, ql_h) {
            assert(t3b.take(5)[0] == 81);
            assert(t3b[0] == ug_h[0]);
        }
    }
    assert(starts_with(t3b, ug_h)) by {
        assert(t3b.take(5) =~= ug_h);
    }
    assert(t3b.skip(5) =~= ugd);
    lemma_dec_round_trip(ug as nat);
    assert(s.take(s1.len() as int) =~= s1);
    assert(s1 =~= base + seq![32u8] + (ut_h + label));
    assert(no_space(ut_h + label));
    lemma_last_space_at(base, ut_h + label);
    assert(last_space(s1) == base.len());
    let t2b = s1.skip(base.len() as int + 1);
    assert(t2b =~= ut_h + label);
    assert(starts_with(t2b, ut_h)) by {
        assert(t2b.take(5) =~= ut_h);
    }
    assert(t2b.skip(5) =~= label);
}

/// Round trip: appending the metadata tags to any identifier and re-parsing
/// the result recovers the read type, the group ordinal, the member count
/// where the label records one (consensus and original records; a singleton
/// is always of size 1), the member index for original records, and the
/// average quality where it is reported.
pub proof fn lemma_metadata_round_trip(
    base: Seq<u8>,
    rt: ReadType,
    ug: u64,
    gi: u64,
    gs: u64,
    c: u64,
)
    ensures
        round_trip_recovers(
            spec_parse_metadata(
                base + metadata_suffix(rt, ug as nat, gi as nat, gs as nat, c as nat),
            ),
            rt,
            ug,
            gi,
            gs,
            c,
        ),
{
    if reports_quality(rt) {
        lemma_round_trip_with_quality(base, rt, ug, gi, gs, c);
    } else {
        lemma_round_trip_without_quality(base, rt, ug, gi, gs, c);
    }
}

} // verus!
