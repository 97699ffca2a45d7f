//! The duplicate-group index: a bidirectional map from identifiers to the
//! file positions of their records, in file-discovery order.

use vstd::prelude::*;
use std::collections::HashMap;
use crate::ident::{RecordIdentifier, id_key};

verus! {

broadcast use vstd::std_specs::hash::group_hash_axioms;

/// The position of one raw record in the source file: byte offset and exact
/// byte length.
#[derive(PartialEq, Eq, Structural, Clone, Copy, Debug)]
pub struct RecordPosition {
    pub pos: usize,
    pub length: usize,
}

/// One duplicate group: an identifier and the positions of its records, in
/// file order.
pub struct IdGroup {
    pub id: RecordIdentifier,
    pub positions: Vec<RecordPosition>,
}

/// The ghost image of one group.
pub ghost struct GroupView {
    pub key: (Seq<char>, Seq<char>),
    pub positions: Seq<RecordPosition>,
}

/// The bidirectional duplicate index: groups in insertion order, and a
/// reverse map from a record's byte position to its group's index in
/// `by_id`.
pub struct DuplicateMap {
    pub by_id: Vec<IdGroup>,
    pub pos_to_id: HashMap<usize, usize>,
}

/// The ghost image of the whole map: its groups in order.
pub open spec fn map_view(m: DuplicateMap) -> Seq<GroupView> {
    Seq::new(
        m.by_id@.len(),
        |i: int|
            GroupView { key: id_key(m.by_id@[i].id), positions: m.by_id@[i].positions@ },
    )
}

/// Index of the group with key `key`, or `-1`.
pub open spec fn find_group(groups: Seq<GroupView>, key: (Seq<char>, Seq<char>)) -> int
    decreases groups.len(),
{
    if groups.len() == 0 {
        -1
    } else if groups[0].key == key {
        0
    } else {
        let r = find_group(groups.drop_first(), key);
        if r < 0 {
            -1
        } else {
            r + 1
        }
    }
}

/// One insertion step on the ghost image: append the position to the key's
/// group, or open a new group at the end.
pub open spec fn spec_insert(
    groups: Seq<GroupView>,
    key: (Seq<char>, Seq<char>),
    rp: RecordPosition,
) -> Seq<GroupView> {
    let g = find_group(groups, key);
    if g < 0 {
        groups.push(GroupView { key, positions: seq![rp] })
    } else {
        groups.update(g, GroupView { key, positions: groups[g].positions.push(rp) })
    }
}

/// Well-formedness of the bidirectional index: every group is non-empty,
/// group keys are pairwise distinct, every stored position maps back to its
/// group, the reverse map holds nothing else, and no position occurs twice.
pub open spec fn map_wf(m: DuplicateMap) -> bool {
    let gs = map_view(m);
    &&& forall|i: int| 0 <= i < gs.len() ==> #[trigger] gs[i].positions.len() >= 1
    &&& forall|i: int, j: int| 0 <= i < j < gs.len() ==> #[trigger] gs[i].key != #[trigger] gs[j].key
    &&& forall|i: int, k: int|
        0 <= i < gs.len() && 0 <= k < gs[i].positions.len() ==> {
            &&& m.pos_to_id@.contains_key(#[trigger] gs[i].positions[k].pos)
            &&& m.pos_to_id@[gs[i].positions[k].pos] == i
        }
    &&& forall|p: usize|
        m.pos_to_id@.contains_key(p) ==> exists|i: int, k: int|
            0 <= i < gs.len() && 0 <= k < gs[i].positions.len() && (#[trigger] gs[i].positions[k]).pos
                == p
    &&& forall|i: int, k1: int, k2: int|
        0 <= i < gs.len() && 0 <= k1 < k2 < gs[i].positions.len() ==> (
        #[trigger] gs[i].positions[k1]).pos != (#[trigger] gs[i].positions[k2]).pos
}

pub proof fn lemma_find_group_props(groups: Seq<GroupView>, key: (Seq<char>, Seq<char>))
    ensures
        find_group(groups, key) >= 0 ==> {
            &&& find_group(groups, key) < groups.len()
            &&& groups[find_group(groups, key)].key == key
            &&& forall|j: int|
                0 <= j < find_group(groups, key) ==> (#[trigger] groups[j]).key != key
        },
        find_group(groups, key) < 0 ==> forall|i: int|
            0 <= i < groups.len() ==> (#[trigger] groups[i]).key != key,
    decreases groups.len(),
{
    if groups.len() > 0 && groups[0].key != key {
        lemma_find_group_props(groups.drop_first(), key);
        let r = find_group(groups.drop_first(), key);
        if r >= 0 {
            assert(groups[r + 1] == groups.drop_first()[r]);
            assert forall|j: int| 0 <= j < r + 1 implies (#[trigger] groups[j]).key != key by {
                if j > 0 {
                    assert(groups.drop_first()[j - 1].key != key);
                }
            }
        } else {
            assert forall|i: int| 0 <= i < groups.len() implies (#[trigger] groups[i]).key
                != key by {
                if i > 0 {
                    assert(groups.drop_first()[i - 1].key != key);
                }
            }
        }
    }
}

impl DuplicateMap {
    /// An empty index.
    pub fn new() -> (r: DuplicateMap)
        ensures
            map_view(r) == Seq::<GroupView>::empty(),
            map_wf(r),
    {
        let r = DuplicateMap { by_id: Vec::new(), pos_to_id: HashMap::new() };
        proof {
            assert(map_view(r) =~= Seq::<GroupView>::empty());
        }
        r
    }

    /// Whether some group already holds a record at byte position `pos`.
    pub fn contains_pos(&self, pos: usize) -> (r: bool)
        ensures
            r == self.pos_to_id@.contains_key(pos),
    {
        self.pos_to_id.contains_key(&pos)
    }

    /// Records the identifier and position of one index row: the position is
    /// appended to the identifier's group, or a new group is opened at the
    /// end; the reverse map learns the position.
    pub fn insert(&mut self, id: RecordIdentifier, rp: RecordPosition)
        requires
            map_wf(*old(self)),
            !old(self).pos_to_id@.contains_key(rp.pos),
        ensures
            map_wf(*final(self)),
            map_view(*final(self)) == spec_insert(map_view(*old(self)), id_key(id), rp),
            final(self).pos_to_id@.dom() == old(self).pos_to_id@.dom().insert(rp.pos),
    {
        let ghost gs0 = map_view(*old(self));
        let ghost key = id_key(id);
        proof {
            lemma_find_group_props(gs0, key);
        }
        let n = self.by_id.len();
        let mut i: usize = 0;
        while i < n
            invariant
                n == self.by_id@.len(),
                i <= n,
                *self == *old(self),
                gs0 == map_view(*self),
                key == id_key(id),
                map_wf(*old(self)),
                !old(self).pos_to_id@.contains_key(rp.pos),
                forall|j: int| 0 <= j < i ==> (#[trigger] gs0[j]).key != key,
            decreases n - i,
        {
            if self.by_id[i].id.same_as(&id) {
                proof {
                    lemma_find_group_props(gs0, key);
                    assert(gs0[i as int].key == key);
                    assert(find_group(gs0, key) == i) by {
                        if find_group(gs0, key) < 0 {
                            assert(gs0[i as int].key != key);
                        }
                        let f = find_group(gs0, key);
                        if f < i {
                            assert(gs0[f].key != key);
                        }
                        if f > i {
                            assert(gs0[i as int].key != key);
                        }
                    }
                }
                let grp = &mut self.by_id[i];
                grp.positions.push(rp);
                self.pos_to_id.insert(rp.pos, i);
                proof {
                    let gs1 = map_view(*self);
                    assert(gs1 =~= spec_insert(gs0, key, rp));
                    assert(final(self).pos_to_id@.dom() =~= old(self).pos_to_id@.dom().insert(
                        rp.pos,
                    ));
                    assert(map_wf(*self)) by {
                        lemma_insert_existing_wf(*old(self), *self, i, rp);
                    }
                }
                return ;
            }
            i = i + 1;
        }
        proof {
            assert(find_group(gs0, key) < 0) by {
                if find_group(gs0, key) >= 0 {
                    assert(gs0[find_group(gs0, key)].key == key);
                }
            }
        }
        let idx = self.by_id.len();
        self.by_id.push(IdGroup { id, positions: vec![rp] });
        self.pos_to_id.insert(rp.pos, idx);
        proof {
            let gs1 = map_view(*self);
            assert(self.by_id@[idx as int].positions@ =~= seq![rp]);
            assert(gs1 =~= spec_insert(gs0, key, rp));
            assert(final(self).pos_to_id@.dom() =~= old(self).pos_to_id@.dom().insert(rp.pos));
            assert(map_wf(*self)) by {
                lemma_insert_new_wf(
                    *old(self),
                    *self,
                    rp,
                    GroupView { key, positions: seq![rp] },
                    idx,
                );
            }
        }
    }

    /// The positions of the group with this identifier, if any.
    pub fn records_by_id(&self, id: &RecordIdentifier) -> (r: Option<&Vec<RecordPosition>>)
        requires
            map_wf(*self),
        ensures
            ({
                let g = find_group(map_view(*self), id_key(*id));
                match r {
                    Some(v) => g >= 0 && v@ == map_view(*self)[g].positions,
                    None => g < 0,
                }
            }),
    {
        let ghost gs = map_view(*self);
        let ghost key = id_key(*id);
        proof {
            lemma_find_group_props(gs, key);
        }
        let n = self.by_id.len();
        let mut i: usize = 0;
        while i < n
            invariant
                n == self.by_id@.len(),
                gs == map_view(*self),
                key == id_key(*id),
                map_wf(*self),
                i <= n,
                forall|j: int| 0 <= j < i ==> (#[trigger] gs[j]).key != key,
            decreases n - i,
        {
            if self.by_id[i].id.same_as(id) {
                proof {
                    lemma_find_group_props(gs, key);
                    let f = find_group(gs, key);
                    if f < 0 {
                        assert(gs[i as int].key != key);
                    }
                    if f < i {
                        assert(gs[f].key != key);
                    }
                    if f > i {
                        assert(gs[i as int].key != key);
                    }
                }
                return Some(&self.by_id[i].positions);
            }
            i = i + 1;
        }
        proof {
            if find_group(gs, key) >= 0 {
                assert(gs[find_group(gs, key)].key == key);
            }
        }
        None
    }

    /// The positions of the group holding a record at byte position `pos`,
    /// if any.
    pub fn records_by_pos(&self, pos: usize) -> (r: Option<&Vec<RecordPosition>>)
        requires
            map_wf(*self),
        ensures
            ({
                let gs = map_view(*self);
                match r {
                    Some(v) => self.pos_to_id@.contains_key(pos) && v@ == gs[self.pos_to_id@[pos] as int].positions,
                    None => !self.pos_to_id@.contains_key(pos),
                }
            }),
    {
        match self.pos_to_id.get(&pos) {
            None => None,
            Some(idx_ref) => {
                let idx = *idx_ref;
                proof {
                    let gs = map_view(*self);
                    assert(exists|i: int, k: int|
                        0 <= i < gs.len() && 0 <= k < gs[i].positions.len() && (
                        #[trigger] gs[i].positions[k]).pos == pos);
                    let (i, k): (int, int) = choose|i: int, k: int|
                        0 <= i < gs.len() && 0 <= k < gs[i].positions.len() && (
                        #[trigger] gs[i].positions[k]).pos == pos;
                    assert(self.pos_to_id@[gs[i].positions[k].pos] == i);
                    assert(idx == i);
                }
                Some(&self.by_id[idx].positions)
            },
        }
    }

    /// The number of groups.
    pub fn len(&self) -> (r: usize)
        ensures
            r == map_view(*self).len(),
    {
        self.by_id.len()
    }
}

/// Partition law: in a well-formed duplicate index the groups are pairwise
/// disjoint, no group repeats a position, and the groups together cover
/// exactly the positions that the reverse map knows — so every recorded
/// position lies in exactly one group, exactly once.
pub proof fn lemma_groups_partition(m: DuplicateMap)
    requires
        map_wf(m),
    ensures
        forall|i: int, j: int, k1: int, k2: int|
            0 <= i < j < map_view(m).len() && 0 <= k1 < map_view(m)[i].positions.len() && 0 <= k2
                < map_view(m)[j].positions.len() ==> (#[trigger] map_view(
                m,
            )[i].positions[k1]).pos != (#[trigger] map_view(m)[j].positions[k2]).pos,
        forall|i: int, k1: int, k2: int|
            0 <= i < map_view(m).len() && 0 <= k1 < k2 < map_view(m)[i].positions.len() ==> (
            #[trigger] map_view(m)[i].positions[k1]).pos != (#[trigger] map_view(
                m,
            )[i].positions[k2]).pos,
        forall|p: usize|
            m.pos_to_id@.contains_key(p) <==> exists|i: int, k: int|
                0 <= i < map_view(m).len() && 0 <= k < map_view(m)[i].positions.len() && (
                #[trigger] map_view(m)[i].positions[k]).pos == p,
{
    let gs = map_view(m);
    assert forall|i: int, j: int, k1: int, k2: int|
        0 <= i < j < gs.len() && 0 <= k1 < gs[i].positions.len() && 0 <= k2
            < gs[j].positions.len() implies (#[trigger] gs[i].positions[k1]).pos != (
    #[trigger] gs[j].positions[k2]).pos by {
        if gs[i].positions[k1].pos == gs[j].positions[k2].pos {
            assert(m.pos_to_id@[gs[i].positions[k1].pos] == i);
            assert(m.pos_to_id@[gs[j].positions[k2].pos] == j);
        }
    }
    assert forall|p: usize|
        m.pos_to_id@.contains_key(p) <== exists|i: int, k: int|
            0 <= i < gs.len() && 0 <= k < gs[i].positions.len() && (#[trigger] gs[i].positions[k]).pos
                == p by {
        if exists|i: int, k: int|
            0 <= i < gs.len() && 0 <= k < gs[i].positions.len() && (#[trigger] gs[i].positions[k]).pos
                == p {
            let (i, k): (int, int) = choose|i: int, k: int|
                0 <= i < gs.len() && 0 <= k < gs[i].positions.len() && (
                #[trigger] gs[i].positions[k]).pos == p;
            assert(m.pos_to_id@.contains_key(gs[i].positions[k].pos));
        }
    }
}

/// Appending a fresh position to an existing group keeps the index well
/// formed.
proof fn lemma_insert_existing_wf(m0: DuplicateMap, m1: DuplicateMap, g: usize, rp: RecordPosition)
    requires
        map_wf(m0),
        !m0.pos_to_id@.contains_key(rp.pos),
        g < map_view(m0).len(),
        map_view(m1) == map_view(m0).update(
            g as int,
            GroupView {
                key: map_view(m0)[g as int].key,
                positions: map_view(m0)[g as int].positions.push(rp),
            },
        ),
        m1.pos_to_id@ == m0.pos_to_id@.insert(rp.pos, g),
    ensures
        map_wf(m1),
{
    let gs0 = map_view(m0);
    let gs1 = map_view(m1);
    assert forall|i: int, k: int|
        0 <= i < gs1.len() && 0 <= k < gs1[i].positions.len() implies {
        &&& m1.pos_to_id@.contains_key(#[trigger] gs1[i].positions[k].pos)
        &&& m1.pos_to_id@[gs1[i].positions[k].pos] == i
    } by {
        if i == g as int {
            assert(gs1[g as int].positions == gs0[g as int].positions.push(rp));
        }
        if i == g as int && k == gs1[i].positions.len() - 1 {
            assert(gs1[i].positions[k] == rp);
            assert(m1.pos_to_id@[rp.pos] == g);
        } else {
            assert(gs1[i].positions[k] == gs0[i].positions[k]);
            assert(m0.pos_to_id@.contains_key(gs0[i].positions[k].pos));
            assert(gs1[i].positions[k].pos != rp.pos);
        }
    }
    assert forall|p: usize| m1.pos_to_id@.contains_key(p) implies exists|i: int, k: int|
        0 <= i < gs1.len() && 0 <= k < gs1[i].positions.len() && (#[trigger] gs1[i].positions[k]).pos
            == p by {
        if p == rp.pos {
            let k = gs1[g as int].positions.len() - 1;
            assert(0 <= g < gs1.len() && 0 <= k < gs1[g as int].positions.len() && gs1[g as int].positions[k].pos
                == p);
        } else {
            assert(m0.pos_to_id@.contains_key(p));
            let (i, k): (int, int) = choose|i: int, k: int|
                0 <= i < gs0.len() && 0 <= k < gs0[i].positions.len() && (
                #[trigger] gs0[i].positions[k]).pos == p;
            assert(0 <= i < gs1.len() && 0 <= k < gs1[i].positions.len() && gs1[i].positions[k].pos
                == p);
        }
    }
    assert forall|i: int, k1: int, k2: int|
        0 <= i < gs1.len() && 0 <= k1 < k2 < gs1[i].positions.len() implies (
    #[trigger] gs1[i].positions[k1]).pos != (#[trigger] gs1[i].positions[k2]).pos by {
        if i == g as int && k2 == gs1[i].positions.len() - 1 {
            assert(gs1[i].positions[k1] == gs0[i].positions[k1]);
            assert(m0.pos_to_id@.contains_key(gs0[i].positions[k1].pos));
        } else {
            assert(gs1[i].positions[k1] == gs0[i].positions[k1]);
            assert(gs1[i].positions[k2] == gs0[i].positions[k2]);
        }
    }
}

/// Opening a new group for a fresh position keeps the index well formed.
proof fn lemma_insert_new_wf(
    m0: DuplicateMap,
    m1: DuplicateMap,
    rp: RecordPosition,
    gv: GroupView,
    idx: usize,
)
    requires
        map_wf(m0),
        !m0.pos_to_id@.contains_key(rp.pos),
        idx == map_view(m0).len(),
        find_group(map_view(m0), gv.key) < 0,
        gv.positions == seq![rp],
        map_view(m1) == map_view(m0).push(gv),
        m1.pos_to_id@ == m0.pos_to_id@.insert(rp.pos, idx),
    ensures
        map_wf(m1),
{
    let gs0 = map_view(m0);
    let gs1 = map_view(m1);
    let n = idx as int;
    lemma_find_group_props(gs0, gv.key);
    assert forall|i: int, j: int| 0 <= i < j < gs1.len() implies (#[trigger] gs1[i].key) != (
    #[trigger] gs1[j].key) by {
        if j == n {
            assert(gs1[i].key == gs0[i].key);
        }
    }
    assert forall|i: int, k: int|
        0 <= i < gs1.len() && 0 <= k < gs1[i].positions.len() implies {
        &&& m1.pos_to_id@.contains_key(#[trigger] gs1[i].positions[k].pos)
        &&& m1.pos_to_id@[gs1[i].positions[k].pos] == i
    } by {
        if i < n {
            assert(gs1[i] == gs0[i]);
            assert(gs1[i].positions[k] == gs0[i].positions[k]);
            assert(m0.pos_to_id@.contains_key(gs0[i].positions[k].pos));
            assert(gs1[i].positions[k].pos != rp.pos);
            assert(m1.pos_to_id@[gs1[i].positions[k].pos] == m0.pos_to_id@[gs0[i].positions[k].pos]);
        } else {
            assert(i == n);
            assert(gs1[n].positions == seq![rp]);
            assert(k == 0);
            assert(gs1[i].positions[k] == rp);
            assert(m1.pos_to_id@[rp.pos] == idx);
        }
    }
    assert forall|p: usize| m1.pos_to_id@.contains_key(p) implies exists|i: int, k: int|
        0 <= i < gs1.len() && 0 <= k < gs1[i].positions.len() && (#[trigger] gs1[i].positions[k]).pos
            == p by {
        if p == rp.pos {
            assert(0 <= n < gs1.len() && 0 <= 0 < gs1[n].positions.len() + 1 && gs1[n].positions[0].pos
                == p);
            assert(gs1[n].positions.len() == 1);
        } else {
            assert(m0.pos_to_id@.contains_key(p));
            let (i, k): (int, int) = choose|i: int, k: int|
                0 <= i < gs0.len() && 0 <= k < gs0[i].positions.len() && (
                #[trigger] gs0[i].positions[k]).pos == p;
            assert(gs1[i].positions == gs0[i].positions);
            assert(0 <= i < gs1.len() && 0 <= k < gs1[i].positions.len() && gs1[i].positions[k].pos
                == p);
        }
    }
    assert forall|i: int, k1: int, k2: int|
        0 <= i < gs1.len() && 0 <= k1 < k2 < gs1[i].positions.len() implies (
    #[trigger] gs1[i].positions[k1]).pos != (#[trigger] gs1[i].positions[k2]).pos by {
        if i < n {
            assert(gs1[i].positions[k1] == gs0[i].positions[k1]);
            assert(gs1[i].positions[k2] == gs0[i].positions[k2]);
        }
    }
}

} // verus!
