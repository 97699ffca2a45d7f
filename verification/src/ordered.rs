//! Order recovery for results computed out of order: a fixed-capacity
//! circular buffer that accepts `(index, value)` pairs in any arrival order
//! within its window and emits values in strict index order.

use vstd::prelude::*;
use vstd::pervasive::VecAdditionalExecFns;

verus! {

/// A fixed-size reorder buffer with capacity `C = slots.len()`. Producers
/// may run ahead of the emission point by at most `C` indices — the caller
/// enforces that backpressure — and each index is inserted exactly once.
/// Emission drains every contiguous run of present indices as soon as it
/// forms, so the buffer never holds more than `C` values.
pub struct ReorderBuffer<T> {
    /// One slot per in-flight index; index `i` lives in slot `i % C`.
    pub slots: Vec<Option<T>>,
    /// The next index to emit: everything below it has been emitted.
    pub next_to_emit: usize,
    /// All values emitted so far, in emission order.
    pub history: Ghost<Seq<T>>,
    /// Every `(index, value)` pair ever inserted.
    pub assigned: Ghost<Map<int, T>>,
}

impl<T> ReorderBuffer<T> {
    /// The capacity: the size of the in-flight window.
    pub open spec fn capacity(&self) -> nat {
        self.slots@.len()
    }

    /// The buffer invariant: emitted values are exactly the inserted values
    /// of the indices below `next_to_emit`, in index order, and every
    /// occupied slot holds the inserted value of one in-window index.
    pub open spec fn wf(&self) -> bool {
        let c = self.capacity() as int;
        let next = self.next_to_emit as int;
        &&& c >= 1
        &&& self.history@.len() == next
        &&& forall|k: int|
            #![trigger self.history@[k]]
            #![trigger self.assigned@.contains_key(k)]
            0 <= k < next ==> self.assigned@.contains_key(k) && self.history@[k]
                == self.assigned@[k]
        &&& forall|i: int|
            #[trigger] self.assigned@.contains_key(i) ==> 0 <= i && (i < next || (i < next + c
                && self.slots@[i % c] == Some(self.assigned@[i])))
        &&& forall|j: int|
            0 <= j < c && (#[trigger] self.slots@[j]) is Some ==> exists|i: int|
                #[trigger] self.assigned@.contains_key(i) && next <= i < next + c && i % c == j
        &&& !self.assigned@.contains_key(next)
    }

    /// An empty buffer of the given capacity.
    pub fn new(capacity: usize) -> (r: ReorderBuffer<T>)
        requires
            capacity >= 1,
        ensures
            r.wf(),
            r.capacity() == capacity,
            r.next_to_emit == 0,
            r.history@ == Seq::<T>::empty(),
            r.assigned@ == Map::<int, T>::empty(),
    {
        let mut slots: Vec<Option<T>> = Vec::new();
        let mut i: usize = 0;
        while i < capacity
            invariant
                i <= capacity,
                slots@.len() == i,
                forall|j: int| 0 <= j < i ==> (#[trigger] slots@[j]) is None,
            decreases capacity - i,
        {
            slots.push(None);
            i = i + 1;
        }
        ReorderBuffer {
            slots,
            next_to_emit: 0,
            history: Ghost(Seq::empty()),
            assigned: Ghost(Map::empty()),
        }
    }

    /// Accepts the value computed for index `i` and drains the contiguous
    /// run of present indices starting at the emission point, returning the
    /// drained values in index order. The caller keeps producers within the
    /// window: `i` lies less than one capacity ahead of the emission point,
    /// and is inserted only once.
    #[verifier::rlimit(100)]
    pub fn insert(&mut self, i: usize, v: T) -> (drained: Vec<T>)
        requires
            old(self).wf(),
            old(self).next_to_emit <= i,
            (i as int) < old(self).next_to_emit + old(self).capacity(),
            !old(self).assigned@.contains_key(i as int),
            (i as int) + old(self).capacity() < usize::MAX,
        ensures
            final(self).wf(),
            final(self).capacity() == old(self).capacity(),
            final(self).assigned@ == old(self).assigned@.insert(i as int, v),
            final(self).history@ == old(self).history@ + drained@,
            final(self).next_to_emit == old(self).next_to_emit + drained@.len(),
            (drained@.len() >= 1) == (i == old(self).next_to_emit),
            forall|k: int|
                0 <= k < drained@.len() ==> #[trigger] drained@[k] == final(self).assigned@[old(
                    self,
                ).next_to_emit + k],
    {
        let c = self.slots.len();
        let ghost m0 = old(self).assigned@.insert(i as int, v);
        self.slots.set(i % c, Some(v));
        proof {
            self.assigned@ = m0;
            lemma_mod_window(i as int, self.next_to_emit as int, c as int);
            assert forall|ii: int|
                #[trigger] self.assigned@.contains_key(ii) implies 0 <= ii && (ii
                < self.next_to_emit || (ii < self.next_to_emit + c && self.slots@[ii % (c as int)] == Some(
                self.assigned@[ii],
            ))) by {
                if ii != i {
                    assert(old(self).assigned@.contains_key(ii));
                    if ii >= self.next_to_emit {
                        lemma_mod_window(ii, self.next_to_emit as int, c as int);
                        if ii % (c as int) == (i as int) % (c as int) {
                            lemma_mod_window_eq(ii, i as int, self.next_to_emit as int, c as int);
                        }
                    }
                }
            }
            assert forall|j: int|
                0 <= j < c && (#[trigger] self.slots@[j]) is Some implies exists|ii: int|
                #[trigger] self.assigned@.contains_key(ii) && self.next_to_emit <= ii
                    < self.next_to_emit + c && ii % (c as int) == j by {
                if j == (i as int) % (c as int) {
                    assert(self.assigned@.contains_key(i as int) && self.next_to_emit <= i
                        < self.next_to_emit + c && (i as int) % (c as int) == j);
                } else {
                    assert(old(self).slots@[j] == self.slots@[j]);
                    let ii = choose|ii: int|
                        #[trigger] old(self).assigned@.contains_key(ii) && old(self).next_to_emit
                            <= ii < old(self).next_to_emit + c && ii % (c as int) == j;
                    assert(self.assigned@.contains_key(ii));
                }
            }
        }
        proof {
            assert forall|kk: int|
                #![trigger self.history@[kk]]
                #![trigger self.assigned@.contains_key(kk)]
                0 <= kk < self.next_to_emit implies self.assigned@.contains_key(kk)
                && self.history@[kk] == self.assigned@[kk] by {
                assert(kk != i);
                assert(old(self).history@[kk] == old(self).assigned@[kk]);
                assert(old(self).assigned@.contains_key(kk));
            }
            assert forall|ii: int|
                #[trigger] self.assigned@.contains_key(ii) implies ii < self.next_to_emit
                + c by {
                if ii != i {
                    assert(old(self).assigned@.contains_key(ii));
                }
            }
            assert(self.history@ =~= old(self).history@ + Seq::<T>::empty());
        }
        let mut drained: Vec<T> = Vec::new();
        let mut k: usize = 0;
        let ghost base = old(self).next_to_emit as int;
        while k < c
            invariant
                c == self.capacity(),
                c == old(self).capacity(),
                c >= 1,
                base == old(self).next_to_emit,
                base + c < usize::MAX,
                forall|ii: int| #[trigger] self.assigned@.contains_key(ii) ==> ii < base + c,
                self.next_to_emit == base + k,
                drained@.len() == k,
                self.assigned@ == m0,
                m0 == old(self).assigned@.insert(i as int, v),
                base <= i < base + c,
                self.history@ == old(self).history@ + drained@,
                forall|kk: int|
                    0 <= kk < k ==> #[trigger] drained@[kk] == self.assigned@[base + kk],
                k >= 1 ==> i == base,
                k == 0 && i != base ==> !self.assigned@.contains_key(base),
                self.history@.len() == self.next_to_emit,
                forall|kk: int|
                    #![trigger self.history@[kk]]
                    #![trigger self.assigned@.contains_key(kk)]
                    0 <= kk < self.next_to_emit ==> self.assigned@.contains_key(kk)
                        && self.history@[kk] == self.assigned@[kk],
                forall|ii: int|
                    #[trigger] self.assigned@.contains_key(ii) ==> 0 <= ii && (ii
                        < self.next_to_emit || (ii < self.next_to_emit + c && self.slots@[ii % (c as int)]
                        == Some(self.assigned@[ii]))),
                forall|j: int|
                    0 <= j < c && (#[trigger] self.slots@[j]) is Some ==> exists|ii: int|
                        #[trigger] self.assigned@.contains_key(ii) && self.next_to_emit <= ii
                            < self.next_to_emit + c && ii % (c as int) == j,
            decreases c - k,
        {
            let next0 = self.next_to_emit;
            let j = next0 % c;
            proof {
                lemma_mod_window(next0 as int, next0 as int, c as int);
            }
            let present = match &self.slots[j] {
                None => false,
                Some(_) => true,
            };
            if !present {
                proof {
                    assert(!self.assigned@.contains_key(next0 as int)) by {
                        if self.assigned@.contains_key(next0 as int) {
                            assert(self.slots@[(next0 as int) % (c as int)] == Some(
                                self.assigned@[next0 as int],
                            ));
                        }
                    }
                    if k == 0 {
                        assert(i != base) by {
                            if i == base {
                                assert(self.assigned@.contains_key(base));
                            }
                        }
                    }
                }
                return drained;
            }
            // identify the occupant: the only in-window index congruent to j
            proof {
                let ii = choose|ii: int|
                    #[trigger] self.assigned@.contains_key(ii) && next0 <= ii < next0 + c && ii % (c as int) == j;
                lemma_mod_window_eq(ii, next0 as int, next0 as int, c as int);
                assert(self.assigned@.contains_key(next0 as int));
                assert(self.slots@[j as int] == Some(self.assigned@[next0 as int]));
            }
            let mut taken: Option<T> = None;
            self.slots.set_and_swap(j, &mut taken);
            let val = match taken {
                Some(val) => val,
                None => {
                    proof {
                        assert(false);
                    }
                    unreached()
                },
            };
            let ghost pre_hist = self.history@;
            let ghost pre_drained = drained@;
            drained.push(val);
            proof {
                self.history@ = self.history@.push(val);
                assert(self.history@ =~= old(self).history@ + drained@);
                assert(val == self.assigned@[next0 as int]);
            }
            self.next_to_emit = next0 + 1;
            proof {
                assert forall|kk: int|
                    #![trigger self.history@[kk]]
                    #![trigger self.assigned@.contains_key(kk)]
                    0 <= kk < self.next_to_emit implies self.assigned@.contains_key(kk)
                    && self.history@[kk] == self.assigned@[kk] by {
                    if kk < next0 {
                        assert(pre_hist[kk] == self.assigned@[kk]);
                        assert(self.history@[kk] == pre_hist[kk]);
                    } else {
                        assert(kk == next0);
                        assert(self.history@[kk] == val);
                    }
                }
                assert forall|kk: int|
                    0 <= kk < k + 1 implies #[trigger] drained@[kk] == self.assigned@[base
                    + kk] by {
                    if kk < k {
                        assert(pre_drained[kk] == self.assigned@[base + kk]);
                    }
                }
                assert forall|ii: int|
                    #[trigger] self.assigned@.contains_key(ii) implies 0 <= ii && (ii
                    < self.next_to_emit || (ii < self.next_to_emit + c && self.slots@[ii % (c as int)]
                    == Some(self.assigned@[ii]))) by {
                    if ii >= self.next_to_emit {
                        lemma_mod_window(ii, 0, c as int);
                        if ii % (c as int) == j as int {
                            lemma_mod_window_eq(ii, next0 as int, next0 as int, c as int);
                        }
                    }
                }
                assert forall|jj: int|
                    0 <= jj < c && (#[trigger] self.slots@[jj]) is Some implies exists|ii: int|
                    #[trigger] self.assigned@.contains_key(ii) && self.next_to_emit <= ii
                        < self.next_to_emit + c && ii % (c as int) == jj by {
                    assert(jj != j as int);
                    let ii = choose|ii: int|
                        #[trigger] self.assigned@.contains_key(ii) && next0 <= ii < next0 + c
                            && ii % (c as int) == jj;
                    assert(ii != next0);
                    assert(self.next_to_emit <= ii < self.next_to_emit + c);
                }
                if k == 0 {
                    assert(i == base) by {
                        if i != base {
                            assert(!self.assigned@.contains_key(base));
                        }
                    }
                }
            }
            k = k + 1;
        }
        drained
    }
}

/// In a window of length `c`, congruence modulo `c` pins the index down.
proof fn lemma_mod_window_eq(a: int, b: int, base: int, c: int)
    requires
        c >= 1,
        base <= a < base + c,
        base <= b < base + c,
        a % c == b % c,
    ensures
        a == b,
{
    vstd::arithmetic::div_mod::lemma_mod_equivalence(a, b, c);
    assert((a - b) % c == 0);
    vstd::arithmetic::div_mod::lemma_small_mod((if a >= b {
        a - b
    } else {
        b - a
    }) as nat, c as nat);
    if a != b {
        if a > b {
            assert((a - b) % c == a - b);
        } else {
            vstd::arithmetic::div_mod::lemma_mod_equivalence(b, a, c);
            assert((b - a) % c == b - a);
        }
    }
}

/// The window position of an in-window index is in range.
proof fn lemma_mod_window(i: int, base: int, c: int)
    requires
        c >= 1,
        0 <= i,
    ensures
        0 <= i % c < c,
{
    vstd::arithmetic::div_mod::lemma_mod_bound(i, c);
}

/// Ordered-emission law: whatever order results arrive in, the emission
/// history is exactly the inserted values of the indices below the emission
/// point, in index order — so a complete run of `n` results is always
/// emitted as values `0, 1, …, n-1` of the assignment, byte-identical
/// however the arrivals interleaved.
pub proof fn lemma_ordered_emission<T>(b: ReorderBuffer<T>)
    requires
        b.wf(),
    ensures
        b.history@.len() == b.next_to_emit,
        forall|k: int|
            #![trigger b.history@[k]]
            #![trigger b.assigned@.contains_key(k)]
            0 <= k < b.next_to_emit ==> b.assigned@.contains_key(k) && b.history@[k]
                == b.assigned@[k],
{
}

} // verus!
