//! Record identifiers: the barcode "head" and UMI "tail" of a read id.

use vstd::prelude::*;
use vstd::string::*;

verus! {

/// A record identifier with a head (barcode) part and a tail (UMI) part.
pub struct RecordIdentifier {
    pub head: String,
    pub tail: String,
}

/// The (head, tail) character pair of an identifier; two identifiers are the
/// same exactly when their keys agree.
pub open spec fn id_key(id: RecordIdentifier) -> (Seq<char>, Seq<char>) {
    (id.head@, id.tail@)
}

/// Position of the first `'_'` in `s`, or `-1` when there is none.
pub open spec fn first_underscore(s: Seq<char>) -> int
    decreases s.len(),
{
    if s.len() == 0 {
        -1
    } else if s[0] == '_' {
        0
    } else {
        let r = first_underscore(s.drop_first());
        if r < 0 {
            -1
        } else {
            r + 1
        }
    }
}

/// The head that parsing yields: everything before the first underscore, or
/// the whole string when there is none.
pub open spec fn split_head(s: Seq<char>) -> Seq<char> {
    let i = first_underscore(s);
    if i < 0 {
        s
    } else {
        s.take(i)
    }
}

/// The tail that parsing yields: everything after the first underscore, or
/// empty when there is none.
pub open spec fn split_tail(s: Seq<char>) -> Seq<char> {
    let i = first_underscore(s);
    if i < 0 {
        Seq::empty()
    } else {
        s.skip(i + 1)
    }
}

/// The characters of the canonical text form of an identifier: the head
/// alone when the tail is empty, otherwise head, `'_'`, tail.
pub open spec fn id_chars(id: RecordIdentifier) -> Seq<char> {
    if id.tail@.len() == 0 {
        id.head@
    } else {
        id.head@ + seq!['_'] + id.tail@
    }
}

proof fn first_underscore_props(s: Seq<char>)
    ensures
        first_underscore(s) >= 0 ==> {
            &&& first_underscore(s) < s.len()
            &&& s[first_underscore(s)] == '_'
            &&& forall|j: int| 0 <= j < first_underscore(s) ==> s[j] != '_'
        },
        first_underscore(s) < 0 ==> forall|j: int| 0 <= j < s.len() ==> s[j] != '_',
    decreases s.len(),
{
    if s.len() > 0 && s[0] != '_' {
        first_underscore_props(s.drop_first());
        let r = first_underscore(s.drop_first());
        if r >= 0 {
            assert forall|j: int| 0 <= j < r + 1 implies s[j] != '_' by {
                if j > 0 {
                    assert(s.drop_first()[j - 1] != '_');
                }
            }
        } else {
            assert forall|j: int| 0 <= j < s.len() implies s[j] != '_' by {
                if j > 0 {
                    assert(s.drop_first()[j - 1] != '_');
                }
            }
        }
    }
}

/// A witness position of `'_'` pins `first_underscore` down.
proof fn lemma_first_underscore_at(s: Seq<char>, i: int)
    requires
        0 <= i < s.len(),
        s[i] == '_',
        forall|j: int| 0 <= j < i ==> s[j] != '_',
    ensures
        first_underscore(s) == i,
{
    first_underscore_props(s);
    let r = first_underscore(s);
    if r < 0 {
        assert(s[i] != '_');
    }
    if r < i {
        assert(s[r] != '_');
    }
    if r > i {
        assert(s[i] != '_');
    }
}

impl RecordIdentifier {
    /// Parses an identifier by splitting `s` at its first underscore; when
    /// there is no underscore the whole string becomes the head and the tail
    /// is empty.
    pub fn from_string(s: &str) -> (r: RecordIdentifier)
        ensures
            r.head@ == split_head(s@),
            r.tail@ == split_tail(s@),
    {
        let n = s.unicode_len();
        let mut i: usize = 0;
        let mut found: bool = false;
        while i < n && !found
            invariant
                n == s@.len(),
                i <= n,
                !found ==> forall|j: int| 0 <= j < i ==> s@[j] != '_',
                found ==> i < n && s@[i as int] == '_' && (forall|j: int|
                    0 <= j < i ==> s@[j] != '_'),
            decreases n - i, (if found { 0int } else { 1int }),
        {
            if s.get_char(i) == '_' {
                found = true;
            } else {
                i = i + 1;
            }
        }
        proof {
            if found {
                lemma_first_underscore_at(s@, i as int);
            } else {
                first_underscore_props(s@);
                if first_underscore(s@) >= 0 {
                    assert(s@[first_underscore(s@)] != '_');
                }
            }
        }
        if found {
            let head = s.substring_char(0, i);
            let tail = s.substring_char(i + 1, n);
            RecordIdentifier { head: String::from_str(head), tail: String::from_str(tail) }
        } else {
            RecordIdentifier { head: String::from_str(s), tail: String::new() }
        }
    }

    /// The canonical text form; parsing it recovers the identifier (see
    /// `lemma_id_round_trip`).
    pub fn to_text(&self) -> (r: String)
        ensures
            r@ == id_chars(*self),
    {
        if self.tail.as_str().unicode_len() == 0 {
            let r = self.head.clone();
            assert(id_chars(*self) =~= self.head@);
            r
        } else {
            let mut r = self.head.clone();
            r.append("_");
            proof {
                reveal_strlit("_");
            }
            r.append(self.tail.as_str());
            assert(r@ =~= id_chars(*self));
            r
        }
    }

    /// A field-for-field copy.
    pub fn duplicate(&self) -> (r: RecordIdentifier)
        ensures
            id_key(r) == id_key(*self),
    {
        RecordIdentifier { head: self.head.clone(), tail: self.tail.clone() }
    }

    /// Field equality on (head, tail).
    pub fn same_as(&self, other: &RecordIdentifier) -> (r: bool)
        ensures
            r == (id_key(*self) == id_key(*other)),
    {
        let r = self.head == other.head && self.tail == other.tail;
        if r {
            assert(id_key(*self) == id_key(*other));
        } else {
            assert(id_key(*self) != id_key(*other));
        }
        r
    }
}

/// Round trip: parsing the canonical text form recovers the identifier
/// exactly, as long as the head holds no underscore.
pub proof fn lemma_id_round_trip(id: RecordIdentifier)
    requires
        forall|j: int| 0 <= j < id.head@.len() ==> id.head@[j] != '_',
    ensures
        split_head(id_chars(id)) == id.head@,
        split_tail(id_chars(id)) == id.tail@,
{
    let s = id_chars(id);
    if id.tail@.len() == 0 {
        first_underscore_props(s);
        if first_underscore(s) >= 0 {
            assert(s[first_underscore(s)] != '_');
        }
        assert(split_tail(s) =~= id.tail@);
    } else {
        let h = id.head@.len() as int;
        assert(s[h] == '_');
        assert forall|j: int| 0 <= j < h implies s[j] != '_' by {
            assert(s[j] == id.head@[j]);
        }
        lemma_first_underscore_at(s, h);
        assert(s.take(h) =~= id.head@);
        assert(s.skip(h + 1) =~= id.tail@);
    }
}

} // verus!
