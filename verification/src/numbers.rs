//! Decimal text for unsigned numbers, in both directions, as bytes.

use vstd::prelude::*;

verus! {

/// The decimal digits of `n`, most significant first, as ASCII bytes.
pub open spec fn dec_rep(n: nat) -> Seq<u8>
    decreases n,
{
    if n < 10 {
        seq![(48 + n) as u8]
    } else {
        dec_rep(n / 10) + seq![(48 + n % 10) as u8]
    }
}

/// Is `b` an ASCII decimal digit?
pub open spec fn is_digit(b: u8) -> bool {
    48 <= b <= 57
}

/// The number that a digit string denotes (most significant first).
pub open spec fn dec_val(s: Seq<u8>) -> nat
    decreases s.len(),
{
    if s.len() == 0 {
        0
    } else {
        dec_val(s.drop_last()) * 10 + (if s.last() >= 48 {
            (s.last() - 48) as nat
        } else {
            0
        })
    }
}

/// Every byte of `dec_rep(n)` is a digit, and the string is non-empty.
pub proof fn lemma_dec_rep_digits(n: nat)
    ensures
        dec_rep(n).len() >= 1,
        forall|i: int| 0 <= i < dec_rep(n).len() ==> is_digit(#[trigger] dec_rep(n)[i]),
    decreases n,
{
    if n >= 10 {
        lemma_dec_rep_digits(n / 10);
    }
}

/// Reading back the decimal digits of `n` gives `n`.
pub proof fn lemma_dec_round_trip(n: nat)
    ensures
        dec_val(dec_rep(n)) == n,
    decreases n,
{
    if n < 10 {
        let s = dec_rep(n);
        assert(s =~= seq![(48 + n) as u8]);
        assert(s.len() == 1);
        assert(s.last() == (48 + n) as u8);
        assert((48 + n) as u8 == 48 + n);
        assert(s.drop_last().len() == 0);
        assert(dec_val(s.drop_last()) == 0);
        assert(dec_val(s) == dec_val(s.drop_last()) * 10 + ((s.last() - 48) as nat));
    } else {
        lemma_dec_round_trip(n / 10);
        assert(dec_rep(n).drop_last() =~= dec_rep(n / 10));
        assert(dec_rep(n).last() == (48 + n % 10) as u8);
        assert(dec_val(dec_rep(n)) == (n / 10) * 10 + n % 10);
        assert((n / 10) * 10 + n % 10 == n) by (nonlinear_arith);
    }
}

/// Appending one digit shifts the value by one decimal place.
pub proof fn lemma_dec_val_push(s: Seq<u8>, b: u8)
    requires
        is_digit(b),
    ensures
        dec_val(s.push(b)) == dec_val(s) * 10 + (b - 48),
{
    assert(s.push(b).drop_last() =~= s);
}

/// The digits of `n`, as an exec byte vector.
pub fn u64_to_dec(n: u64) -> (r: Vec<u8>)
    ensures
        r@ == dec_rep(n as nat),
{
    let mut digits_rev: Vec<u8> = Vec::new();
    let mut m: u64 = n;
    loop
        invariant_except_break
            dec_rep(n as nat) == dec_rep(m as nat) + digits_rev@.reverse(),
        ensures
            dec_rep(n as nat) == digits_rev@.reverse(),
        decreases m,
    {
        let ghost pre = digits_rev@;
        let d: u8 = (m % 10) as u8;
        digits_rev.push(48 + d);
        proof {
            assert(digits_rev@.reverse() =~= seq![(48 + d) as u8] + pre.reverse());
        }
        if m < 10 {
            proof {
                assert(dec_rep(m as nat) =~= seq![(48 + d) as u8]);
                assert(dec_rep(n as nat) =~= digits_rev@.reverse());
            }
            break;
        }
        proof {
            assert(dec_rep(m as nat) =~= dec_rep((m / 10) as nat) + seq![(48 + d) as u8]);
            assert(dec_rep((m / 10) as nat) + (seq![(48 + d) as u8] + pre.reverse()) =~= dec_rep(
                (m / 10) as nat,
            ) + seq![(48 + d) as u8] + pre.reverse());
        }
        m = m / 10;
    }
    let mut r: Vec<u8> = Vec::new();
    let mut i: usize = digits_rev.len();
    while i > 0
        invariant
            i <= digits_rev.len(),
            r@ == digits_rev@.subrange(i as int, digits_rev@.len() as int).reverse(),
        decreases i,
    {
        let ghost pre = r@;
        i = i - 1;
        r.push(digits_rev[i]);
        proof {
            assert(digits_rev@.subrange(i as int, digits_rev@.len() as int).reverse() =~= pre.push(
                digits_rev@[i as int],
            ));
        }
    }
    proof {
        assert(digits_rev@.subrange(0, digits_rev@.len() as int) =~= digits_rev@);
        assert(r@ =~= digits_rev@.reverse());
        assert(dec_rep(n as nat) =~= r@);
    }
    r
}

/// Parses `s[from..to)` as a decimal number; `None` when the range is empty,
/// holds a non-digit, or the value does not fit in `u64`.
pub fn parse_dec(s: &[u8], from: usize, to: usize) -> (r: Option<u64>)
    requires
        from <= to <= s@.len(),
    ensures
        match r {
            Some(v) => {
                &&& to > from
                &&& forall|i: int| from <= i < to ==> is_digit(#[trigger] s@[i])
                &&& v as nat == dec_val(s@.subrange(from as int, to as int))
                &&& dec_val(s@.subrange(from as int, to as int)) <= u64::MAX
            },
            None => {
                ||| to == from
                ||| exists|i: int| from <= i < to && !is_digit(#[trigger] s@[i])
                ||| dec_val(s@.subrange(from as int, to as int)) > u64::MAX
            },
        },
{
    if to == from {
        return None;
    }
    let mut v: u64 = 0;
    let mut i: usize = from;
    while i < to
        invariant
            from <= i <= to <= s@.len(),
            forall|j: int| from <= j < i ==> is_digit(#[trigger] s@[j]),
            v as nat == dec_val(s@.subrange(from as int, i as int)),
        decreases to - i,
    {
        let b = s[i];
        if b < 48 || b > 57 {
            return None;
        }
        let d: u64 = (b - 48) as u64;
        if v > (u64::MAX - d) / 10 {
            proof {
                lemma_dec_val_push(s@.subrange(from as int, i as int), b);
                assert(s@.subrange(from as int, i as int + 1) =~= s@.subrange(
                    from as int,
                    i as int,
                ).push(b));
                assert(dec_val(s@.subrange(from as int, i as int + 1)) > u64::MAX);
                if forall|j: int| from <= j < to ==> is_digit(#[trigger] s@[j]) {
                    lemma_dec_val_prefix_monotone(s@, from as int, i as int + 1, to as int);
                }
            }
            return None;
        }
        proof {
            lemma_dec_val_push(s@.subrange(from as int, i as int), b);
            assert(s@.subrange(from as int, i as int + 1) =~= s@.subrange(from as int, i as int)
                .push(b));
        }
        v = v * 10 + d;
        i = i + 1;
    }
    proof {
        assert(s@.subrange(from as int, i as int) =~= s@.subrange(from as int, to as int));
    }
    Some(v)
}

/// A digit string's value only grows as the string is extended.
pub proof fn lemma_dec_val_prefix_monotone(s: Seq<u8>, from: int, mid: int, to: int)
    requires
        0 <= from <= mid <= to <= s.len(),
        forall|i: int| from <= i < to ==> is_digit(#[trigger] s[i]),
    ensures
        dec_val(s.subrange(from, mid)) <= dec_val(s.subrange(from, to)),
    decreases to - mid,
{
    if mid < to {
        lemma_dec_val_prefix_monotone(s, from, mid + 1, to);
        lemma_dec_val_push(s.subrange(from, mid), s[mid]);
        assert(s.subrange(from, mid + 1) =~= s.subrange(from, mid).push(s[mid]));
        assert(dec_val(s.subrange(from, mid)) <= dec_val(s.subrange(from, mid + 1)));
    } else {
        assert(s.subrange(from, mid) =~= s.subrange(from, to));
    }
}

} // verus!
