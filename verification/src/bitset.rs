//! Bitsets over `u64` words: membership, emptiness, population count, bitwise
//! combination and the ordered list of members.
use vstd::prelude::*;

verus! {

/// Whether bit `b` of `w` is set.
pub open spec fn bit(w: u64, b: u64) -> bool {
    (w >> b) & 1u64 == 1u64
}

/// Whether `i` is a member of the bitset `bs` (word `i / 64`, bit `i % 64`).
pub open spec fn bs_has(bs: Seq<u64>, i: int) -> bool {
    0 <= i && i < bs.len() * 64 && bit(bs[i / 64], (i % 64) as u64)
}

/// The members of a bitset.
pub open spec fn members(bs: Seq<u64>) -> Set<int> {
    Set::new(|i: int| bs_has(bs, i))
}

/// The members of a bitset form a finite set of at most `64 * len` elements.
pub proof fn lemma_members_finite(bs: Seq<u64>)
    ensures
        members(bs).finite(),
        members(bs).subset_of(vstd::set_lib::set_int_range(0, bs.len() * 64 as int)),
{
    assert(members(bs).subset_of(vstd::set_lib::set_int_range(0, bs.len() * 64 as int)));
    vstd::set_lib::lemma_int_range(0, bs.len() * 64 as int);
    vstd::set_lib::lemma_len_subset(members(bs), vstd::set_lib::set_int_range(0, bs.len() * 64 as int));
}

/// Bits of a conjunction, disjunction and complement of words.
pub proof fn lemma_bit_ops(a: u64, b: u64, k: u64)
    requires
        k < 64,
    ensures
        bit(a & b, k) == (bit(a, k) && bit(b, k)),
        bit(a | b, k) == (bit(a, k) || bit(b, k)),
        bit(!a, k) == !bit(a, k),
        !bit(0u64, k),
{
    assert(((a & b) >> k) & 1u64 == 1u64 <==> ((a >> k) & 1u64 == 1u64 && (b >> k) & 1u64 == 1u64))
        by (bit_vector)
        requires
            k < 64,
    ;
    assert(((a | b) >> k) & 1u64 == 1u64 <==> ((a >> k) & 1u64 == 1u64 || (b >> k) & 1u64 == 1u64))
        by (bit_vector)
        requires
            k < 64,
    ;
    assert(((!a) >> k) & 1u64 == 1u64 <==> !((a >> k) & 1u64 == 1u64)) by (bit_vector)
        requires
            k < 64,
    ;
    assert(!((0u64 >> k) & 1u64 == 1u64)) by (bit_vector);
}

/// Setting bit `b` of `w` leaves the other bits alone.
pub proof fn lemma_set_bit(w: u64, b: u64, k: u64)
    requires
        b < 64,
        k < 64,
    ensures
        bit(w | (1u64 << b), k) == (bit(w, k) || k == b),
{
    assert((((w | (1u64 << b)) >> k) & 1u64 == 1u64) <==> (((w >> k) & 1u64 == 1u64) || k == b))
        by (bit_vector)
        requires
            b < 64,
            k < 64,
    ;
}

/// Whether `bs` has no member.
pub fn bitset_is_empty(bs: &Vec<u64>) -> (r: bool)
    ensures
        r == (forall|k: int| 0 <= k < bs.len() ==> bs@[k] == 0),
        r ==> members(bs@) =~= Set::<int>::empty(),
{
    let mut i: usize = 0;
    while i < bs.len()
        invariant
            i <= bs.len(),
            forall|k: int| 0 <= k < i ==> bs@[k] == 0,
        decreases bs.len() - i,
    {
        if bs[i] != 0 {
            return false;
        }
        i = i + 1;
    }
    assert forall|x: int| !members(bs@).contains(x) by {
        if 0 <= x < bs@.len() * 64 {
            lemma_bit_ops(0, 0, (x % 64) as u64);
            assert(bs@[x / 64] == 0);
        }
    }
    true
}

/// Number of set bits among the low `k` bits of `w`.
pub open spec fn word_count(w: u64, k: int) -> nat
    decreases k,
{
    if k <= 0 {
        0
    } else if bit(w, (k - 1) as u64) {
        word_count(w, k - 1) + 1
    } else {
        word_count(w, k - 1)
    }
}

/// Number of set bits in the first `n` words of `bs`.
pub open spec fn bits_count(bs: Seq<u64>, n: int) -> nat
    decreases n,
{
    if n <= 0 {
        0
    } else {
        bits_count(bs, n - 1) + word_count(bs[n - 1], 64)
    }
}

/// Number of members of `bs` (the sum of `count_ones` over its words).
pub fn bitset_count(bs: &Vec<u64>) -> (r: usize)
    requires
        bs.len() * 64 <= usize::MAX,
    ensures
        r == bits_count(bs@, bs.len() as int),
{
    let mut total: usize = 0;
    let mut i: usize = 0;
    while i < bs.len()
        invariant
            i <= bs.len(),
            bs.len() * 64 <= usize::MAX,
            total == bits_count(bs@, i as int),
            total <= i * 64,
        decreases bs.len() - i,
    {
        let w = bs[i];
        let mut c: usize = 0;
        let mut b: u64 = 0;
        while b < 64
            invariant
                b <= 64,
                c == word_count(w, b as int),
                c <= b,
            decreases 64 - b,
        {
            if (w >> b) & 1 == 1 {
                c = c + 1;
            }
            b = b + 1;
        }
        total = total + c;
        i = i + 1;
    }
    total
}

/// A copy of `a`.
pub fn bitset_copy(a: &Vec<u64>) -> (r: Vec<u64>)
    ensures
        r@ == a@,
{
    a.clone()
}

/// Word-wise conjunction over the common length of `a` and `b`.
pub fn bitset_and(a: &Vec<u64>, b: &Vec<u64>) -> (r: Vec<u64>)
    ensures
        r.len() == if a.len() <= b.len() { a.len() } else { b.len() },
        forall|k: int| 0 <= k < r.len() ==> r@[k] == a@[k] & b@[k],
        forall|i: int| bs_has(r@, i) == (bs_has(a@, i) && bs_has(b@, i)),
{
    let n = if a.len() <= b.len() { a.len() } else { b.len() };
    let mut r: Vec<u64> = Vec::new();
    let mut i: usize = 0;
    while i < n
        invariant
            i <= n,
            n == if a.len() <= b.len() { a.len() } else { b.len() },
            r.len() == i,
            forall|k: int| 0 <= k < i ==> r@[k] == a@[k] & b@[k],
        decreases n - i,
    {
        r.push(a[i] & b[i]);
        i = i + 1;
    }
    assert forall|i: int| bs_has(r@, i) == (bs_has(a@, i) && bs_has(b@, i)) by {
        if 0 <= i && i < r@.len() * 64 {
            lemma_bit_ops(a@[i / 64], b@[i / 64], (i % 64) as u64);
        }
    }
    r
}

/// Word-wise disjunction over the common length of `a` and `b`.
pub fn bitset_or(a: &Vec<u64>, b: &Vec<u64>) -> (r: Vec<u64>)
    ensures
        r.len() == if a.len() <= b.len() { a.len() } else { b.len() },
        forall|k: int| 0 <= k < r.len() ==> r@[k] == a@[k] | b@[k],
        forall|i: int|
            0 <= i < r.len() * 64 ==> bs_has(r@, i) == (bs_has(a@, i) || bs_has(b@, i)),
{
    let n = if a.len() <= b.len() { a.len() } else { b.len() };
    let mut r: Vec<u64> = Vec::new();
    let mut i: usize = 0;
    while i < n
        invariant
            i <= n,
            n == if a.len() <= b.len() { a.len() } else { b.len() },
            r.len() == i,
            forall|k: int| 0 <= k < i ==> r@[k] == a@[k] | b@[k],
        decreases n - i,
    {
        r.push(a[i] | b[i]);
        i = i + 1;
    }
    assert forall|i: int| 0 <= i < r.len() * 64 implies bs_has(r@, i) == (bs_has(a@, i) || bs_has(
        b@,
        i,
    )) by {
        lemma_bit_ops(a@[i / 64], b@[i / 64], (i % 64) as u64);
    }
    r
}

/// Word-wise complement.
pub fn bitset_not(a: &Vec<u64>) -> (r: Vec<u64>)
    ensures
        r.len() == a.len(),
        forall|k: int| 0 <= k < r.len() ==> r@[k] == !a@[k],
        forall|i: int| 0 <= i < r.len() * 64 ==> bs_has(r@, i) == !bs_has(a@, i),
{
    let mut r: Vec<u64> = Vec::new();
    let mut i: usize = 0;
    while i < a.len()
        invariant
            i <= a.len(),
            r.len() == i,
            forall|k: int| 0 <= k < i ==> r@[k] == !a@[k],
        decreases a.len() - i,
    {
        r.push(!a[i]);
        i = i + 1;
    }
    assert forall|i: int| 0 <= i < r.len() * 64 implies bs_has(r@, i) == !bs_has(a@, i) by {
        lemma_bit_ops(a@[i / 64], a@[i / 64], (i % 64) as u64);
    }
    r
}

/// The members of `bs` in increasing order (the indices that iterating over the set
/// bits visits).
pub fn for_each_bit(bs: &Vec<u64>) -> (r: Vec<usize>)
    requires
        bs.len() * 64 <= usize::MAX,
    ensures
        forall|k: int| 0 <= k < r.len() ==> bs_has(bs@, #[trigger] r@[k] as int),
        forall|k: int, l: int| 0 <= k < l < r.len() ==> r@[k] < r@[l],
        forall|i: int| bs_has(bs@, i) ==> r@.contains(i as usize),
{
    let mut r: Vec<usize> = Vec::new();
    let mut w: usize = 0;
    while w < bs.len()
        invariant
            w <= bs.len(),
            bs.len() * 64 <= usize::MAX,
            forall|k: int| 0 <= k < r.len() ==> bs_has(bs@, #[trigger] r@[k] as int),
            forall|k: int| 0 <= k < r.len() ==> (#[trigger] r@[k]) < w * 64,
            forall|k: int, l: int| 0 <= k < l < r.len() ==> r@[k] < r@[l],
            forall|i: int| 0 <= i < w * 64 && bs_has(bs@, i) ==> r@.contains(i as usize),
        decreases bs.len() - w,
    {
        let word = bs[w];
        let mut b: u64 = 0;
        while b < 64
            invariant
                w < bs.len(),
                b <= 64,
                word == bs@[w as int],
                bs.len() * 64 <= usize::MAX,
                forall|k: int| 0 <= k < r.len() ==> bs_has(bs@, #[trigger] r@[k] as int),
                forall|k: int| 0 <= k < r.len() ==> (#[trigger] r@[k]) < w * 64 + b,
                forall|k: int, l: int| 0 <= k < l < r.len() ==> r@[k] < r@[l],
                forall|i: int| 0 <= i < w * 64 + b && bs_has(bs@, i) ==> r@.contains(i as usize),
            decreases 64 - b,
        {
            let idx: usize = w * 64 + b as usize;
            if (word >> b) & 1 == 1 {
                assert(idx as int / 64 == w && idx as int % 64 == b);
                let ghost r0 = r@;
                r.push(idx);
                assert forall|i: int| 0 <= i < w * 64 + b + 1 && bs_has(bs@, i) implies r@.contains(
                    i as usize,
                ) by {
                    if i < w * 64 + b {
                        let k = choose|k: int| 0 <= k < r0.len() && r0[k] == i as usize;
                        assert(r@[k] == i as usize);
                    } else {
                        assert(r@[r0.len() as int] == idx);
                    }
                }
            } else {
                assert forall|i: int| 0 <= i < w * 64 + b + 1 && bs_has(bs@, i) implies r@.contains(
                    i as usize,
                ) by {
                    if i == w * 64 + b {
                        assert(i / 64 == w && i % 64 == b);
                    }
                }
            }
            b = b + 1;
        }
        w = w + 1;
    }
    r
}

} // verus!
