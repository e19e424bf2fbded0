//! Facts about the bits of a `u64`, read as a set of the positions `0..64`.
//!
//! Everything else in the crate reasons about 64-bit words through [`bit`] and
//! [`squares`]; the bit-vector solver is used only here and in a few places
//! that relate a fixed mask to files and ranks.
use vstd::prelude::*;
use vstd::std_specs::bits::{axiom_u64_trailing_zeros, u64_trailing_zeros};

verus! {

/// Whether bit `i` of `x` is set. False for every `i` outside `0..64`.
pub open spec fn bit(x: u64, i: int) -> bool {
    0 <= i < 64 && (x >> (i as u64)) & 1 == 1
}

/// The positions of the set bits of `x`.
pub open spec fn squares(x: u64) -> Set<int> {
    Set::new(|i: int| bit(x, i))
}

/// Position of the lowest set bit of a non-zero word.
pub open spec fn lowest(x: u64) -> int {
    u64_trailing_zeros(x) as int
}

/// `x` with its lowest set bit cleared.
pub open spec fn drop_lowest(x: u64) -> u64 {
    x & ((x - 1) as u64)
}

/// Number of set bits.
pub open spec fn popcount(x: u64) -> nat
    decreases x,
    via popcount_decreases
{
    if x == 0 {
        0
    } else {
        1 + popcount(drop_lowest(x))
    }
}

#[via_fn]
proof fn popcount_decreases(x: u64) {
    if x != 0 {
        lemma_drop_lowest_decreases(x);
    }
}

/// Clearing the lowest set bit makes a word smaller.
pub proof fn lemma_drop_lowest_decreases(x: u64)
    requires
        x != 0,
    ensures
        drop_lowest(x) < x,
{
    let y = drop_lowest(x);
    assert(y < x) by (bit_vector)
        requires
            x != 0,
            y == x & ((x - 1) as u64),
    ;
}

/// Zero has no set bit.
pub proof fn lemma_bit_zero()
    ensures
        forall|i: int| !#[trigger] bit(0, i),
        squares(0) == Set::<int>::empty(),
{
    assert forall|i: int| !#[trigger] bit(0, i) by {
        if 0 <= i < 64 {
            let k = i as u64;
            assert((0u64 >> k) & 1 == 0) by (bit_vector);
        }
    }
    assert(squares(0) =~= Set::<int>::empty());
}

/// `1 << k` has bit `k` set and no other.
pub proof fn lemma_bit_single(k: u64)
    requires
        k < 64,
    ensures
        forall|i: int| #[trigger] bit(1u64 << k, i) == (i == k),
        squares(1u64 << k) == Set::<int>::empty().insert(k as int),
{
    assert forall|i: int| #[trigger] bit(1u64 << k, i) == (i == k) by {
        if 0 <= i < 64 {
            let j = i as u64;
            assert((((1u64 << k) >> j) & 1 == 1) == (j == k)) by (bit_vector)
                requires
                    k < 64,
                    j < 64,
            ;
        }
    }
    assert(squares(1u64 << k) =~= Set::<int>::empty().insert(k as int));
}

/// The bits of a disjunction: the union of the positions.
pub proof fn lemma_bit_or(a: u64, b: u64)
    ensures
        forall|i: int| #[trigger] bit(a | b, i) == (bit(a, i) || bit(b, i)),
        squares(a | b) == squares(a).union(squares(b)),
{
    assert forall|i: int| #[trigger] bit(a | b, i) == (bit(a, i) || bit(b, i)) by {
        if 0 <= i < 64 {
            let j = i as u64;
            assert((((a | b) >> j) & 1 == 1) == ((a >> j) & 1 == 1 || (b >> j) & 1 == 1))
                by (bit_vector)
                requires
                    j < 64,
            ;
        }
    }
    assert(squares(a | b) =~= squares(a).union(squares(b)));
}

/// The bits of a conjunction: the intersection of the positions.
pub proof fn lemma_bit_and(a: u64, b: u64)
    ensures
        forall|i: int| #[trigger] bit(a & b, i) == (bit(a, i) && bit(b, i)),
        squares(a & b) == squares(a).intersect(squares(b)),
{
    assert forall|i: int| #[trigger] bit(a & b, i) == (bit(a, i) && bit(b, i)) by {
        if 0 <= i < 64 {
            let j = i as u64;
            assert((((a & b) >> j) & 1 == 1) == ((a >> j) & 1 == 1 && (b >> j) & 1 == 1))
                by (bit_vector)
                requires
                    j < 64,
            ;
        }
    }
    assert(squares(a & b) =~= squares(a).intersect(squares(b)));
}

/// The bits of `a & !b`: the positions of `a` that are not positions of `b`.
pub proof fn lemma_bit_and_not(a: u64, b: u64)
    ensures
        forall|i: int| #[trigger] bit(a & !b, i) == (bit(a, i) && !bit(b, i)),
        squares(a & !b) == squares(a).difference(squares(b)),
{
    assert forall|i: int| #[trigger] bit(a & !b, i) == (bit(a, i) && !bit(b, i)) by {
        if 0 <= i < 64 {
            let j = i as u64;
            assert((((a & !b) >> j) & 1 == 1) == ((a >> j) & 1 == 1 && !((b >> j) & 1 == 1)))
                by (bit_vector)
                requires
                    j < 64,
            ;
        }
    }
    assert(squares(a & !b) =~= squares(a).difference(squares(b)));
}

/// The bits of a word shifted left: each position moves up by `n`.
pub proof fn lemma_bit_shl(a: u64, n: u64)
    requires
        n < 64,
    ensures
        forall|i: int| i < 64 ==> #[trigger] bit(a << n, i) == (i >= n && bit(a, i - n)),
{
    assert forall|i: int| i < 64 implies #[trigger] bit(a << n, i) == (i >= n && bit(a, i - n)) by {
        if 0 <= i {
            let j = i as u64;
            if j >= n {
                let d = (j - n) as u64;
                assert((((a << n) >> j) & 1 == 1) == ((a >> d) & 1 == 1)) by (bit_vector)
                    requires
                        j < 64,
                        n <= j,
                        d == j - n,
                ;
            } else {
                assert(((a << n) >> j) & 1 == 0) by (bit_vector)
                    requires
                        j < n,
                        n < 64,
                ;
            }
        }
    }
}

/// The bits of a word shifted right: each position moves down by `n`.
pub proof fn lemma_bit_shr(a: u64, n: u64)
    requires
        n < 64,
    ensures
        forall|i: int| 0 <= i ==> #[trigger] bit(a >> n, i) == bit(a, i + n),
{
    assert forall|i: int| 0 <= i implies #[trigger] bit(a >> n, i) == bit(a, i + n) by {
        if i < 64 {
            let j = i as u64;
            if j + n < 64 {
                let d = (j + n) as u64;
                assert((((a >> n) >> j) & 1 == 1) == ((a >> d) & 1 == 1)) by (bit_vector)
                    requires
                        j < 64,
                        n < 64,
                        d == j + n,
                        d < 64,
                ;
            } else {
                assert(((a >> n) >> j) & 1 == 0) by (bit_vector)
                    requires
                        j < 64,
                        n < 64,
                        j + n >= 64,
                ;
            }
        }
    }
}

/// The low `n` bits of a word.
pub open spec fn low_bits(x: u64, n: u64) -> u64 {
    if n >= 64 {
        x
    } else {
        x & (((1u64 << n) - 1) as u64)
    }
}

/// Words that agree on each of their low `n` bits have the same low `n` bits.
proof fn lemma_low_bits_equal(a: u64, b: u64, n: u64)
    requires
        n <= 64,
        forall|i: int| 0 <= i < n ==> bit(a, i) == bit(b, i),
    ensures
        low_bits(a, n) == low_bits(b, n),
    decreases n,
{
    if n == 0 {
        assert(a & (((1u64 << 0u64) - 1) as u64) == b & (((1u64 << 0u64) - 1) as u64))
            by (bit_vector);
    } else {
        let m = (n - 1) as u64;
        lemma_low_bits_equal(a, b, m);
        assert(bit(a, m as int) == bit(b, m as int));
        let la = low_bits(a, m);
        let lb = low_bits(b, m);
        let ha = low_bits(a, n);
        let hb = low_bits(b, n);
        assert(ha == hb) by (bit_vector)
            requires
                1 <= n <= 64,
                m == n - 1,
                la == a & (((1u64 << m) - 1) as u64),
                lb == b & (((1u64 << m) - 1) as u64),
                la == lb,
                ((a >> m) & 1 == 1) == ((b >> m) & 1 == 1),
                ha == (if n >= 64 {
                    a
                } else {
                    a & (((1u64 << n) - 1) as u64)
                }),
                hb == (if n >= 64 {
                    b
                } else {
                    b & (((1u64 << n) - 1) as u64)
                }),
        ;
    }
}

/// A word is determined by its bits.
pub proof fn lemma_bits_equal(a: u64, b: u64)
    requires
        forall|i: int| 0 <= i < 64 ==> bit(a, i) == bit(b, i),
    ensures
        a == b,
{
    lemma_low_bits_equal(a, b, 64);
}

/// Two words with the same set of positions are the same word.
pub proof fn lemma_squares_equal(a: u64, b: u64)
    requires
        squares(a) == squares(b),
    ensures
        a == b,
{
    assert forall|i: int| 0 <= i < 64 implies bit(a, i) == bit(b, i) by {
        assert(squares(a).contains(i) == bit(a, i));
        assert(squares(b).contains(i) == bit(b, i));
    }
    lemma_bits_equal(a, b);
}

/// What `trailing_zeros` and `x & (x - 1)` do to a non-zero word.
pub proof fn lemma_lowest(x: u64)
    requires
        x != 0,
    ensures
        0 <= lowest(x) < 64,
        bit(x, lowest(x)),
        forall|i: int| i < lowest(x) ==> !#[trigger] bit(x, i),
        forall|i: int| #[trigger] bit(drop_lowest(x), i) == (bit(x, i) && i != lowest(x)),
        squares(drop_lowest(x)) == squares(x).remove(lowest(x)),
        drop_lowest(x) < x,
{
    axiom_u64_trailing_zeros(x);
    let t = u64_trailing_zeros(x) as u64;
    let y = drop_lowest(x);
    assert forall|i: int| i < t implies !#[trigger] bit(x, i) by {
        if 0 <= i {
            let j = i as u64;
            assert((x >> j) & 1 == 0);
        }
    }
    let z = (64 - t) as u64;
    assert(x << z == 0);
    assert forall|i: int| #[trigger] bit(y, i) == (bit(x, i) && i != t) by {
        if 0 <= i < 64 {
            let k = i as u64;
            assert((y >> k) & 1 == (if k == t {
                0
            } else {
                (x >> k) & 1
            })) by (bit_vector)
                requires
                    x != 0,
                    t < 64,
                    k < 64,
                    z == 64 - t,
                    (x >> t) & 1 == 1,
                    x << z == 0,
                    y == x & ((x - 1) as u64),
            ;
        }
    }
    assert(squares(y) =~= squares(x).remove(lowest(x)));
    lemma_drop_lowest_decreases(x);
}

/// The set of positions of a word is finite and has `popcount` members.
pub proof fn lemma_popcount_len(x: u64)
    ensures
        squares(x).finite(),
        squares(x).len() == popcount(x),
    decreases x,
{
    if x == 0 {
        lemma_bit_zero();
    } else {
        lemma_lowest(x);
        let y = drop_lowest(x);
        lemma_popcount_len(y);
        assert(squares(x) =~= squares(y).insert(lowest(x)));
    }
}

/// Setting one more bit raises the count by at most one.
pub proof fn lemma_popcount_insert(x: u64, k: u64)
    requires
        k < 64,
    ensures
        popcount(x | (1u64 << k)) <= popcount(x) + 1,
        popcount(x | (1u64 << k)) >= 1,
{
    let y = x | (1u64 << k);
    lemma_bit_or(x, 1u64 << k);
    lemma_bit_single(k);
    lemma_popcount_len(x);
    lemma_popcount_len(y);
    assert(squares(y) =~= squares(x).insert(k as int));
}

/// Counts the set bits of `x`.
pub fn count_ones(x: u64) -> (n: u32)
    ensures
        n == popcount(x),
        n <= 64,
{
    let mut rest: u64 = x;
    let mut n: u32 = 0;
    proof {
        lemma_popcount_len(x);
        lemma_len_at_most_64(squares(x));
    }
    while rest != 0
        invariant
            n + popcount(rest) == popcount(x),
            popcount(x) <= 64,
        decreases rest,
    {
        proof {
            lemma_lowest(rest);
        }
        rest = rest & (rest - 1);
        n = n + 1;
    }
    n
}

/// A set of board positions has at most 64 members.
pub proof fn lemma_len_at_most_64(s: Set<int>)
    requires
        forall|i: int| s.contains(i) ==> 0 <= i < 64,
    ensures
        s.finite(),
        s.len() <= 64,
{
    let all = Set::new(|i: int| 0 <= i < 64);
    vstd::set_lib::lemma_int_range(0, 64);
    assert(all =~= vstd::set_lib::set_int_range(0, 64));
    assert(s.subset_of(all));
    vstd::set_lib::lemma_len_subset(s, all);
}

/// Two words share a set bit exactly when their conjunction is not zero.
pub proof fn lemma_and_nonzero(a: u64, b: u64)
    ensures
        (a & b != 0) == exists|t: int| bit(a, t) && bit(b, t),
        (a & b != 0) == !squares(a).disjoint(squares(b)),
{
    lemma_bit_and(a, b);
    if a & b != 0 {
        lemma_lowest(a & b);
        let t = lowest(a & b);
        assert(bit(a, t) && bit(b, t));
        assert(squares(a).contains(t) && squares(b).contains(t));
    } else {
        lemma_bit_zero();
        assert forall|t: int| !(bit(a, t) && bit(b, t)) by {
            assert(bit(a & b, t) == (bit(a, t) && bit(b, t)));
        }
        assert forall|t: int| !(squares(a).contains(t) && squares(b).contains(t)) by {
            assert(bit(a & b, t) == (bit(a, t) && bit(b, t)));
        }
    }
}

/// A word is zero exactly when it has no set bit.
pub proof fn lemma_zero_iff_empty(a: u64)
    ensures
        (a == 0) == (squares(a) == Set::<int>::empty()),
{
    lemma_bit_zero();
    if a != 0 {
        lemma_lowest(a);
        assert(squares(a).contains(lowest(a)));
    }
}

} // verus!
