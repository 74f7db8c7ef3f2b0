//! Sets of bits as the library sees them: a sequence of bits, with the
//! means to count and list the ones that are set.
use crate::bitset::{len_of, ones, ones_of, set_range};
use fixedbitset::FixedBitSet;
use vstd::prelude::*;

verus! {

/// Whether bit `i` exists in `bits` and is set.
pub open spec fn is_set(bits: Seq<bool>, i: int) -> bool {
    0 <= i < bits.len() && bits[i]
}

/// Whether `list` holds, in ascending order, exactly the positions of the
/// bits that are set in `bits`.
pub open spec fn lists_ones(list: Seq<usize>, bits: Seq<bool>) -> bool {
    &&& forall|j: int| 0 <= j < list.len() ==> is_set(bits, #[trigger] list[j] as int)
    &&& forall|j: int, k: int| 0 <= j < k < list.len() ==> list[j] < list[k]
    &&& forall|i: int| #[trigger]
        is_set(bits, i) ==> exists|j: int| 0 <= j < list.len() && list[j] == i
}

/// The bits of `b`, from bit 0 up to its length.
pub open spec fn bits_of(b: FixedBitSet) -> Seq<bool> {
    Seq::new(len_of(b), |i: int| ones_of(b).contains(i))
}

/// Whether `b` holds no one outside its length. Every set that the library
/// makes is tidy and stays so.
pub open spec fn tidy(b: FixedBitSet) -> bool {
    forall|i: int| ones_of(b).contains(i) ==> 0 <= i < len_of(b)
}

/// Makes a set of `n` bits, all clear.
pub fn new_bits(n: usize) -> (b: FixedBitSet)
    ensures
        tidy(b),
        bits_of(b) == Seq::new(n as nat, |i: int| false),
{
    let b = FixedBitSet::with_capacity(n);
    assert(bits_of(b) =~= Seq::new(n as nat, |i: int| false));
    b
}

/// Says whether `bit` is set in `b`. A bit past the end counts as clear.
pub fn has_bit(b: &FixedBitSet, bit: usize) -> (r: bool)
    ensures
        r == is_set(bits_of(*b), bit as int),
{
    b.contains(bit)
}

/// Gives `bit` the value `enabled` and leaves the other bits of `b`.
pub fn set_bit(b: &mut FixedBitSet, bit: usize, enabled: bool)
    requires
        tidy(*old(b)),
        bit < bits_of(*old(b)).len(),
    ensures
        tidy(*final(b)),
        bits_of(*final(b)) == bits_of(*old(b)).update(bit as int, enabled),
{
    b.set(bit, enabled);
    assert(bits_of(*b) =~= bits_of(*old(b)).update(bit as int, enabled));
}

/// Sets `bit` and leaves the other bits of `b`.
pub fn insert_bit(b: &mut FixedBitSet, bit: usize)
    requires
        tidy(*old(b)),
        bit < bits_of(*old(b)).len(),
    ensures
        tidy(*final(b)),
        bits_of(*final(b)) == bits_of(*old(b)).update(bit as int, true),
{
    b.insert(bit);
    assert(bits_of(*b) =~= bits_of(*old(b)).update(bit as int, true));
}

/// Makes a set of `n` bits, all set.
pub fn full_bits(n: usize) -> (b: FixedBitSet)
    ensures
        tidy(b),
        bits_of(b) == Seq::new(n as nat, |i: int| true),
{
    let mut b = FixedBitSet::with_capacity(n);
    set_range(&mut b, 0, n, true);
    assert(bits_of(b) =~= Seq::new(n as nat, |i: int| true));
    b
}

/// Copies `b`.
pub fn copy_bits(b: &FixedBitSet) -> (r: FixedBitSet)
    ensures
        bits_of(r) == bits_of(*b),
        tidy(r) == tidy(*b),
{
    b.clone()
}

/// Lists the positions of the bits that are set in `b`, in ascending order.
/// The contract speaks of a tidy set, which is every set that the library
/// makes.
pub fn list_bits(b: &FixedBitSet) -> (list: Vec<usize>)
    ensures
        tidy(*b) ==> as_ints(list@) == positions(bits_of(*b)),
        tidy(*b) ==> forall|j: int|
            0 <= j < list@.len() ==> #[trigger] list@[j] < bits_of(*b).len(),
{
    let list = ones(b);
    proof {
        if tidy(*b) {
            let bits = bits_of(*b);
            assert forall|j: int| 0 <= j < list@.len() implies is_set(
                bits,
                #[trigger] list@[j] as int,
            ) by {
                assert(ones_of(*b).contains(list@[j] as int));
            }
            assert forall|i: int| #[trigger] is_set(bits, i) implies exists|j: int|
                0 <= j < list@.len() && list@[j] == i by {
                assert(ones_of(*b).contains(i));
            }
            lemma_ones_are_positions(list@, bits);
        }
    }
    list
}

/// How many of the first `k` bits of `bits` are set.
pub open spec fn count_set(bits: Seq<bool>, k: nat) -> nat
    decreases k,
{
    if k == 0 {
        0
    } else if is_set(bits, k - 1) {
        count_set(bits, (k - 1) as nat) + 1
    } else {
        count_set(bits, (k - 1) as nat)
    }
}

/// The positions of the set bits among the first `k` bits of `bits`, in
/// ascending order.
pub open spec fn positions_upto(bits: Seq<bool>, k: nat) -> Seq<int>
    decreases k,
{
    if k == 0 {
        Seq::empty()
    } else if is_set(bits, k - 1) {
        positions_upto(bits, (k - 1) as nat).push(k - 1)
    } else {
        positions_upto(bits, (k - 1) as nat)
    }
}

/// The positions of the set bits of `bits`, in ascending order.
pub open spec fn positions(bits: Seq<bool>) -> Seq<int> {
    positions_upto(bits, bits.len())
}

/// A list of positions read as integers.
pub open spec fn as_ints(list: Seq<usize>) -> Seq<int> {
    list.map_values(|i: usize| i as int)
}

/// Where a walk along `list` stands before it takes entry `a`: past the
/// entry before it, or at 0.
pub open spec fn reached(list: Seq<int>, a: int) -> int {
    if a <= 0 {
        0
    } else {
        list[a - 1] + 1
    }
}

/// Clearing bits does not raise the count.
pub proof fn lemma_count_set_shrinks(a: Seq<bool>, b: Seq<bool>, k: nat)
    requires
        forall|i: int| is_set(b, i) ==> is_set(a, i),
    ensures
        count_set(b, k) <= count_set(a, k),
    decreases k,
{
    if k > 0 {
        lemma_count_set_shrinks(a, b, (k - 1) as nat);
    }
}

/// Clearing a set bit below `k` lowers the count.
pub proof fn lemma_count_set_drops(a: Seq<bool>, b: Seq<bool>, k: nat, i: int)
    requires
        forall|j: int| is_set(b, j) ==> is_set(a, j),
        is_set(a, i),
        !is_set(b, i),
        i < k,
    ensures
        count_set(b, k) < count_set(a, k),
    decreases k,
{
    if k - 1 == i {
        lemma_count_set_shrinks(a, b, (k - 1) as nat);
    } else {
        lemma_count_set_drops(a, b, (k - 1) as nat, i);
    }
}

/// No more than `k` of the first `k` bits are set.
pub proof fn lemma_count_set_bound(bits: Seq<bool>, k: nat)
    ensures
        count_set(bits, k) <= k,
    decreases k,
{
    if k > 0 {
        lemma_count_set_bound(bits, (k - 1) as nat);
    }
}

/// The count is zero exactly where no bit below `k` is set.
pub proof fn lemma_count_set_zero(bits: Seq<bool>, k: nat)
    ensures
        count_set(bits, k) == 0 <==> forall|i: int| 0 <= i < k ==> !is_set(bits, i),
    decreases k,
{
    if k > 0 {
        lemma_count_set_zero(bits, (k - 1) as nat);
        if count_set(bits, k) == 0 {
            assert forall|i: int| 0 <= i < k implies !is_set(bits, i) by {
                if i < k - 1 {
                    assert(!is_set(bits, i));
                }
            }
        }
    }
}

/// Across a stretch without set bits neither the count nor the positions
/// change.
pub proof fn lemma_skip_clear(bits: Seq<bool>, lo: nat, hi: nat)
    requires
        lo <= hi,
        forall|i: int| lo <= i < hi ==> !is_set(bits, i),
    ensures
        count_set(bits, hi) == count_set(bits, lo),
        positions_upto(bits, hi) == positions_upto(bits, lo),
    decreases hi,
{
    if lo < hi {
        lemma_skip_clear(bits, lo, (hi - 1) as nat);
    }
}

/// What `positions_upto` lists: set bits below `k`, in ascending order, and
/// all of them.
pub proof fn lemma_positions_upto(bits: Seq<bool>, k: nat)
    ensures
        forall|j: int|
            0 <= j < positions_upto(bits, k).len() ==> is_set(
                bits,
                #[trigger] positions_upto(bits, k)[j],
            ) && positions_upto(bits, k)[j] < k,
        forall|j: int, l: int|
            0 <= j < l < positions_upto(bits, k).len() ==> positions_upto(bits, k)[j]
                < positions_upto(bits, k)[l],
        forall|i: int|
            0 <= i < k && is_set(bits, i) ==> positions_upto(bits, k).contains(i),
    decreases k,
{
    if k > 0 {
        let before = positions_upto(bits, (k - 1) as nat);
        lemma_positions_upto(bits, (k - 1) as nat);
        if is_set(bits, k - 1) {
            let now = before.push(k - 1);
            assert(now[before.len() as int] == k - 1);
            assert forall|i: int| 0 <= i < k && is_set(bits, i) implies now.contains(i) by {
                if i < k - 1 {
                    let j = choose|j: int| 0 <= j < before.len() && before[j] == i;
                    assert(now[j] == i);
                }
            }
        }
    }
}

/// A list that holds the set bits of `bits` in ascending order is
/// `positions(bits)`.
pub proof fn lemma_ones_are_positions(list: Seq<usize>, bits: Seq<bool>)
    requires
        lists_ones(list, bits),
    ensures
        as_ints(list) == positions(bits),
{
    lemma_ones_upto(list, bits, list.len());
    let a = list.len() as int;
    let from = reached(as_ints(list), a) as nat;
    assert forall|i: int| from <= i < bits.len() implies !is_set(bits, i) by {
        if is_set(bits, i) {
            let j = choose|j: int| 0 <= j < list.len() && list[j] == i;
            if j < a - 1 {
                assert(list[j] < list[a - 1]);
            }
        }
    }
    if from <= bits.len() {
        lemma_skip_clear(bits, from, bits.len());
    } else {
        assert(is_set(bits, list[a - 1] as int));
    }
    assert(as_ints(list).take(a) =~= as_ints(list));
}

/// The first `a` entries of a list that holds the set bits of `bits` in
/// ascending order are the positions of the set bits below the place that a
/// walk along the list has reached.
proof fn lemma_ones_upto(list: Seq<usize>, bits: Seq<bool>, a: nat)
    requires
        lists_ones(list, bits),
        a <= list.len(),
    ensures
        as_ints(list).take(a as int) == positions_upto(
            bits,
            reached(as_ints(list), a as int) as nat,
        ),
    decreases a,
{
    let ints = as_ints(list);
    if a == 0 {
        assert(ints.take(0) =~= Seq::<int>::empty());
    } else {
        lemma_ones_upto(list, bits, (a - 1) as nat);
        let lo = reached(ints, a - 1) as nat;
        let at = list[a - 1] as nat;
        assert(is_set(bits, at as int));
        assert(lo <= at) by {
            if a - 1 > 0 {
                assert(list[a - 2] < list[a - 1]);
            }
        }
        assert forall|i: int| lo <= i < at implies !is_set(bits, i) by {
            if is_set(bits, i) {
                let j = choose|j: int| 0 <= j < list.len() && list[j] == i;
                if j < a - 1 {
                    if j < a - 2 {
                        assert(list[j] < list[a - 2]);
                    }
                } else if j > a - 1 {
                    assert(list[a - 1] < list[j]);
                }
            }
        }
        lemma_skip_clear(bits, lo, at);
        assert(ints.take(a as int) =~= ints.take(a - 1).push(ints[a - 1]));
    }
}

/// What a walk along `positions(bits)` skips before it takes entry `a`, or
/// after the last entry where `a` is the length: bits that are clear.
pub proof fn lemma_positions_gap(bits: Seq<bool>, a: int)
    requires
        0 <= a <= positions(bits).len(),
    ensures
        0 <= reached(positions(bits), a) <= bits.len(),
        a < positions(bits).len() ==> reached(positions(bits), a) <= positions(bits)[a]
            < bits.len(),
        forall|i: int|
            reached(positions(bits), a) <= i < (if a < positions(bits).len() {
                positions(bits)[a]
            } else {
                bits.len() as int
            }) ==> !is_set(bits, i),
{
    let list = positions(bits);
    lemma_positions_upto(bits, bits.len());
    let lo = reached(list, a);
    let hi = if a < list.len() {
        list[a]
    } else {
        bits.len() as int
    };
    if a > 0 {
        assert(is_set(bits, list[a - 1]));
        if a < list.len() {
            assert(list[a - 1] < list[a]);
        }
    }
    assert forall|i: int| lo <= i < hi implies !is_set(bits, i) by {
        if is_set(bits, i) {
            assert(list.contains(i));
            let j = choose|j: int| 0 <= j < list.len() && list[j] == i;
            if j < a - 1 {
                assert(list[j] < list[a - 1]);
            } else if j > a {
                assert(list[a] < list[j]);
            }
        }
    }
}

} // verus!
