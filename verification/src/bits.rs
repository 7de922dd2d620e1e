//! Dense bit vectors, backed by the `bitvec` crate, and the set operations
//! that the order-theoretic code performs on them.
//!
//! A [`Bits`] value is modelled by the sequence of its bits (`b@`).  Bit `i`
//! set means that element `i` belongs to the set that the vector encodes.

use bitvec::vec::BitVec;
use vstd::prelude::*;

verus! {

/// A dense vector of bits.
#[verifier::external_body]
#[derive(Debug, Hash)]
pub struct Bits {
    pub(crate) inner: BitVec,
}

/// The bits held by a [`Bits`] value, in index order.
pub uninterp spec fn bits_of(b: Bits) -> Seq<bool>;

impl View for Bits {
    type V = Seq<bool>;

    open spec fn view(&self) -> Seq<bool> {
        bits_of(*self)
    }
}

/// The largest length that a `BitVec` can encode (`BitSlice::MAX_BITS`).
pub open spec fn max_bits() -> nat {
    (usize::MAX / 8) as nat
}

/// The set of indices whose bit is set.
pub open spec fn ones_of(s: Seq<bool>) -> Set<int> {
    Set::new(|i: int| 0 <= i < s.len() && s[i])
}

/// Every bit set in `a` is set in `b` (lengths equal).
pub open spec fn subset_bits(a: Seq<bool>, b: Seq<bool>) -> bool {
    a.len() == b.len() && forall|i: int| 0 <= i < a.len() && #[trigger] a[i] ==> b[i]
}

/// Number of set bits in a sequence.
pub open spec fn count_true(s: Seq<bool>) -> nat
    decreases s.len(),
{
    if s.len() == 0 {
        0
    } else {
        count_true(s.drop_last()) + if s.last() {
            1nat
        } else {
            0nat
        }
    }
}

/// A sequence has at most as many set bits as entries, and exactly as many
/// precisely when every bit is set.
pub proof fn lemma_count_true_full(s: Seq<bool>)
    ensures
        count_true(s) <= s.len(),
        count_true(s) == s.len() <==> forall|i: int| 0 <= i < s.len() ==> #[trigger] s[i],
    decreases s.len(),
{
    if s.len() > 0 {
        let t = s.drop_last();
        lemma_count_true_full(t);
        if count_true(s) == s.len() {
            assert forall|i: int| 0 <= i < s.len() implies #[trigger] s[i] by {
                if i < s.len() - 1 {
                    assert(t[i] == s[i]);
                }
            }
        }
        if forall|i: int| 0 <= i < s.len() ==> #[trigger] s[i] {
            assert forall|i: int| 0 <= i < t.len() implies #[trigger] t[i] by {
                assert(s[i]);
            }
            assert(s[s.len() - 1]);
        }
    }
}

/// A sequence with bit `i` set has exactly one set bit precisely when no
/// other bit is set.
pub proof fn lemma_count_true_single(s: Seq<bool>, i: int)
    requires
        0 <= i < s.len(),
        s[i],
    ensures
        count_true(s) == 1 <==> forall|j: int| 0 <= j < s.len() && j != i ==> !#[trigger] s[j],
    decreases s.len(),
{
    let t = s.drop_last();
    if i == s.len() - 1 {
        lemma_count_true_zero(t);
        if count_true(s) == 1 {
            assert forall|j: int| 0 <= j < s.len() && j != i implies !#[trigger] s[j] by {
                assert(t[j] == s[j]);
            }
        }
        if forall|j: int| 0 <= j < s.len() && j != i ==> !#[trigger] s[j] {
            assert forall|j: int| 0 <= j < t.len() implies !#[trigger] t[j] by {
                assert(!s[j]);
            }
        }
    } else {
        assert(t[i]);
        lemma_count_true_single(t, i);
        if count_true(s) == 1 {
            lemma_count_true_positive(t, i);
            assert(!s.last());
            assert forall|j: int| 0 <= j < s.len() && j != i implies !#[trigger] s[j] by {
                if j < s.len() - 1 {
                    assert(t[j] == s[j]);
                }
            }
        }
        if forall|j: int| 0 <= j < s.len() && j != i ==> !#[trigger] s[j] {
            assert(!s[s.len() - 1]);
            assert forall|j: int| 0 <= j < t.len() && j != i implies !#[trigger] t[j] by {
                assert(!s[j]);
            }
        }
    }
}

/// A sequence with no set bit has count zero, and conversely.
pub proof fn lemma_count_true_zero(s: Seq<bool>)
    ensures
        count_true(s) == 0 <==> forall|j: int| 0 <= j < s.len() ==> !#[trigger] s[j],
    decreases s.len(),
{
    if s.len() > 0 {
        let t = s.drop_last();
        lemma_count_true_zero(t);
        if count_true(s) == 0 {
            assert forall|j: int| 0 <= j < s.len() implies !#[trigger] s[j] by {
                if j < s.len() - 1 {
                    assert(t[j] == s[j]);
                }
            }
        }
        if forall|j: int| 0 <= j < s.len() ==> !#[trigger] s[j] {
            assert(!s[s.len() - 1]);
            assert forall|j: int| 0 <= j < t.len() implies !#[trigger] t[j] by {
                assert(!s[j]);
            }
        }
    }
}

/// A sequence with bit `i` set has a positive count.
pub proof fn lemma_count_true_positive(s: Seq<bool>, i: int)
    requires
        0 <= i < s.len(),
        s[i],
    ensures
        count_true(s) >= 1,
    decreases s.len(),
{
    if i < s.len() - 1 {
        let t = s.drop_last();
        assert(t[i]);
        lemma_count_true_positive(t, i);
    }
}

/// `BitVec::repeat(bit, len)`: a vector of `len` copies of `bit`.
#[verifier::external_body]
fn bitvec_repeat(bit: bool, len: usize) -> (r: Bits)
    requires
        len <= max_bits(),
    ensures
        bits_of(r) == Seq::new(len as nat, |_i: int| bit),
{
    Bits { inner: BitVec::repeat(bit, len) }
}

/// `BitVec::len`: the number of bits.
#[verifier::external_body]
fn bitvec_len(b: &Bits) -> (r: usize)
    ensures
        r == bits_of(*b).len(),
        r <= max_bits(),
{
    b.inner.len()
}

/// Indexing `v[i]` of a bit vector.
#[verifier::external_body]
fn bitvec_index(b: &Bits, i: usize) -> (r: bool)
    requires
        i < b@.len(),
    ensures
        r == bits_of(*b)[i as int],
{
    b.inner[i]
}

/// `BitSlice::set`: overwrite one bit.
#[verifier::external_body]
fn bitvec_set(b: &mut Bits, i: usize, value: bool)
    requires
        i < old(b)@.len(),
    ensures
        bits_of(*final(b)) == bits_of(*old(b)).update(i as int, value),
{
    b.inner.set(i, value)
}

/// `BitVec::clone`: a copy with the same bits.
#[verifier::external_body]
fn bitvec_clone(b: &Bits) -> (r: Bits)
    ensures
        bits_of(r) == bits_of(*b),
{
    Bits { inner: b.inner.clone() }
}

/// `BitVec::push`: append one bit.
#[verifier::external_body]
fn bitvec_push(b: &mut Bits, value: bool)
    requires
        old(b)@.len() < max_bits(),
    ensures
        bits_of(*final(b)) == bits_of(*old(b)).push(value),
{
    b.inner.push(value)
}

/// `BitSlice::count_ones`: the number of set bits.
#[verifier::external_body]
fn bitvec_count_ones(b: &Bits) -> (r: usize)
    ensures
        r == count_true(bits_of(*b)),
{
    b.inner.count_ones()
}

/// `BitSlice::iter_ones`, collected: the indices of the set bits, ascending.
#[verifier::external_body]
fn bitvec_iter_ones(b: &Bits) -> (r: Vec<usize>)
    ensures
        forall|k: int| 0 <= k < r@.len() ==> #[trigger] r@[k] < b@.len() && b@[r@[k] as int],
        forall|k: int, l: int| 0 <= k < l < r@.len() ==> #[trigger] r@[k] < #[trigger] r@[l],
        forall|i: int| 0 <= i < b@.len() && #[trigger] b@[i] ==> r@.contains(i as usize),
{
    b.inner.iter_ones().collect()
}

/// `left &= right` on bit slices of equal length: bitwise conjunction.
#[verifier::external_body]
fn bitvec_and_assign(left: &mut Bits, right: &Bits)
    requires
        old(left)@.len() == right@.len(),
    ensures
        final(left)@.len() == old(left)@.len(),
        forall|i: int|
            0 <= i < right@.len() ==> #[trigger] final(left)@[i] == (old(left)@[i] && right@[i]),
{
    left.inner &= &right.inner
}

/// `left |= right` on bit slices of equal length: bitwise disjunction.
#[verifier::external_body]
fn bitvec_or_assign(left: &mut Bits, right: &Bits)
    requires
        old(left)@.len() == right@.len(),
    ensures
        final(left)@.len() == old(left)@.len(),
        forall|i: int|
            0 <= i < right@.len() ==> #[trigger] final(left)@[i] == (old(left)@[i] || right@[i]),
{
    left.inner |= &right.inner
}

impl Bits {
    /// A vector of `len` bits, all equal to `bit`.
    pub fn repeat(bit: bool, len: usize) -> (r: Bits)
        requires
            len <= max_bits(),
        ensures
            r@ == Seq::new(len as nat, |_i: int| bit),
    {
        bitvec_repeat(bit, len)
    }

    /// The number of bits.
    pub fn len(&self) -> (r: usize)
        ensures
            r == self@.len(),
            r <= max_bits(),
    {
        bitvec_len(self)
    }

    /// Whether the vector has no bits.
    pub fn is_empty(&self) -> (r: bool)
        ensures
            r == (self@.len() == 0),
    {
        bitvec_len(self) == 0
    }

    /// The bit at index `i`.
    pub fn bit(&self, i: usize) -> (r: bool)
        requires
            i < self@.len(),
        ensures
            r == self@[i as int],
    {
        bitvec_index(self, i)
    }

    /// The bit at index `i`, or `None` when `i` is out of range.
    pub fn get(&self, i: usize) -> (r: Option<bool>)
        ensures
            r == (if i < self@.len() {
                Some(self@[i as int])
            } else {
                None::<bool>
            }),
    {
        if i < bitvec_len(self) {
            Some(bitvec_index(self, i))
        } else {
            None
        }
    }

    /// Overwrites the bit at index `i`.
    pub fn set(&mut self, i: usize, value: bool)
        requires
            i < old(self)@.len(),
        ensures
            final(self)@ == old(self)@.update(i as int, value),
    {
        bitvec_set(self, i, value)
    }

    /// Appends one bit.
    pub fn push(&mut self, value: bool)
        requires
            old(self)@.len() < max_bits(),
        ensures
            final(self)@ == old(self)@.push(value),
    {
        bitvec_push(self, value)
    }

    /// A copy with the same bits.
    pub fn duplicate(&self) -> (r: Bits)
        ensures
            r@ == self@,
    {
        bitvec_clone(self)
    }

    /// The number of set bits.
    pub fn count_ones(&self) -> (r: usize)
        ensures
            r == count_true(self@),
    {
        bitvec_count_ones(self)
    }

    /// The indices of the set bits, in increasing order.
    pub fn ones(&self) -> (r: Vec<usize>)
        ensures
            forall|k: int| 0 <= k < r@.len() ==> #[trigger] r@[k] < self@.len() && self@[r@[k] as int],
            forall|k: int, l: int| 0 <= k < l < r@.len() ==> #[trigger] r@[k] < #[trigger] r@[l],
            forall|i: int| 0 <= i < self@.len() && #[trigger] self@[i] ==> r@.contains(i as usize),
    {
        bitvec_iter_ones(self)
    }

    /// Intersects `self` with `other` in place.
    pub fn and_assign(&mut self, other: &Bits)
        requires
            old(self)@.len() == other@.len(),
        ensures
            final(self)@ == Seq::new(other@.len(), |i: int| old(self)@[i] && other@[i]),
    {
        bitvec_and_assign(self, other);
        assert(self@ =~= Seq::new(other@.len(), |i: int| old(self)@[i] && other@[i]));
    }

    /// Unites `self` with `other` in place.
    pub fn or_assign(&mut self, other: &Bits)
        requires
            old(self)@.len() == other@.len(),
        ensures
            final(self)@ == Seq::new(other@.len(), |i: int| old(self)@[i] || other@[i]),
    {
        bitvec_or_assign(self, other);
        assert(self@ =~= Seq::new(other@.len(), |i: int| old(self)@[i] || other@[i]));
    }
}

impl Clone for Bits {
    fn clone(&self) -> (r: Self)
        ensures
            r@ == self@,
    {
        bitvec_clone(self)
    }
}

impl PartialEq for Bits {
    fn eq(&self, other: &Self) -> (r: bool) {
        equal_bits(self, other)
    }
}

impl Eq for Bits {
}

impl vstd::std_specs::cmp::PartialEqSpecImpl for Bits {
    open spec fn obeys_eq_spec() -> bool {
        true
    }

    open spec fn eq_spec(&self, other: &Self) -> bool {
        self@ == other@
    }
}

/// Whether two bit vectors hold the same bits.
pub fn equal_bits(left: &Bits, right: &Bits) -> (r: bool)
    ensures
        r == (left@ == right@),
{
    let n = left.len();
    if n != right.len() {
        return false;
    }
    let mut i: usize = 0;
    while i < n
        invariant
            n == left@.len(),
            n == right@.len(),
            i <= n,
            forall|k: int| 0 <= k < i ==> left@[k] == right@[k],
        decreases n - i,
    {
        if left.bit(i) != right.bit(i) {
            return false;
        }
        i += 1;
    }
    assert(left@ =~= right@);
    true
}

/// Whether every bit set in `left` is also set in `right`; vectors of
/// different lengths are never subsets of each other.
pub fn is_subset(left: &Bits, right: &Bits) -> (r: bool)
    ensures
        r == subset_bits(left@, right@),
{
    let n = left.len();
    if n != right.len() {
        return false;
    }
    let mut i: usize = 0;
    while i < n
        invariant
            n == left@.len(),
            n == right@.len(),
            i <= n,
            forall|k: int| 0 <= k < i && #[trigger] left@[k] ==> right@[k],
        decreases n - i,
    {
        if left.bit(i) && !right.bit(i) {
            return false;
        }
        i += 1;
    }
    true
}

/// Whether two vectors of equal length have a set bit in common.
pub fn intersects(left: &Bits, right: &Bits) -> (r: bool)
    requires
        left@.len() == right@.len(),
    ensures
        r == exists|i: int| 0 <= i < left@.len() && #[trigger] left@[i] && right@[i],
{
    let n = left.len();
    let mut i: usize = 0;
    while i < n
        invariant
            n == left@.len(),
            n == right@.len(),
            i <= n,
            forall|k: int| 0 <= k < i ==> !(#[trigger] left@[k] && right@[k]),
        decreases n - i,
    {
        if left.bit(i) && right.bit(i) {
            return true;
        }
        i += 1;
    }
    false
}

/// The bitwise intersection of two vectors of equal length.
pub fn intersection(left: &Bits, right: &Bits) -> (r: Bits)
    requires
        left@.len() == right@.len(),
    ensures
        r@ == Seq::new(left@.len(), |i: int| left@[i] && right@[i]),
{
    let mut result = left.duplicate();
    result.and_assign(right);
    result
}

/// Adds every bit of `right` to `left`.
pub fn union_assign(left: &mut Bits, right: &Bits)
    requires
        old(left)@.len() == right@.len(),
    ensures
        final(left)@ == Seq::new(right@.len(), |i: int| old(left)@[i] || right@[i]),
{
    left.or_assign(right)
}

/// Removes from `left` every bit set in `right`.
pub fn difference_assign(left: &mut Bits, right: &Bits)
    requires
        old(left)@.len() == right@.len(),
    ensures
        final(left)@ == Seq::new(right@.len(), |i: int| old(left)@[i] && !right@[i]),
{
    let ghost orig = (*left)@;
    let n = left.len();
    let mut i: usize = 0;
    while i < n
        invariant
            n == orig.len(),
            orig == old(left)@,
            n == right@.len(),
            (*left)@.len() == n,
            i <= n,
            forall|k: int| 0 <= k < i ==> (*left)@[k] == (orig[k] && !right@[k]),
            forall|k: int| i <= k < n ==> (*left)@[k] == orig[k],
        decreases n - i,
    {
        let ghost before = (*left)@;
        if right.bit(i) {
            left.set(i, false);
        }
        assert((*left)@[i as int] == (orig[i as int] && !right@[i as int]));
        assert(forall|k: int| 0 <= k < n && k != i ==> (*left)@[k] == before[k]);
        assert(forall|k: int| 0 <= k < i ==> before[k] == (orig[k] && !right@[k]));
        assert(forall|k: int| 0 <= k <= i ==> (*left)@[k] == (orig[k] && !right@[k]));
        i += 1;
    }
    assert((*left)@ =~= Seq::new(right@.len(), |k: int| old(left)@[k] && !right@[k]));
}

/// The bits of a rectangular matrix, row by row.
pub open spec fn matrix_of(rows: Seq<Bits>) -> Seq<Seq<bool>> {
    Seq::new(rows.len(), |i: int| rows[i]@)
}

/// All rows have `width` bits.
pub open spec fn is_rectangular(rows: Seq<Bits>, width: nat) -> bool {
    forall|i: int| 0 <= i < rows.len() ==> (#[trigger] rows[i])@.len() == width
}

/// A vector of `n` rows, each of `len` copies of `bit`.
pub fn repeat_rows(bit: bool, len: usize, n: usize) -> (r: Vec<Bits>)
    requires
        len <= max_bits(),
    ensures
        r@.len() == n,
        forall|i: int| 0 <= i < n ==> (#[trigger] r@[i])@ == Seq::new(len as nat, |_j: int| bit),
{
    let mut rows: Vec<Bits> = Vec::new();
    let mut i: usize = 0;
    while i < n
        invariant
            len <= max_bits(),
            i <= n,
            rows@.len() == i,
            forall|k: int| 0 <= k < i ==> (#[trigger] rows@[k])@ == Seq::new(len as nat, |_j: int| bit),
        decreases n - i,
    {
        rows.push(Bits::repeat(bit, len));
        i += 1;
    }
    rows
}

/// Transposes a rectangular bit matrix: column `c` of the input becomes row
/// `c` of the output.  The width is that of the first row (no columns when
/// there are no rows).
pub fn transpose(rows: &[Bits]) -> (r: Vec<Bits>)
    requires
        rows@.len() <= max_bits(),
        rows@.len() > 0 ==> is_rectangular(rows@, rows@[0]@.len()),
    ensures
        r@.len() == (if rows@.len() == 0 { 0 } else { rows@[0]@.len() }),
        forall|c: int| 0 <= c < r@.len() ==> (#[trigger] r@[c])@.len() == rows@.len(),
        forall|c: int, k: int|
            0 <= c < r@.len() && 0 <= k < rows@.len() ==> (#[trigger] r@[c])@[k] == (
            #[trigger] rows@[k])@[c],
{
    let column_count: usize = if rows.len() == 0 {
        0
    } else {
        rows[0].len()
    };
    let n = rows.len();
    let mut result = repeat_rows(false, n, column_count);
    let mut k: usize = 0;
    while k < n
        invariant
            n == rows@.len(),
            n <= max_bits(),
            n > 0 ==> is_rectangular(rows@, column_count as nat),
            n > 0 ==> column_count == rows@[0]@.len(),
            n == 0 ==> column_count == 0,
            k <= n,
            result@.len() == column_count,
            forall|c: int| 0 <= c < column_count ==> (#[trigger] result@[c])@.len() == n,
            forall|c: int, l: int|
                0 <= c < column_count && 0 <= l < k ==> (#[trigger] result@[c])@[l] == (
                #[trigger] rows@[l])@[c],
            forall|c: int, l: int|
                0 <= c < column_count && k <= l < n ==> !result@[c]@[l],
        decreases n - k,
    {
        let mut c: usize = 0;
        while c < column_count
            invariant
                n == rows@.len(),
                n > 0 ==> is_rectangular(rows@, column_count as nat),
                k < n,
                c <= column_count,
                result@.len() == column_count,
                forall|d: int| 0 <= d < column_count ==> (#[trigger] result@[d])@.len() == n,
                forall|d: int, l: int|
                    0 <= d < column_count && 0 <= l < k ==> (#[trigger] result@[d])@[l] == (
                    #[trigger] rows@[l])@[d],
                forall|d: int| 0 <= d < c ==> (#[trigger] result@[d])@[k as int] == rows@[k as int]@[d],
                forall|d: int, l: int|
                    0 <= d < column_count && k < l < n ==> !result@[d]@[l],
                forall|d: int| c <= d < column_count ==> !result@[d]@[k as int],
            decreases column_count - c,
        {
            assert(rows@[k as int]@.len() == column_count);
            if rows[k].bit(c) {
                result[c].set(k, true);
            }
            c += 1;
        }
        k += 1;
    }
    result
}

} // verus!
