//! The read-only scalar set and the value contract it stores.
//!
//! A set is a flat layout of scalar values: the bucket count, the
//! member count, `bucket_count + 1` monotone offsets, and the member
//! values, partitioned contiguously into buckets and sorted inside
//! each bucket. Counts and offsets share the member's scalar type, so
//! the layout can be serialized and attached as one homogeneous
//! buffer.

use vstd::prelude::*;

use crate::bytes::i32_le_bytes;
use crate::bytes::i32s_from_le_bytes;
use crate::bytes::lemma_i32_le_round_trip;
use crate::bytes::lemma_i32s_from_le_bytes_pointwise;
use crate::bytes::write_i32_le;
use vstd::multiset::Multiset;

verus! {

/// Contract for a scalar type storable in a read-only scalar set.
///
/// Besides acting as a set member, a value must be able to carry the
/// layout's booking information: counts and offsets are stored as
/// values of the same type. The mathematical `key` of a value fixes
/// its equality, its ordering and its bucket; the conversion
/// operations embed counts and indices into the type and read them
/// back.
pub trait Value: Sized + Copy {
    /// The mathematical value of this scalar: equality, ordering and
    /// hashing are all functions of it.
    spec fn key(&self) -> int;

    /// The bucket, out of `bucket_count` many, that a scalar with
    /// mathematical value `key` falls into.
    spec fn hash(key: int, bucket_count: int) -> int;

    /// The largest count or index a value of this type can carry
    /// losslessly.
    spec fn max_count() -> int;

    /// The fixed-width byte encoding of this scalar.
    spec fn byte_repr(&self) -> Seq<u8>;

    /// Hashing always hits one of the buckets.
    proof fn lemma_hash_in_range(key: int, bucket_count: int)
        requires
            0 < bucket_count,
        ensures
            0 <= Self::hash(key, bucket_count) < bucket_count,
    ;

    /// Every representable count fits in the machine's indices.
    proof fn lemma_max_count_fits()
        ensures
            0 <= Self::max_count() <= usize::MAX,
    ;

    /// Gets the index of the bucket for this value.
    fn get_bucket_index(&self, buckets: &Self) -> (r: usize)
        requires
            0 < buckets.key() <= Self::max_count(),
        ensures
            r == Self::hash(self.key(), buckets.key()),
    ;

    /// Gets a zero.
    fn zero() -> (r: Self)
        ensures
            r.key() == 0,
    ;

    /// Gets the value as a non-negative index or count. The caller is
    /// responsible for the range: nothing is promised of a value that
    /// does not carry a representable count.
    fn as_index(&self) -> (r: usize)
        ensures
            0 <= self.key() <= Self::max_count() ==> r == self.key(),
    ;

    /// Converts the number of buckets into the value type.
    fn from_bucket_count(bucket_count: &usize) -> (r: Self)
        requires
            *bucket_count <= Self::max_count(),
        ensures
            r.key() == *bucket_count,
    ;

    /// Converts the number of set members into the value type.
    fn from_member_count(member_count: usize) -> (r: Self)
        requires
            member_count <= Self::max_count(),
        ensures
            r.key() == member_count,
    ;

    /// Converts the given index into the value type.
    fn from_index(index: usize) -> (r: Self)
        requires
            index <= Self::max_count(),
        ensures
            r.key() == index,
    ;

    /// Decrements a stored counter by one.
    fn decrement(&self) -> (r: Self)
        requires
            1 <= self.key(),
        ensures
            r.key() == self.key() - 1,
    ;

    /// Provides the total order of the elements: the order of their
    /// mathematical values.
    fn cmp(&self, other: &Self) -> (r: core::cmp::Ordering)
        ensures
            r == core::cmp::Ordering::Equal <==> self.key() == other.key(),
            r == core::cmp::Ordering::Less <==> self.key() < other.key(),
            r == core::cmp::Ordering::Greater <==> self.key() > other.key(),
    ;

    /// Serializes the value by appending its fixed-width encoding.
    fn serialize(&self, sink: &mut Vec<u8>)
        ensures
            final(sink)@ == old(sink)@ + self.byte_repr(),
    ;
}

impl Value for i32 {
    open spec fn key(&self) -> int {
        *self as int
    }

    /// The value shifted into the non-negative range, then reduced
    /// modulo the bucket count.
    open spec fn hash(key: int, bucket_count: int) -> int {
        (key + 0x8000_0000) % bucket_count
    }

    open spec fn max_count() -> int {
        i32::MAX as int
    }

    open spec fn byte_repr(&self) -> Seq<u8> {
        i32_le_bytes(*self)
    }

    proof fn lemma_hash_in_range(key: int, bucket_count: int) {
    }

    proof fn lemma_max_count_fits() {
    }

    fn get_bucket_index(&self, buckets: &Self) -> (r: usize) {
        (((*self as i64) + 0x8000_0000i64) as usize) % (*buckets as usize)
    }

    fn zero() -> (r: Self) {
        0
    }

    fn as_index(&self) -> (r: usize) {
        #[verifier::truncate] (*self as usize)
    }

    fn from_bucket_count(bucket_count: &usize) -> (r: Self) {
        *bucket_count as i32
    }

    fn from_member_count(member_count: usize) -> (r: Self) {
        member_count as i32
    }

    fn from_index(index: usize) -> (r: Self) {
        index as i32
    }

    fn decrement(&self) -> (r: Self) {
        *self - 1
    }

    fn cmp(&self, other: &Self) -> (r: core::cmp::Ordering) {
        if *self < *other {
            core::cmp::Ordering::Less
        } else if *self > *other {
            core::cmp::Ordering::Greater
        } else {
            core::cmp::Ordering::Equal
        }
    }

    fn serialize(&self, sink: &mut Vec<u8>) {
        write_i32_le(sink, *self);
    }
}

/// The number of buckets used for `n` members: the exact ceiling of
/// `n / 20`, a five-percent overhead over the member count.
pub open spec fn bucket_count_for(n: int) -> int {
    n / 20 + if n % 20 != 0 {
        1int
    } else {
        0int
    }
}

/// The bucket count is the exact ceiling of `n / 20`: it is zero only
/// for an empty input, and otherwise the least count whose buckets
/// can hold all `n` members at twenty per bucket.
pub proof fn lemma_bucket_count_is_ceiling(n: int)
    requires
        n >= 0,
    ensures
        bucket_count_for(n) == 0 <==> n == 0,
        n <= 20 * bucket_count_for(n),
        20 * (bucket_count_for(n) - 1) < n,
{
}

/// The bucket count of the layout `s`: its first slot.
pub open spec fn bcount<T: Value>(s: Seq<T>) -> int {
    s[0].key()
}

/// The member count of the layout `s`: its second slot.
pub open spec fn mcount<T: Value>(s: Seq<T>) -> int {
    s[1].key()
}

/// The index of the first member value in the layout `s`: the members
/// follow the two counts and the `bucket_count + 1` offsets.
pub open spec fn data_start<T: Value>(s: Seq<T>) -> int {
    3 + bcount(s)
}

/// The `j`-th stored offset of the layout `s`: the start of bucket
/// `j`, and the end of bucket `j - 1`.
pub open spec fn offset_at<T: Value>(s: Seq<T>, j: int) -> int {
    s[2 + j].key()
}

/// Whether `i` indexes a member of bucket `j` in the layout `s`.
pub open spec fn in_bucket<T: Value>(s: Seq<T>, j: int, i: int) -> bool {
    offset_at(s, j) <= i < offset_at(s, j + 1)
}

/// Well-formedness of a layout: the slot count matches the stored
/// counts, the offsets climb from the first member slot to the total
/// length, every member sits in the bucket it hashes to, and each
/// bucket is sorted.
pub open spec fn wf_seq<T: Value>(s: Seq<T>) -> bool {
    &&& 3 <= s.len() <= T::max_count()
    &&& 0 <= bcount(s)
    &&& 0 <= mcount(s)
    &&& s.len() == 3 + bcount(s) + mcount(s)
    &&& (mcount(s) > 0 ==> bcount(s) > 0)
    &&& offset_at(s, 0) == data_start(s)
    &&& offset_at(s, bcount(s)) == s.len()
    &&& forall|j: int|
        0 <= j < bcount(s) ==> #[trigger] offset_at(s, j) <= offset_at(s, j + 1)
    &&& forall|j: int, i: int|
        0 <= j < bcount(s) && #[trigger] in_bucket(s, j, i) ==> T::hash(s[i].key(), bcount(s))
            == j
    &&& forall|j: int, i1: int, i2: int|
        0 <= j < bcount(s) && #[trigger] in_bucket(s, j, i1) && #[trigger] in_bucket(s, j, i2)
            && i1 <= i2 ==> s[i1].key() <= s[i2].key()
}

/// The member values of the layout `s`.
pub open spec fn members<T: Value>(s: Seq<T>) -> Seq<T> {
    s.subrange(data_start(s), s.len() as int)
}

/// Whether some member of the layout `s` has the mathematical value
/// `k`.
pub open spec fn has_key<T: Value>(s: Seq<T>, k: int) -> bool {
    exists|i: int| data_start(s) <= i < s.len() && #[trigger] s[i].key() == k
}

/// Whether the layouts `s1` and `s2` have members with equal
/// mathematical values.
pub open spec fn shares_key<T: Value>(s1: Seq<T>, s2: Seq<T>) -> bool {
    exists|k: int| has_key(s1, k) && #[trigger] has_key(s2, k)
}

/// Sharing a member value is symmetric.
pub proof fn lemma_shares_key_symmetric<T: Value>(s1: Seq<T>, s2: Seq<T>)
    ensures
        shares_key(s1, s2) == shares_key(s2, s1),
{
    if shares_key(s1, s2) {
        let k = choose|k: int| has_key(s1, k) && #[trigger] has_key(s2, k);
        assert(has_key(s2, k) && has_key(s1, k));
    }
    if shares_key(s2, s1) {
        let k = choose|k: int| has_key(s2, k) && #[trigger] has_key(s1, k);
        assert(has_key(s1, k) && has_key(s2, k));
    }
}

/// The offsets of a well-formed layout are monotone.
pub proof fn lemma_offsets_monotone<T: Value>(s: Seq<T>, j1: int, j2: int)
    requires
        wf_seq(s),
        0 <= j1 <= j2 <= bcount(s),
    ensures
        offset_at(s, j1) <= offset_at(s, j2),
    decreases j2 - j1,
{
    if j1 < j2 {
        lemma_offsets_monotone(s, j1 + 1, j2);
    }
}

/// Every member index of a well-formed layout falls into a bucket.
pub proof fn lemma_bucket_coverage<T: Value>(s: Seq<T>, i: int) -> (j: int)
    requires
        wf_seq(s),
        data_start(s) <= i < s.len(),
    ensures
        0 <= j < bcount(s),
        in_bucket(s, j, i),
{
    lemma_bucket_coverage_from(s, i, 0)
}

/// Finds, from bucket `j0` on, the bucket that the member index `i`
/// falls into.
proof fn lemma_bucket_coverage_from<T: Value>(s: Seq<T>, i: int, j0: int) -> (j: int)
    requires
        wf_seq(s),
        0 <= j0 < bcount(s),
        offset_at(s, j0) <= i < s.len(),
    ensures
        j0 <= j < bcount(s),
        in_bucket(s, j, i),
    decreases bcount(s) - j0,
{
    if i < offset_at(s, j0 + 1) {
        j0
    } else {
        assert(j0 + 1 < bcount(s)) by {
            if j0 + 1 == bcount(s) {
                assert(offset_at(s, bcount(s)) == s.len());
            }
        }
        lemma_bucket_coverage_from(s, i, j0 + 1)
    }
}

/// Whether the values of `s` are sorted by their mathematical values.
pub open spec fn sorted_by_key<T: Value>(s: Seq<T>) -> bool {
    forall|i1: int, i2: int|
        0 <= i1 <= i2 < s.len() ==> #[trigger] s[i1].key() <= #[trigger] s[i2].key()
}

/// The values of `vs` that hash into bucket `j` out of `b`, in input
/// order.
pub open spec fn hashing_to<T: Value>(vs: Seq<T>, b: int, j: int) -> Seq<T>
    decreases vs.len(),
{
    if vs.len() == 0 {
        Seq::empty()
    } else {
        let rest = hashing_to(vs.drop_last(), b, j);
        if T::hash(vs.last().key(), b) == j {
            rest.push(vs.last())
        } else {
            rest
        }
    }
}

/// Taking one more value extends exactly the class it hashes to.
proof fn lemma_hashing_to_step<T: Value>(vs: Seq<T>, b: int, j: int, i: int)
    requires
        0 <= i < vs.len(),
    ensures
        hashing_to(vs.take(i + 1), b, j) == if T::hash(vs[i].key(), b) == j {
            hashing_to(vs.take(i), b, j).push(vs[i])
        } else {
            hashing_to(vs.take(i), b, j)
        },
{
    assert(vs.take(i + 1).drop_last() =~= vs.take(i));
}

/// A class of a prefix is never longer than the class of the whole.
proof fn lemma_hashing_to_prefix_len<T: Value>(vs: Seq<T>, b: int, j: int, i: int)
    requires
        0 <= i <= vs.len(),
    ensures
        hashing_to(vs.take(i), b, j).len() <= hashing_to(vs, b, j).len(),
    decreases vs.len() - i,
{
    if i == vs.len() {
        assert(vs.take(i) =~= vs);
    } else {
        lemma_hashing_to_step(vs, b, j, i);
        lemma_hashing_to_prefix_len(vs, b, j, i + 1);
    }
}

/// Every value of a class hashes to that class's bucket.
proof fn lemma_hashing_to_hashes<T: Value>(vs: Seq<T>, b: int, j: int)
    ensures
        forall|t: int|
            0 <= t < hashing_to(vs, b, j).len() ==> T::hash(
                #[trigger] hashing_to(vs, b, j)[t].key(),
                b,
            ) == j,
    decreases vs.len(),
{
    if vs.len() > 0 {
        lemma_hashing_to_hashes(vs.drop_last(), b, j);
        let rest = hashing_to(vs.drop_last(), b, j);
        if T::hash(vs.last().key(), b) == j {
            assert(hashing_to(vs, b, j) == rest.push(vs.last()));
            assert forall|t: int| 0 <= t < hashing_to(vs, b, j).len() implies T::hash(
                hashing_to(vs, b, j)[t].key(),
                b,
            ) == j by {
                if t < rest.len() {
                    assert(hashing_to(vs, b, j)[t] == rest[t]);
                } else {
                    assert(hashing_to(vs, b, j)[t] == vs.last());
                }
            }
        } else {
            assert(hashing_to(vs, b, j) == rest);
        }
    } else {
        assert(hashing_to(vs, b, j) == Seq::<T>::empty());
    }
}

/// A class never holds more values than its input.
proof fn lemma_hashing_to_len<T: Value>(vs: Seq<T>, b: int, j: int)
    ensures
        hashing_to(vs, b, j).len() <= vs.len(),
    decreases vs.len(),
{
    if vs.len() > 0 {
        lemma_hashing_to_len(vs.drop_last(), b, j);
    }
}

/// The start of bucket `j` in the layout of `vs` over `b` buckets:
/// the first member slot, advanced by the lengths of the earlier
/// classes.
pub open spec fn class_start<T: Value>(vs: Seq<T>, b: int, j: int) -> int
    decreases j,
{
    if j <= 0 {
        3 + b
    } else {
        class_start(vs, b, j - 1) + hashing_to(vs, b, j - 1).len()
    }
}

/// The members of the classes below `j`, as one multiset.
spec fn class_multisets_below<T: Value>(vs: Seq<T>, b: int, j: int) -> Multiset<T>
    decreases j,
{
    if j <= 0 {
        Multiset::empty()
    } else {
        class_multisets_below(vs, b, j - 1).add(hashing_to(vs, b, j - 1).to_multiset())
    }
}

/// Class starts never descend.
proof fn lemma_class_start_monotone<T: Value>(vs: Seq<T>, b: int, j1: int, j2: int)
    requires
        j1 <= j2,
    ensures
        class_start(vs, b, j1) <= class_start(vs, b, j2),
    decreases j2 - j1,
{
    if j1 < j2 {
        lemma_class_start_monotone(vs, b, j1, j2 - 1);
    }
}

/// The start of bucket `j` is the first member slot advanced by the
/// total size of the earlier classes, as counted by their multisets.
proof fn lemma_class_start_len<T: Value>(vs: Seq<T>, b: int, j: int)
    ensures
        class_start(vs, b, j) == 3 + b + class_multisets_below(vs, b, j).len(),
    decreases j,
{
    broadcast use vstd::seq_lib::group_to_multiset_ensures;

    if j > 0 {
        lemma_class_start_len(vs, b, j - 1);
    }
}

/// Appending one value to the input grows exactly the class sums that
/// extend past its bucket.
proof fn lemma_class_multisets_step<T: Value>(vs: Seq<T>, b: int, j: int)
    requires
        vs.len() > 0,
        0 < b,
        0 <= j <= b,
    ensures
        class_multisets_below(vs, b, j) == if T::hash(vs.last().key(), b) < j {
            class_multisets_below(vs.drop_last(), b, j).insert(vs.last())
        } else {
            class_multisets_below(vs.drop_last(), b, j)
        },
    decreases j,
{
    broadcast use vstd::seq_lib::group_to_multiset_ensures;
    broadcast use vstd::multiset::group_multiset_axioms;

    T::lemma_hash_in_range(vs.last().key(), b);
    if j > 0 {
        lemma_class_multisets_step(vs, b, j - 1);
        let h = T::hash(vs.last().key(), b);
        if h == j - 1 {
            assert(hashing_to(vs, b, j - 1) == hashing_to(vs.drop_last(), b, j - 1).push(
                vs.last(),
            ));
            assert(hashing_to(vs.drop_last(), b, j - 1).push(vs.last()).to_multiset()
                == hashing_to(vs.drop_last(), b, j - 1).to_multiset().insert(vs.last()));
            assert(class_multisets_below(vs, b, j) =~= class_multisets_below(
                vs.drop_last(),
                b,
                j,
            ).insert(vs.last()));
        } else {
            assert(hashing_to(vs, b, j - 1) == hashing_to(vs.drop_last(), b, j - 1));
            if h < j - 1 {
                assert(class_multisets_below(vs, b, j) =~= class_multisets_below(
                    vs.drop_last(),
                    b,
                    j,
                ).insert(vs.last()));
            } else {
                assert(class_multisets_below(vs, b, j) == class_multisets_below(vs, b, j - 1).add(
                    hashing_to(vs, b, j - 1).to_multiset(),
                ));
                assert(class_multisets_below(vs.drop_last(), b, j) == class_multisets_below(
                    vs.drop_last(),
                    b,
                    j - 1,
                ).add(hashing_to(vs.drop_last(), b, j - 1).to_multiset()));
            }
        }
    } else {
        assert(class_multisets_below(vs, b, j) == Multiset::<T>::empty());
        assert(class_multisets_below(vs.drop_last(), b, j) == Multiset::<T>::empty());
    }
}

/// The classes of `vs` over `b` buckets partition it: together they
/// hold exactly the members of `vs`.
proof fn lemma_class_decomposition<T: Value>(vs: Seq<T>, b: int)
    requires
        0 < b,
    ensures
        class_multisets_below(vs, b, b) == vs.to_multiset(),
    decreases vs.len(),
{
    broadcast use vstd::seq_lib::group_to_multiset_ensures;
    broadcast use vstd::multiset::group_multiset_axioms;

    if vs.len() == 0 {
        lemma_class_multisets_empty::<T>(b, b);
        assert(vs =~= Seq::<T>::empty());
        assert(vs.to_multiset() =~= Multiset::empty());
    } else {
        lemma_class_decomposition(vs.drop_last(), b);
        T::lemma_hash_in_range(vs.last().key(), b);
        lemma_class_multisets_step(vs, b, b);
        assert(vs =~= vs.drop_last().push(vs.last()));
        assert(vs.drop_last().push(vs.last()).to_multiset() == vs.drop_last().to_multiset().insert(
            vs.last(),
        ));
        assert(vs.to_multiset() == vs.drop_last().to_multiset().insert(vs.last()));
    }
}

/// Every class of an empty input is empty.
proof fn lemma_class_multisets_empty<T: Value>(b: int, j: int)
    ensures
        class_multisets_below(Seq::<T>::empty(), b, j) == Multiset::<T>::empty(),
    decreases j,
{
    broadcast use vstd::seq_lib::group_to_multiset_ensures;
    broadcast use vstd::multiset::group_multiset_axioms;

    if j > 0 {
        lemma_class_multisets_empty::<T>(b, j - 1);
        assert(class_multisets_below(Seq::<T>::empty(), b, j) =~= Multiset::<T>::empty());
    }
}

/// Past the last bucket, the class starts have advanced over every
/// member: the end of the last bucket is the total layout length.
proof fn lemma_class_start_total<T: Value>(vs: Seq<T>, b: int)
    requires
        0 < b,
    ensures
        class_start(vs, b, b) == 3 + b + vs.len(),
{
    broadcast use vstd::seq_lib::group_to_multiset_ensures;

    lemma_class_start_len(vs, b, b);
    lemma_class_decomposition(vs, b);
}

/// A storage whose buckets each hold their class, as a multiset,
/// holds all the classes below `j` in its first `j` buckets.
proof fn lemma_members_multiset<T: Value>(s: Seq<T>, vs: Seq<T>, b: int, j: int)
    requires
        0 <= j <= b,
        class_start(vs, b, b) <= s.len(),
        forall|t: int|
            0 <= t < b ==> s.subrange(class_start(vs, b, t), class_start(vs, b, t + 1)).to_multiset()
                == #[trigger] hashing_to(vs, b, t).to_multiset(),
    ensures
        s.subrange(3 + b, class_start(vs, b, j)).to_multiset() == class_multisets_below(vs, b, j),
    decreases j,
{
    broadcast use vstd::multiset::group_multiset_axioms;

    if j == 0 {
        broadcast use vstd::seq_lib::group_to_multiset_ensures;

        lemma_class_start_monotone(vs, b, 0, b);
        assert(s.subrange(3 + b, 3 + b) =~= Seq::<T>::empty());
        assert(Seq::<T>::empty().to_multiset() =~= Multiset::<T>::empty());
    } else {
        lemma_members_multiset(s, vs, b, j - 1);
        lemma_class_start_monotone(vs, b, 0, j - 1);
        lemma_class_start_monotone(vs, b, j, b);
        assert(s.subrange(class_start(vs, b, j - 1), class_start(vs, b, (j - 1) + 1)).to_multiset()
            == hashing_to(vs, b, j - 1).to_multiset());
        assert(s.subrange(3 + b, class_start(vs, b, j)) =~= s.subrange(
            3 + b,
            class_start(vs, b, j - 1),
        ) + s.subrange(class_start(vs, b, j - 1), class_start(vs, b, j)));
        vstd::seq_lib::lemma_multiset_commutative(
            s.subrange(3 + b, class_start(vs, b, j - 1)),
            s.subrange(class_start(vs, b, j - 1), class_start(vs, b, j)),
        );
    }
}

/// A storage filled bucket by bucket is a well-formed layout whose
/// members are exactly the input values.
proof fn lemma_layout_complete<T: Value>(s: Seq<T>, vs: Seq<T>, b: int, n: int)
    requires
        0 <= b,
        0 <= n,
        n == vs.len(),
        0 < b || n == 0,
        3 + b + n <= T::max_count(),
        s.len() == 3 + b + n,
        s[0].key() == b,
        s[1].key() == n,
        forall|t: int| 0 <= t < b ==> #[trigger] s[2 + t].key() == class_start(vs, b, t),
        s[2 + b].key() == 3 + b + n,
        forall|t: int|
            0 <= t < b ==> s.subrange(class_start(vs, b, t), class_start(vs, b, t + 1)).to_multiset()
                == #[trigger] hashing_to(vs, b, t).to_multiset(),
        forall|t: int|
            0 <= t < b ==> sorted_by_key(
                #[trigger] s.subrange(class_start(vs, b, t), class_start(vs, b, t + 1)),
            ),
    ensures
        wf_seq(s),
        bcount(s) == b,
        mcount(s) == n,
        members(s).to_multiset() == vs.to_multiset(),
{
    if b == 0 {
        assert(wf_seq(s));
        assert(members(s) =~= Seq::<T>::empty());
        assert(vs =~= Seq::<T>::empty());
        broadcast use vstd::seq_lib::group_to_multiset_ensures;

        assert(members(s).to_multiset() =~= vs.to_multiset());
    } else {
        lemma_class_start_total(vs, b);
        assert forall|t: int| 0 <= t < b implies #[trigger] offset_at(s, t) <= offset_at(
            s,
            t + 1,
        ) by {
            lemma_class_start_monotone(vs, b, t, t + 1);
        }
        assert forall|t: int, w: int|
            0 <= t < bcount(s) && #[trigger] in_bucket(s, t, w) implies T::hash(
            s[w].key(),
            bcount(s),
        ) == t by {
            broadcast use vstd::seq_lib::group_to_multiset_ensures;

            lemma_class_start_monotone(vs, b, 0, t);
            lemma_class_start_monotone(vs, b, t + 1, b);
            let sub = s.subrange(class_start(vs, b, t), class_start(vs, b, t + 1));
            assert(sub[w - class_start(vs, b, t)] == s[w]);
            assert(sub.contains(s[w]));
            assert(sub.to_multiset().count(s[w]) > 0);
            assert(hashing_to(vs, b, t).to_multiset().count(s[w]) > 0);
            assert(hashing_to(vs, b, t).contains(s[w]));
            lemma_hashing_to_hashes(vs, b, t);
        }
        assert forall|t: int, w1: int, w2: int|
            0 <= t < bcount(s) && #[trigger] in_bucket(s, t, w1) && #[trigger] in_bucket(s, t, w2)
            && w1 <= w2 implies s[w1].key() <= s[w2].key() by {
            lemma_class_start_monotone(vs, b, 0, t);
            lemma_class_start_monotone(vs, b, t + 1, b);
            let sub = s.subrange(class_start(vs, b, t), class_start(vs, b, t + 1));
            assert(sub[w1 - class_start(vs, b, t)] == s[w1]);
            assert(sub[w2 - class_start(vs, b, t)] == s[w2]);
        }
        assert(wf_seq(s));
        lemma_members_multiset(s, vs, b, b);
        lemma_class_decomposition(vs, b);
        assert(members(s) =~= s.subrange(3 + b, class_start(vs, b, b)));
    }
}

/// Swapping two positions of a sequence preserves its multiset.
proof fn lemma_swap_preserves_multiset<T>(s: Seq<T>, a: int, b: int)
    requires
        0 <= a < s.len(),
        0 <= b < s.len(),
    ensures
        s.update(a, s[b]).update(b, s[a]).to_multiset() == s.to_multiset(),
{
    broadcast use vstd::seq_lib::group_to_multiset_ensures;
    broadcast use vstd::multiset::group_multiset_axioms;

    if a == b {
        assert(s.update(a, s[b]).update(b, s[a]) =~= s);
    } else {
        let u1 = s.update(a, s[b]);
        assert(u1[b] == s[b]);
        assert(s.contains(s[a]) && s.contains(s[b]));
        assert(s.to_multiset().count(s[a]) > 0);
        assert(s.to_multiset().count(s[b]) > 0);
        assert(u1.update(b, s[a]).to_multiset() =~= s.to_multiset());
    }
}

/// Sorts the value range `[begin, end)` of the storage in place by
/// insertion, leaving every other slot untouched and permuting only
/// the range itself.
#[verifier::loop_isolation(false)]
fn sort_range<T: Value>(storage: &mut Vec<T>, begin: usize, end: usize)
    requires
        begin <= end <= old(storage)@.len(),
    ensures
        final(storage)@.len() == old(storage)@.len(),
        forall|i: int|
            0 <= i < old(storage)@.len() && !(begin <= i < end) ==> final(storage)@[i] == old(
                storage,
            )@[i],
        final(storage)@.subrange(begin as int, end as int).to_multiset() == old(
            storage,
        )@.subrange(begin as int, end as int).to_multiset(),
        sorted_by_key(final(storage)@.subrange(begin as int, end as int)),
{
    let mut t: usize = begin;
    while t < end
        invariant
            begin <= t <= end,
            storage@.len() == old(storage)@.len(),
            forall|i: int|
                0 <= i < old(storage)@.len() && !(begin <= i < end) ==> storage@[i] == old(
                    storage,
                )@[i],
            storage@.subrange(begin as int, end as int).to_multiset() == old(storage)@.subrange(
                begin as int,
                end as int,
            ).to_multiset(),
            forall|i1: int, i2: int|
                begin <= i1 <= i2 < t ==> #[trigger] storage@[i1].key() <= #[trigger] storage@[i2].key(),
        decreases end - t,
    {
        let mut p: usize = t;
        let mut done = false;
        while p > begin && !done
            invariant
                begin <= p <= t < end,
                storage@.len() == old(storage)@.len(),
                forall|i: int|
                    0 <= i < old(storage)@.len() && !(begin <= i < end) ==> storage@[i] == old(
                        storage,
                    )@[i],
                storage@.subrange(begin as int, end as int).to_multiset() == old(
                    storage,
                )@.subrange(begin as int, end as int).to_multiset(),
                forall|i1: int, i2: int|
                    begin <= i1 <= i2 < p ==> #[trigger] storage@[i1].key()
                        <= #[trigger] storage@[i2].key(),
                forall|i1: int, i2: int|
                    p <= i1 <= i2 <= t ==> #[trigger] storage@[i1].key()
                        <= #[trigger] storage@[i2].key(),
                forall|i1: int, i2: int|
                    begin <= i1 < p && p < i2 <= t ==> #[trigger] storage@[i1].key()
                        <= #[trigger] storage@[i2].key(),
                done && p > begin ==> storage@[p - 1].key() <= storage@[p as int].key(),
            decreases p, (if done { 0int } else { 1int }),
        {
            let prev = storage[p - 1];
            let cur = storage[p];
            match prev.cmp(&cur) {
                core::cmp::Ordering::Greater => {
                    let ghost before = storage@;
                    storage[p - 1] = cur;
                    storage[p] = prev;
                    proof {
                        assert(storage@ == before.update(p - 1, before[p as int]).update(
                            p as int,
                            before[p - 1],
                        ));
                        assert(storage@.subrange(begin as int, end as int) =~= before.subrange(
                            begin as int,
                            end as int,
                        ).update(p - 1 - begin, before[p as int]).update(
                            p - begin,
                            before[p - 1],
                        ));
                        lemma_swap_preserves_multiset(
                            before.subrange(begin as int, end as int),
                            p - 1 - begin,
                            p - begin,
                        );
                    }
                    p = p - 1;
                },
                _ => {
                    done = true;
                },
            }
        }
        t = t + 1;
    }
    proof {
        assert forall|i1: int, i2: int|
            0 <= i1 <= i2 < end - begin implies #[trigger] final(storage)@.subrange(
            begin as int,
            end as int,
        )[i1].key() <= #[trigger] final(storage)@.subrange(begin as int, end as int)[i2].key() by {
            assert(final(storage)@[begin + i1].key() <= final(storage)@[begin + i2].key());
        }
    }
}

/// The byte serialization of a layout: the fixed-width encodings of
/// its slots, in slot order.
pub open spec fn layout_bytes<T: Value>(s: Seq<T>) -> Seq<u8>
    decreases s.len(),
{
    if s.len() == 0 {
        Seq::empty()
    } else {
        layout_bytes(s.drop_last()) + s.last().byte_repr()
    }
}

/// The serialization grows by one encoding per slot.
proof fn lemma_layout_bytes_step<T: Value>(s: Seq<T>, i: int)
    requires
        0 <= i < s.len(),
    ensures
        layout_bytes(s.take(i + 1)) == layout_bytes(s.take(i)) + s[i].byte_repr(),
{
    assert(s.take(i + 1).drop_last() =~= s.take(i));
    assert(s.take(i + 1).last() == s[i]);
}

/// No false negatives: a well-formed set whose members are, as a
/// multiset, the input sequence `vs` holds the mathematical value of
/// every element of `vs`, so `contains` answers true for each of
/// them.
pub proof fn lemma_no_false_negatives<T: Value>(s: Seq<T>, vs: Seq<T>, i: int)
    requires
        wf_seq(s),
        members(s).to_multiset() == vs.to_multiset(),
        0 <= i < vs.len(),
    ensures
        has_key(s, vs[i].key()),
{
    broadcast use vstd::seq_lib::group_to_multiset_ensures;

    assert(vs.contains(vs[i]));
    assert(vs.to_multiset().count(vs[i]) > 0);
    assert(members(s).contains(vs[i]));
    let w = choose|w: int| 0 <= w < members(s).len() && members(s)[w] == vs[i];
    assert(s[data_start(s) + w].key() == vs[i].key());
}

/// No false positives: a set whose members are, as a multiset, the
/// input sequence `vs` holds no mathematical value beyond those of
/// `vs`, so `contains` answers false for every other probe.
pub proof fn lemma_no_false_positives<T: Value>(s: Seq<T>, vs: Seq<T>, k: int)
    requires
        wf_seq(s),
        members(s).to_multiset() == vs.to_multiset(),
        has_key(s, k),
    ensures
        exists|i: int| 0 <= i < vs.len() && #[trigger] vs[i].key() == k,
{
    broadcast use vstd::seq_lib::group_to_multiset_ensures;

    let w = choose|w: int| data_start(s) <= w < s.len() && #[trigger] s[w].key() == k;
    assert(members(s)[w - data_start(s)] == s[w]);
    assert(members(s).contains(s[w]));
    assert(members(s).to_multiset().count(s[w]) > 0);
    assert(vs.contains(s[w]));
    let i = choose|i: int| 0 <= i < vs.len() && vs[i] == s[w];
    assert(vs[i].key() == k);
}

/// The serialization of a layout of 32-bit integers decodes back to
/// that exact layout: attaching to the decoded buffer yields a set
/// answering every query as the serialized one did, which closes the
/// round trip from building through serializing to attaching.
pub proof fn lemma_layout_bytes_round_trip(s: Seq<i32>)
    ensures
        layout_bytes(s).len() == 4 * s.len(),
        layout_bytes(s).len() % 4 == 0,
        i32s_from_le_bytes(layout_bytes(s)) == s,
{
    lemma_layout_bytes_pointwise(s);
    lemma_i32s_from_le_bytes_pointwise(layout_bytes(s));
    assert forall|j: int| 0 <= j < s.len() implies #[trigger] i32s_from_le_bytes(
        layout_bytes(s),
    )[j] == s[j] by {
        lemma_i32_le_round_trip(s[j]);
        assert(i32_le_bytes(s[j])[0] == layout_bytes(s)[4 * j + 0]);
        assert(i32_le_bytes(s[j])[1] == layout_bytes(s)[4 * j + 1]);
        assert(i32_le_bytes(s[j])[2] == layout_bytes(s)[4 * j + 2]);
        assert(i32_le_bytes(s[j])[3] == layout_bytes(s)[4 * j + 3]);
    }
    assert(i32s_from_le_bytes(layout_bytes(s)) =~= s);
}

/// The serialization of a layout of 32-bit integers is its values'
/// encodings, four bytes per slot, in slot order.
proof fn lemma_layout_bytes_pointwise(s: Seq<i32>)
    ensures
        layout_bytes(s).len() == 4 * s.len(),
        forall|j: int, t: int|
            0 <= j < s.len() && 0 <= t < 4 ==> layout_bytes(s)[4 * j + t] == #[trigger] i32_le_bytes(
                s[j],
            )[t],
    decreases s.len(),
{
    if s.len() > 0 {
        lemma_layout_bytes_pointwise(s.drop_last());
        assert(layout_bytes(s) == layout_bytes(s.drop_last()) + i32_le_bytes(s.last()));
        assert forall|j: int, t: int|
            0 <= j < s.len() && 0 <= t < 4 implies layout_bytes(s)[4 * j + t]
            == #[trigger] i32_le_bytes(s[j])[t] by {
            if j < s.len() - 1 {
                assert(i32_le_bytes(s.drop_last()[j])[t] == layout_bytes(s.drop_last())[4 * j
                    + t]);
                assert(layout_bytes(s)[4 * j + t] == layout_bytes(s.drop_last())[4 * j + t]);
            } else {
                assert(layout_bytes(s)[4 * j + t] == i32_le_bytes(s.last())[t]);
            }
        }
    }
}

/// Defines how the data of a scalar set is stored.
#[derive(Clone)]
#[allow(inconsistent_fields)]
enum Storage<'a, T> {
    /// The set owns its layout.
    Vector { data: Vec<T> },
    /// The set borrows a layout from a caller-supplied buffer.
    Slice { data: &'a [T] },
}

/// A read-only scalar set of values satisfying the [`Value`]
/// contract.
///
/// The set is an immutable multiset: duplicates are preserved and
/// counted by `size`. It is built once by [`RoScalarSet::new`], or
/// adopted without copying over a previously serialized buffer by
/// [`RoScalarSet::attach`], and never mutated afterwards.
#[derive(Clone)]
pub struct RoScalarSet<'a, T: Value> {
    storage: Storage<'a, T>,
}

impl<'a, T: Value> View for RoScalarSet<'a, T> {
    type V = Seq<T>;

    /// The layout of the set, owned or borrowed alike.
    closed spec fn view(&self) -> Seq<T> {
        match self.storage {
            Storage::Vector { data } => data@,
            Storage::Slice { data } => data@,
        }
    }
}

impl<'a, T: Value> RoScalarSet<'a, T> {
    /// Whether the set's layout is well-formed. Construction
    /// establishes this; attaching preserves whatever the buffer
    /// holds, so it is promised only for buffers carrying a
    /// well-formed layout.
    pub open spec fn wf(&self) -> bool {
        wf_seq(self@)
    }

    /// Borrows the storage for accessing the values.
    fn borrow_storage(&self) -> (r: &[T])
        ensures
            r@ == self@,
    {
        match &self.storage {
            Storage::Vector { data } => data.as_slice(),
            Storage::Slice { data } => data,
        }
    }

    /// Returns a new scalar set holding the specified values.
    ///
    /// The values are an arbitrary finite sequence; duplicates are
    /// kept, so the resulting set indexes a multiset. The one
    /// precondition is the machine limit: the layout must fit in the
    /// value type's representable counts.
    pub fn new<'b>(values: &[T]) -> (r: RoScalarSet<'b, T>)
        requires
            3 + bucket_count_for(values@.len() as int) + values@.len() <= T::max_count(),
        ensures
            r.wf(),
            bcount(r@) == bucket_count_for(values@.len() as int),
            mcount(r@) == values@.len(),
            members(r@).to_multiset() == values@.to_multiset(),
    {
        let storage = Self::create_storage(values);
        RoScalarSet { storage }
    }

    /// Creates a new storage buffer holding the layout of the given
    /// values: counts, then bucket offsets, then the values
    /// themselves, grouped by bucket and sorted inside each bucket.
    #[verifier::rlimit(100)]
    fn create_storage<'c>(values: &[T]) -> (r: Storage<'c, T>)
        requires
            3 + bucket_count_for(values@.len() as int) + values@.len() <= T::max_count(),
        ensures
            r matches Storage::Vector { data } ==> {
                &&& wf_seq(data@)
                &&& bcount(data@) == bucket_count_for(values@.len() as int)
                &&& mcount(data@) == values@.len()
                &&& members(data@).to_multiset() == values@.to_multiset()
            },
            r is Vector,
    {
        proof {
            T::lemma_max_count_fits();
        }
        let ghost vs = values@;
        let n: usize = values.len();

        // Determine the number of buckets: a five-percent overhead.
        let b: usize = n / 20 + if n % 20 != 0 {
            1
        } else {
            0
        };
        assert(b as int == bucket_count_for(n as int));
        let total: usize = 2 + b + 1 + n;
        let mut storage: Vec<T> = vec![T::zero(); total];

        // Store the number of buckets and the number of members.
        let buckets_value = T::from_bucket_count(&b);
        storage[0] = buckets_value;
        let member_value = T::from_member_count(n);
        storage[1] = member_value;

        // First pass: tally the values hashing into each bucket.
        let mut values_in_buckets: Vec<usize> = vec![0usize; b];
        let mut i: usize = 0;
        while i < n
            invariant
                vs == values@,
                n == vs.len(),
                0 < b || n == 0,
                b as int <= T::max_count(),
                T::max_count() <= usize::MAX,
                buckets_value.key() == b,
                i <= n,
                values_in_buckets@.len() == b,
                forall|t: int|
                    0 <= t < b ==> #[trigger] values_in_buckets@[t] == hashing_to(
                        vs.take(i as int),
                        b as int,
                        t,
                    ).len(),
            decreases n - i,
        {
            let v = values[i];
            let bucket = v.get_bucket_index(&buckets_value);
            proof {
                T::lemma_hash_in_range(vs[i as int].key(), b as int);
                assert forall|t: int| 0 <= t < b implies hashing_to(
                    vs.take(i as int + 1),
                    b as int,
                    t,
                ) == (if T::hash(vs[i as int].key(), b as int) == t {
                    hashing_to(vs.take(i as int), b as int, t).push(vs[i as int])
                } else {
                    hashing_to(vs.take(i as int), b as int, t)
                }) by {
                    lemma_hashing_to_step(vs, b as int, t, i as int);
                }
                lemma_hashing_to_len(vs.take(i as int), b as int, bucket as int);
            }
            let c = values_in_buckets[bucket];
            values_in_buckets[bucket] = c + 1;
            i = i + 1;
        }
        proof {
            assert(vs.take(n as int) =~= vs);
        }

        // Convert the tallies into bucket offsets: slot `2 + j` holds
        // the start of bucket `j`. Keep a cursor per bucket for the
        // placement pass.
        let mut cursors: Vec<usize> = Vec::new();
        let mut cursor: usize = 2 + b + 1;
        let mut j: usize = 0;
        while j < b
            invariant
                vs == values@,
                n == vs.len(),
                0 < b || n == 0,
                total == 3 + b + n,
                total as int <= T::max_count(),
                T::max_count() <= usize::MAX,
                buckets_value.key() == b,
                member_value.key() == n,
                forall|t: int|
                    0 <= t < b ==> #[trigger] values_in_buckets@[t] == hashing_to(
                        vs,
                        b as int,
                        t,
                    ).len(),
                values_in_buckets@.len() == b,
                j <= b,
                cursors@.len() == j,
                storage@.len() == total,
                storage@[0] == buckets_value,
                storage@[1] == member_value,
                cursor as int == class_start(vs, b as int, j as int),
                cursor <= total,
                forall|t: int|
                    0 <= t < j ==> #[trigger] storage@[2 + t].key() == class_start(
                        vs,
                        b as int,
                        t,
                    ),
                forall|t: int|
                    0 <= t < j ==> #[trigger] cursors@[t] as int == class_start(vs, b as int, t),
            decreases b - j,
        {
            proof {
                lemma_class_start_total(vs, b as int);
                lemma_class_start_monotone(vs, b as int, j as int + 1, b as int);
            }
            storage[2 + j] = T::from_index(cursor);
            cursors.push(cursor);
            let cnt = values_in_buckets[j];
            cursor = cursor + cnt;
            j = j + 1;
        }
        storage[2 + b] = T::from_index(total);
        proof {
            if b > 0 {
                lemma_class_start_total(vs, b as int);
            }
        }

        proof {
            assert forall|t: int| 0 <= t < b implies storage@.subrange(
                class_start(vs, b as int, t),
                cursors@[t] as int,
            ) == #[trigger] hashing_to(vs.take(0), b as int, t) by {
                lemma_class_start_monotone(vs, b as int, 0, t);
                lemma_class_start_monotone(vs, b as int, t, b as int);
                lemma_class_start_total(vs, b as int);
                assert(storage@.subrange(
                    class_start(vs, b as int, t),
                    class_start(vs, b as int, t),
                ) =~= Seq::<T>::empty());
                assert(hashing_to(vs.take(0), b as int, t) == Seq::<T>::empty());
            }
            assert forall|t: int| 0 <= t < b implies #[trigger] cursors@[t] as int <= class_start(
                vs,
                b as int,
                t + 1,
            ) by {
                lemma_class_start_monotone(vs, b as int, t, t + 1);
            }
        }

        // Second pass: place every value at its bucket's cursor.
        let mut i: usize = 0;
        while i < n
            invariant
                vs == values@,
                n == vs.len(),
                total == 3 + b + n,
                total as int <= T::max_count(),
                T::max_count() <= usize::MAX,
                buckets_value.key() == b,
                member_value.key() == n,
                i <= n,
                0 < b || n == 0,
                storage@.len() == total,
                storage@[0] == buckets_value,
                storage@[1] == member_value,
                forall|t: int|
                    0 <= t < b ==> #[trigger] storage@[2 + t].key() == class_start(
                        vs,
                        b as int,
                        t,
                    ),
                storage@[2 + b as int].key() == total,
                cursors@.len() == b,
                forall|t: int|
                    0 <= t < b ==> #[trigger] cursors@[t] as int == class_start(vs, b as int, t)
                        + hashing_to(vs.take(i as int), b as int, t).len(),
                forall|t: int|
                    0 <= t < b ==> #[trigger] cursors@[t] as int <= class_start(
                        vs,
                        b as int,
                        t + 1,
                    ),
                forall|t: int|
                    0 <= t < b ==> storage@.subrange(
                        class_start(vs, b as int, t),
                        cursors@[t] as int,
                    ) == #[trigger] hashing_to(vs.take(i as int), b as int, t),
            decreases n - i,
        {
            let v = values[i];
            let bucket = v.get_bucket_index(&buckets_value);
            let ghost bi = bucket as int;
            proof {
                T::lemma_hash_in_range(vs[i as int].key(), b as int);
                assert forall|t: int| 0 <= t < b implies hashing_to(
                    vs.take(i as int + 1),
                    b as int,
                    t,
                ) == (if T::hash(vs[i as int].key(), b as int) == t {
                    hashing_to(vs.take(i as int), b as int, t).push(vs[i as int])
                } else {
                    hashing_to(vs.take(i as int), b as int, t)
                }) by {
                    lemma_hashing_to_step(vs, b as int, t, i as int);
                }
                lemma_hashing_to_prefix_len(vs, b as int, bi, i as int + 1);
                lemma_class_start_monotone(vs, b as int, 0, bi);
                lemma_class_start_monotone(vs, b as int, bi + 1, b as int);
                lemma_class_start_total(vs, b as int);
                assert(class_start(vs, b as int, bi + 1) == class_start(vs, b as int, bi)
                    + hashing_to(vs, b as int, bi).len());
            }
            let value_index = cursors[bucket];
            let ghost before = storage@;
            storage[value_index] = v;
            let c2 = cursors[bucket];
            cursors[bucket] = c2 + 1;
            proof {
                assert(storage@ == before.update(value_index as int, v));
                assert forall|t: int| 0 <= t < b && t != bi implies storage@.subrange(
                    class_start(vs, b as int, t),
                    cursors@[t] as int,
                ) == #[trigger] hashing_to(vs.take(i as int + 1), b as int, t) by {
                    lemma_class_start_monotone(vs, b as int, 0, t);
                    lemma_class_start_monotone(vs, b as int, t + 1, b as int);
                    if t < bi {
                        lemma_class_start_monotone(vs, b as int, t + 1, bi);
                    } else {
                        lemma_class_start_monotone(vs, b as int, bi + 1, t);
                    }
                    assert(storage@.subrange(class_start(vs, b as int, t), cursors@[t] as int)
                        =~= before.subrange(class_start(vs, b as int, t), cursors@[t] as int));
                }
                assert(storage@.subrange(class_start(vs, b as int, bi), c2 as int + 1)
                    =~= before.subrange(class_start(vs, b as int, bi), c2 as int).push(
                    vs[i as int],
                ));
            }
            i = i + 1;
        }
        proof {
            assert(vs.take(n as int) =~= vs);
        }

        // Third pass: sort each bucket to enable binary search. The
        // bucket bounds are read back from the offset slots; that the
        // end of a bucket can never fall below its begin is proved
        // rather than checked at run time.
        let ghost mid_storage = storage@;
        let mut j: usize = 0;
        while j < b
            invariant
                vs == values@,
                n == vs.len(),
                total == 3 + b + n,
                total as int <= T::max_count(),
                T::max_count() <= usize::MAX,
                buckets_value.key() == b,
                member_value.key() == n,
                j <= b,
                0 < b || n == 0,
                storage@.len() == total,
                storage@[0] == buckets_value,
                storage@[1] == member_value,
                forall|t: int|
                    0 <= t < b ==> #[trigger] storage@[2 + t].key() == class_start(
                        vs,
                        b as int,
                        t,
                    ),
                storage@[2 + b as int].key() == total,
                forall|t: int|
                    0 <= t < b ==> storage@.subrange(
                        class_start(vs, b as int, t),
                        class_start(vs, b as int, t + 1),
                    ).to_multiset() == #[trigger] hashing_to(vs, b as int, t).to_multiset(),
                forall|t: int|
                    j <= t < b ==> storage@.subrange(
                        class_start(vs, b as int, t),
                        class_start(vs, b as int, t + 1),
                    ) == #[trigger] hashing_to(vs, b as int, t),
                forall|t: int|
                    0 <= t < j ==> sorted_by_key(
                        #[trigger] storage@.subrange(
                            class_start(vs, b as int, t),
                            class_start(vs, b as int, t + 1),
                        ),
                    ),
            decreases b - j,
        {
            proof {
                lemma_class_start_monotone(vs, b as int, 0, j as int);
                lemma_class_start_monotone(vs, b as int, j as int, j as int + 1);
                lemma_class_start_monotone(vs, b as int, j as int + 1, b as int);
                lemma_class_start_total(vs, b as int);
                assert(storage@[2 + j as int].key() == class_start(vs, b as int, j as int));
                if j as int + 1 < b as int {
                    assert(storage@[2 + (j as int + 1)].key() == class_start(
                        vs,
                        b as int,
                        j as int + 1,
                    ));
                } else {
                    assert(storage@[2 + b as int].key() == total as int);
                    assert(class_start(vs, b as int, j as int + 1) == total as int);
                }
            }
            let begin = storage[2 + j].as_index();
            let end = storage[2 + j + 1].as_index();
            assert(begin <= end);
            let ghost before = storage@;
            sort_range(&mut storage, begin, end);
            proof {
                assert(storage@.subrange(0, 2 + b as int + 1) =~= before.subrange(
                    0,
                    2 + b as int + 1,
                ));
                assert forall|t: int| 0 <= t < b && t != j implies #[trigger] storage@.subrange(
                    class_start(vs, b as int, t),
                    class_start(vs, b as int, t + 1),
                ) =~= before.subrange(
                    class_start(vs, b as int, t),
                    class_start(vs, b as int, t + 1),
                ) by {
                    if t < j {
                        lemma_class_start_monotone(vs, b as int, 0, t);
                        lemma_class_start_monotone(vs, b as int, t + 1, j as int);
                    } else {
                        lemma_class_start_monotone(vs, b as int, 0, t);
                        lemma_class_start_monotone(vs, b as int, j as int + 1, t);
                        lemma_class_start_monotone(vs, b as int, t + 1, b as int);
                    }
                }
            }
            j = j + 1;
        }

        // The layout is complete: its well-formedness and that its
        // members are exactly the input values follow from the
        // bucket-by-bucket facts of the three passes.
        proof {
            lemma_layout_complete(storage@, vs, b as int, n as int);
        }
        Storage::Vector { data: storage }
    }

    /// Attaches a scalar set to a buffer already holding its layout,
    /// without copying: the set borrows the prefix of the buffer that
    /// the two leading counts describe, and the unconsumed remainder
    /// is returned for further parsing. A buffer shorter than four
    /// values is rejected as too small; no structural validation
    /// beyond that is performed, so the well-formedness of the
    /// attached set is exactly that of the buffer's prefix.
    pub fn attach<'b>(buffer: &'b [T]) -> (r: Result<(RoScalarSet<'b, T>, &'b [T]), &'static str>)
        requires
            buffer@.len() >= 4 ==> {
                &&& 0 <= buffer@[0].key() <= T::max_count()
                &&& 0 <= buffer@[1].key() <= T::max_count()
                &&& 3 + buffer@[0].key() + buffer@[1].key() <= buffer@.len()
            },
        ensures
            r is Err <==> buffer@.len() < 4,
            r matches Ok(p) ==> {
                let total = 3 + buffer@[0].key() + buffer@[1].key();
                &&& p.0@ == buffer@.subrange(0, total)
                &&& p.1@ == buffer@.subrange(total, buffer@.len() as int)
            },
    {
        if buffer.len() < 4 {
            return Err("the buffer is too small to hold a scalar set");
        }
        let first = buffer[0];
        let buckets = first.as_index();
        let second = buffer[1];
        let values = second.as_index();
        let total_size: usize = 2 + (buckets + 1) + values;

        let (set, remainder) = buffer.split_at(total_size);
        let storage: Storage<'b, T> = Storage::Slice { data: set };
        Ok((RoScalarSet { storage }, remainder))
    }

    /// Checks if any two of the sets' members are equal: it walks the
    /// member values of the smaller set and probes the larger one.
    #[verifier::loop_isolation(false)]
    pub fn any(&self, other: &RoScalarSet<'_, T>) -> (r: bool)
        requires
            self.wf(),
            other.wf(),
        ensures
            r == shares_key(self@, other@),
    {
        let small: &RoScalarSet<'_, T>;
        let large: &RoScalarSet<'_, T>;
        if other.size() < self.size() {
            small = other;
            large = self;
        } else {
            small = self;
            large = other;
        }

        let values = small.borrow_values();
        let mut i: usize = 0;
        while i < values.len()
            invariant
                i <= values@.len(),
                forall|t: int| 0 <= t < i ==> !has_key(large@, #[trigger] values@[t].key()),
            decreases values@.len() - i,
        {
            let probe = values[i];
            if large.contains(&probe) {
                proof {
                    let k = probe.key();
                    assert(small@[data_start(small@) + i].key() == k);
                    assert(has_key(small@, k));
                    lemma_shares_key_symmetric(small@, large@);
                    lemma_shares_key_symmetric(self@, other@);
                }
                return true;
            }
            i = i + 1;
        }
        proof {
            assert forall|k: int| has_key(small@, k) implies !has_key(large@, k) by {
                let w = choose|w: int|
                    data_start(small@) <= w < small@.len() && #[trigger] small@[w].key() == k;
                assert(values@[w - data_start(small@)].key() == k);
            }
            lemma_shares_key_symmetric(small@, large@);
            lemma_shares_key_symmetric(self@, other@);
        }
        false
    }

    /// Serializes the scalar set into the given sink, appending the
    /// fixed-width encoding of every layout slot in order. The stream
    /// is self-describing: the bucket and member counts are its first
    /// two encoded values.
    #[verifier::loop_isolation(false)]
    pub fn serialize(&self, sink: &mut Vec<u8>)
        ensures
            final(sink)@ == old(sink)@ + layout_bytes(self@),
    {
        let storage = self.borrow_storage();
        let mut i: usize = 0;
        proof {
            assert(self@.take(0) =~= Seq::<T>::empty());
        }
        while i < storage.len()
            invariant
                i <= self@.len(),
                sink@ == old(sink)@ + layout_bytes(self@.take(i as int)),
            decreases self@.len() - i,
        {
            let v = storage[i];
            v.serialize(sink);
            proof {
                lemma_layout_bytes_step(self@, i as int);
            }
            i = i + 1;
        }
        proof {
            assert(self@.take(self@.len() as int) =~= self@);
        }
    }

    /// Checks whether the given value exists in the set or not: it
    /// binary-searches the one bucket that the value hashes to.
    #[verifier::loop_isolation(false)]
    pub fn contains(&self, value: &T) -> (r: bool)
        requires
            self.wf(),
        ensures
            r == has_key(self@, value.key()),
    {
        let storage = self.borrow_storage();
        let buckets_total = storage[0].as_index();
        if buckets_total == 0 {
            return false;
        }
        let ghost j = T::hash(value.key(), bcount(self@));
        let ghost begin = offset_at(self@, j);
        let ghost end = offset_at(self@, j + 1);
        proof {
            T::lemma_hash_in_range(value.key(), bcount(self@));
            lemma_offsets_monotone(self@, 0, j);
            lemma_offsets_monotone(self@, j + 1, bcount(self@));
            assert(in_bucket(self@, j, begin) || begin == end);
        }
        let bucket = self.get_bucket(value);
        let mut lo: usize = 0;
        let mut hi: usize = bucket.len();
        while lo < hi
            invariant
                lo <= hi <= bucket@.len(),
                forall|i: int| 0 <= i < lo ==> #[trigger] bucket@[i].key() < value.key(),
                forall|i: int|
                    hi <= i < bucket@.len() ==> #[trigger] bucket@[i].key() > value.key(),
            decreases hi - lo,
        {
            let mid: usize = lo + (hi - lo) / 2;
            let probe = bucket[mid];
            match probe.cmp(value) {
                core::cmp::Ordering::Less => {
                    proof {
                        assert forall|i: int| 0 <= i < mid + 1 implies #[trigger] bucket@[i].key()
                            < value.key() by {
                            assert(in_bucket(self@, j, begin + i));
                            assert(in_bucket(self@, j, begin + mid));
                            assert(self@[begin + i].key() <= self@[begin + mid].key());
                        }
                    }
                    lo = mid + 1;
                },
                core::cmp::Ordering::Greater => {
                    proof {
                        assert forall|i: int| mid <= i < bucket@.len() implies #[trigger] bucket@[i].key()
                            > value.key() by {
                            assert(in_bucket(self@, j, begin + i));
                            assert(in_bucket(self@, j, begin + mid));
                            assert(self@[begin + mid].key() <= self@[begin + i].key());
                        }
                    }
                    hi = mid;
                },
                core::cmp::Ordering::Equal => {
                    proof {
                        assert(self@[begin + mid].key() == value.key());
                    }
                    return true;
                },
            }
        }
        proof {
            assert forall|i: int|
                data_start(self@) <= i < self@.len() implies #[trigger] self@[i].key()
                != value.key() by {
                let j2 = lemma_bucket_coverage(self@, i);
                if self@[i].key() == value.key() {
                    assert(in_bucket(self@, j2, i));
                    assert(T::hash(self@[i].key(), bcount(self@)) == j2);
                    assert(j2 == j);
                    assert(bucket@[i - begin].key() == value.key());
                }
            }
        }
        false
    }

    /// Gets a read-only slice containing the values of the bucket
    /// that `value` hashes to.
    fn get_bucket(&self, value: &T) -> (r: &[T])
        requires
            self.wf(),
            0 < bcount(self@),
        ensures
            ({
                let j = T::hash(value.key(), bcount(self@));
                r@ == self@.subrange(offset_at(self@, j), offset_at(self@, j + 1))
            }),
    {
        let storage = self.borrow_storage();
        let first = storage[0];
        let bucket_id = value.get_bucket_index(&first);
        proof {
            T::lemma_hash_in_range(value.key(), bcount(self@));
            lemma_offsets_monotone(self@, 0, bucket_id as int);
            lemma_offsets_monotone(self@, bucket_id as int, bucket_id + 1);
            lemma_offsets_monotone(self@, bucket_id + 1, bcount(self@));
        }
        let bucket_index: usize = bucket_id + 2;
        let begin = storage[bucket_index].as_index();
        let end = storage[bucket_index + 1].as_index();
        &storage[begin..end]
    }

    /// Borrows the member values of the set.
    fn borrow_values(&self) -> (r: &[T])
        requires
            self.wf(),
        ensures
            r@ == members(self@),
    {
        proof {
            T::lemma_max_count_fits();
        }
        let start: usize = 2 + self.bucket_count() + 1;
        let storage = self.borrow_storage();
        &storage[start..storage.len()]
    }

    /// Gets the number of members in the set.
    pub fn size(&self) -> (r: usize)
        requires
            self.wf(),
        ensures
            r == mcount(self@),
            r == members(self@).len(),
    {
        let storage = self.borrow_storage();
        storage[1].as_index()
    }

    /// Gets the number of buckets.
    pub fn bucket_count(&self) -> (r: usize)
        requires
            self.wf(),
        ensures
            r == bcount(self@),
    {
        let storage = self.borrow_storage();
        storage[0].as_index()
    }
}

} // verus!

