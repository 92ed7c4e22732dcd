use vstd::prelude::*;
use fixedbitset::FixedBitSet;

verus! {

/// `fixedbitset::FixedBitSet`, a set of bits with room for a fixed number
/// of them. What is inside is not looked into; `bits` names what it holds.
#[verifier::external_type_specification]
#[verifier::external_body]
pub struct ExFixedBitSet(FixedBitSet);

/// The bits of a bit set, in order of index, as `FixedBitSet::contains`
/// reads them. Its length is the number of bits that the set has room for.
pub uninterp spec fn bits(s: FixedBitSet) -> Seq<bool>;

/// The blocks in which a bit set keeps its bits hold no set bit past the
/// room of the set. A set can be made, from blocks, that has such bits:
/// they are no bits of the set, but the operations that work on whole
/// blocks meet them.
pub uninterp spec fn trimmed(s: FixedBitSet) -> bool;

/// The indices of the bits that are set.
pub open spec fn ones(s: FixedBitSet) -> Set<int> {
    Set::new(|i: int| 0 <= i < bits(s).len() && bits(s)[i])
}

/// `FixedBitSet::with_capacity`: a set with room for `n` bits, none of them
/// set, in blocks that are all zero.
pub assume_specification[ FixedBitSet::with_capacity ](n: usize) -> (s: FixedBitSet)
    ensures
        bits(s) == Seq::new(n as nat, |i: int| false),
        trimmed(s),
;

/// `FixedBitSet::contains`: whether bit `bit` is set; a bit that the set has
/// no room for is not.
pub assume_specification[ FixedBitSet::contains ](s: &FixedBitSet, bit: usize) -> (b: bool)
    ensures
        b == (bit < bits(*s).len() && bits(*s)[bit as int]),
;

/// `FixedBitSet::remove`: unsets bit `bit`, for which the set must have
/// room, and leaves everything else in the blocks as it is.
pub assume_specification[ FixedBitSet::remove ](s: &mut FixedBitSet, bit: usize)
    requires
        bit < bits(*old(s)).len(),
    ensures
        bits(*final(s)) == bits(*old(s)).update(bit as int, false),
        trimmed(*final(s)) == trimmed(*old(s)),
;

/// `FixedBitSet::is_clear`: whether every block is zero. Then no bit is
/// set; and where the blocks hold nothing past the room of the set, it is
/// so only then.
pub assume_specification[ FixedBitSet::is_clear ](s: &FixedBitSet) -> (b: bool)
    ensures
        b ==> (forall|i: int| 0 <= i < bits(*s).len() ==> !bits(*s)[i]),
        trimmed(*s) ==> b == (forall|i: int| 0 <= i < bits(*s).len() ==> !bits(*s)[i]),
;

/// `FixedBitSet::clear`: makes every block zero and keeps the room.
pub assume_specification[ FixedBitSet::clear ](s: &mut FixedBitSet)
    ensures
        bits(*final(s)) == Seq::new(bits(*old(s)).len(), |i: int| false),
        trimmed(*final(s)),
;

/// `FixedBitSet::grow`: makes room for `n` bits where there was less, by
/// adding blocks that are zero; the old bits stay as they are. The bits
/// past the old room are not set where the old blocks held nothing there.
/// A set with room for `n` bits or more is left as it is.
pub assume_specification[ FixedBitSet::grow ](s: &mut FixedBitSet, n: usize)
    ensures
        bits(*final(s)).len() == (if n > bits(*old(s)).len() {
            n as nat
        } else {
            bits(*old(s)).len()
        }),
        forall|i: int|
            0 <= i < bits(*old(s)).len() ==> #[trigger] bits(*final(s))[i] == bits(*old(s))[i],
        trimmed(*old(s)) ==> trimmed(*final(s)) && forall|i: int|
            bits(*old(s)).len() <= i < bits(*final(s)).len() ==> !#[trigger] bits(*final(s))[i],
;

/// `FixedBitSet::intersect_with`: keeps the room, and in every block of the
/// set only the bits that the same block of `other` has too. So no bit gets
/// set; and where the blocks of `other` hold nothing past its room, the
/// bits that stay set are those that are set in `other` too.
pub assume_specification[ FixedBitSet::intersect_with ](s: &mut FixedBitSet, other: &FixedBitSet)
    ensures
        bits(*final(s)).len() == bits(*old(s)).len(),
        forall|i: int|
            0 <= i < bits(*old(s)).len() && #[trigger] bits(*final(s))[i] ==> bits(*old(s))[i],
        trimmed(*old(s)) ==> trimmed(*final(s)),
        trimmed(*other) ==> bits(*final(s)) == Seq::new(
            bits(*old(s)).len(),
            |i: int| bits(*old(s))[i] && i < bits(*other).len() && bits(*other)[i],
        ),
;

/// `FixedBitSet::insert_range` on the range from `from` up to, not
/// including, `to`, which must lie within the room of the set: sets the bits
/// of the range and leaves everything else in the blocks as it is.
#[verifier::external_body]
pub(crate) fn bitset_insert_range(s: &mut FixedBitSet, from: usize, to: usize)
    requires
        from <= to <= bits(*old(s)).len(),
    ensures
        bits(*final(s)) == Seq::new(
            bits(*old(s)).len(),
            |i: int| bits(*old(s))[i] || from <= i < to,
        ),
        trimmed(*final(s)) == trimmed(*old(s)),
{
    s.insert_range(from..to);
}

/// `FixedBitSet::count_ones` on the whole set: the number of bits that are
/// set, counted within the room of the set.
#[verifier::external_body]
pub(crate) fn bitset_count_ones(s: &FixedBitSet) -> (n: usize)
    ensures
        n == ones(*s).len(),
{
    s.count_ones(..)
}

/// `FixedBitSet`'s `Clone::clone_from`: makes `s` equal to `source`, room
/// and blocks.
#[verifier::external_body]
pub(crate) fn bitset_clone_from(s: &mut FixedBitSet, source: &FixedBitSet)
    ensures
        bits(*final(s)) == bits(*source),
        trimmed(*final(s)) == trimmed(*source),
{
    s.clone_from(source);
}

} // verus!
