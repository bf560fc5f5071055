//! A packed sequence of booleans, kept in a `bv::BitVec`.
use vstd::prelude::*;

verus! {

/// A growable sequence of bits, one per vertex or per node.
///
/// The bits live in a `bv::BitVec<usize>`; the verifier does not look inside
/// it and knows the sequence only as `flag_bits` describes it.
#[verifier::external_body]
pub struct Flags {
    inner: bv::BitVec<usize>,
}

/// The booleans that a `Flags` holds, first to last.
pub uninterp spec fn flag_bits(flags: Flags) -> Seq<bool>;

impl View for Flags {
    type V = Seq<bool>;

    open spec fn view(&self) -> Seq<bool> {
        flag_bits(*self)
    }
}

impl Flags {
    /// `bv::BitVec::with_capacity`: an empty sequence, with room set aside for
    /// `capacity` bits.
    #[verifier::external_body]
    pub(crate) fn with_capacity(capacity: usize) -> (r: Flags)
        ensures
            flag_bits(r) == Seq::<bool>::empty(),
    {
        Flags { inner: bv::BitVec::with_capacity(capacity as u64) }
    }

    /// `bv::BitVec::new_fill`: `len` bits, all equal to `value`.
    #[verifier::external_body]
    pub(crate) fn new_fill(value: bool, len: usize) -> (r: Flags)
        ensures
            flag_bits(r) == Seq::new(len as nat, |i: int| value),
    {
        Flags { inner: bv::BitVec::new_fill(value, len as u64) }
    }

    /// `bv::BitVec::push`: the same bits with `value` added after the last.
    #[verifier::external_body]
    pub(crate) fn push(&mut self, value: bool)
        requires
            flag_bits(*old(self)).len() < usize::MAX,
        ensures
            flag_bits(*final(self)) == flag_bits(*old(self)).push(value),
    {
        self.inner.push(value)
    }

    /// `bv::BitVec::get`: the bit at `position`, which must exist.
    #[verifier::external_body]
    pub(crate) fn get(&self, position: usize) -> (r: bool)
        requires
            position < flag_bits(*self).len(),
        ensures
            r == flag_bits(*self)[position as int],
    {
        self.inner.get(position as u64)
    }

    /// `bv::BitVec::set`: the bit at `position`, which must exist, becomes
    /// `value`; the others stay.
    #[verifier::external_body]
    pub(crate) fn set(&mut self, position: usize, value: bool)
        requires
            position < flag_bits(*old(self)).len(),
        ensures
            flag_bits(*final(self)) == flag_bits(*old(self)).update(position as int, value),
    {
        self.inner.set(position as u64, value)
    }
}

} // verus!
