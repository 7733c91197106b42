use core::marker::PhantomData;
use vstd::prelude::*;

use super::constants::{
    INVALID_VIRT_ADDRESS_END, INVALID_VIRT_ADDRESS_START, LOW_ADDR_SPACE_END,
    PHYSICAL_LINEAR_MAPPING_START,
};

verus! {

/// A kind of memory (physical or virtual) with the range of values that are not addresses of it.
pub trait MemoryKind {
    /// Whether `value` lies strictly inside the invalid range of this kind of memory.
    spec fn spec_is_invalid(value: u64) -> bool;

    fn is_invalid(value: u64) -> (r: bool)
        ensures
            r == Self::spec_is_invalid(value),
    ;
}

pub struct Physical;

impl MemoryKind for Physical {
    open spec fn spec_is_invalid(value: u64) -> bool {
        false
    }

    fn is_invalid(value: u64) -> (r: bool) {
        false
    }
}

pub struct Virtual;

impl MemoryKind for Virtual {
    open spec fn spec_is_invalid(value: u64) -> bool {
        INVALID_VIRT_ADDRESS_START < value < INVALID_VIRT_ADDRESS_END
    }

    fn is_invalid(value: u64) -> (r: bool) {
        value > INVALID_VIRT_ADDRESS_START && value < INVALID_VIRT_ADDRESS_END
    }
}

/// A memory address of kind `K`. Has the same memory layout as `usize`.
pub struct Address<K: MemoryKind> {
    value: u64,
    kind: PhantomData<K>,
}

/// Represent a virtual memory address.
///
/// The valid range is the 512 first GB and the last 256 TB of the address space.
pub type VirtualAddress = Address<Virtual>;

/// Represent a physical memory address.
pub type PhysicalAddress = Address<Physical>;

impl<K: MemoryKind> Address<K> {
    pub closed spec fn view(self) -> u64 {
        self.value
    }

    /// An address is its value: two addresses of one kind with the same value are the same.
    pub proof fn lemma_view_injective(a: Self, b: Self)
        requires
            a@ == b@,
        ensures
            a == b,
    {
        assert(a.kind == b.kind);
    }

    /// Every address lies outside the invalid range of its kind.
    #[verifier::type_invariant]
    spec fn lies_outside_invalid_range(self) -> bool {
        Self::valid(self.value)
    }

    /// Whether `value` can be an address of kind `K`.
    pub open spec fn valid(value: u64) -> bool {
        !K::spec_is_invalid(value)
    }

    /// Create a new `Address`. The value must be outside the invalid range.
    pub fn new(value: u64) -> (r: Self)
        requires
            Self::valid(value),
        ensures
            r@ == value,
    {
        Self { value, kind: PhantomData }
    }

    /// Get the underlying address, which is never in the invalid range of its kind.
    pub fn addr(self) -> (r: u64)
        ensures
            r == self@,
            Self::valid(r),
    {
        proof {
            use_type_invariant(&self);
        }
        self.value
    }

    pub fn is_aligned_to(self, alignment: u64) -> (r: bool)
        requires
            alignment > 0,
        ensures
            r == (self@ % alignment == 0),
    {
        self.value % alignment == 0
    }

    pub fn is_null(self) -> (r: bool)
        ensures
            r == (self@ == 0),
    {
        self.value == 0
    }

    /// The address `rhs` bytes after `self`.
    pub fn plus(self, rhs: u64) -> (r: Self)
        requires
            self@ + rhs <= u64::MAX,
            Self::valid((self@ + rhs) as u64),
        ensures
            r@ == self@ + rhs,
    {
        Self::new(self.value + rhs)
    }

    /// The address `rhs` bytes before `self`.
    pub fn minus(self, rhs: u64) -> (r: Self)
        requires
            rhs <= self@,
            Self::valid((self@ - rhs) as u64),
        ensures
            r@ == self@ - rhs,
    {
        Self::new(self.value - rhs)
    }

    pub fn copy(&self) -> (r: Self)
        ensures
            r@ == self@,
    {
        proof {
            use_type_invariant(self);
        }
        Self { value: self.value, kind: PhantomData }
    }
}

impl Address<Physical> {
    /// Transform the `self` `PhysicalAddress` to a `VirtualAddress` by adding the start of the
    /// linear mapping. `self` must be in the first 512 GB.
    pub fn to_virt(self) -> (r: VirtualAddress)
        requires
            self@ <= LOW_ADDR_SPACE_END,
        ensures
            r@ == self@ + PHYSICAL_LINEAR_MAPPING_START,
    {
        VirtualAddress::new(self.value + PHYSICAL_LINEAR_MAPPING_START)
    }
}

} // verus!
