use vstd::prelude::*;

verus! {

/// A key of the map: a copyable value identified by a 64-bit code.
///
/// Two keys are the same key exactly when their codes are equal, so the map
/// compares and hashes keys by their codes.
pub trait Key: Copy {
    spec fn spec_code(&self) -> u64;

    fn code(&self) -> (r: u64)
        ensures
            r == self.spec_code(),
    ;

    /// Distinct keys have distinct codes.
    proof fn lemma_code_injective(a: Self, b: Self)
        ensures
            a.spec_code() == b.spec_code() ==> a == b,
    ;
}

impl Key for u8 {
    open spec fn spec_code(&self) -> u64 {
        *self as u64
    }

    fn code(&self) -> (r: u64) {
        *self as u64
    }

    proof fn lemma_code_injective(a: Self, b: Self) {
    }
}

impl Key for u16 {
    open spec fn spec_code(&self) -> u64 {
        *self as u64
    }

    fn code(&self) -> (r: u64) {
        *self as u64
    }

    proof fn lemma_code_injective(a: Self, b: Self) {
    }
}

impl Key for u32 {
    open spec fn spec_code(&self) -> u64 {
        *self as u64
    }

    fn code(&self) -> (r: u64) {
        *self as u64
    }

    proof fn lemma_code_injective(a: Self, b: Self) {
    }
}

impl Key for u64 {
    open spec fn spec_code(&self) -> u64 {
        *self
    }

    fn code(&self) -> (r: u64) {
        *self
    }

    proof fn lemma_code_injective(a: Self, b: Self) {
    }
}

impl Key for usize {
    open spec fn spec_code(&self) -> u64 {
        *self as u64
    }

    fn code(&self) -> (r: u64) {
        *self as u64
    }

    proof fn lemma_code_injective(a: Self, b: Self) {
    }
}

impl Key for i8 {
    open spec fn spec_code(&self) -> u64 {
        *self as u8 as u64
    }

    fn code(&self) -> (r: u64) {
        *self as u8 as u64
    }

    proof fn lemma_code_injective(a: Self, b: Self) {
        assert(a as u8 == b as u8 ==> a == b) by (bit_vector);
    }
}

impl Key for i16 {
    open spec fn spec_code(&self) -> u64 {
        *self as u16 as u64
    }

    fn code(&self) -> (r: u64) {
        *self as u16 as u64
    }

    proof fn lemma_code_injective(a: Self, b: Self) {
        assert(a as u16 == b as u16 ==> a == b) by (bit_vector);
    }
}

impl Key for i32 {
    open spec fn spec_code(&self) -> u64 {
        *self as u32 as u64
    }

    fn code(&self) -> (r: u64) {
        *self as u32 as u64
    }

    proof fn lemma_code_injective(a: Self, b: Self) {
        assert(a as u32 == b as u32 ==> a == b) by (bit_vector);
    }
}

impl Key for i64 {
    open spec fn spec_code(&self) -> u64 {
        *self as u64
    }

    fn code(&self) -> (r: u64) {
        *self as u64
    }

    proof fn lemma_code_injective(a: Self, b: Self) {
        assert(a as u64 == b as u64 ==> a == b) by (bit_vector);
    }
}

} // verus!
