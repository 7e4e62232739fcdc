use vstd::prelude::*;

verus! {

/// A hashing strategy: a deterministic hash of a key code, and a reduction
/// of a hash value to an address below a list length. Both are functions of
/// their arguments alone.
pub trait Hasher: Sized {
    spec fn spec_hash(code: u64) -> u64;

    spec fn spec_compress(hash: u64, len: nat) -> nat;

    fn hash(code: u64) -> (r: u64)
        ensures
            r == Self::spec_hash(code),
    ;

    fn compress(hash: u64, len: usize) -> (r: usize)
        requires
            len > 0,
        ensures
            r == Self::spec_compress(hash, len as nat),
            r < len,
    ;
}

/// The hash of a key code under the default strategy: its high bits folded
/// onto its low bits.
pub open spec fn hash_of(code: u64) -> u64 {
    code ^ (code >> 32u64)
}

/// The default strategy: fold the code, then take the remainder by the
/// list length.
#[derive(Clone, Copy, Debug)]
pub struct DefaultHasher {}

impl DefaultHasher {
    pub fn new() -> (r: DefaultHasher) {
        DefaultHasher {  }
    }
}

impl Hasher for DefaultHasher {
    open spec fn spec_hash(code: u64) -> u64 {
        hash_of(code)
    }

    open spec fn spec_compress(hash: u64, len: nat) -> nat {
        (hash as nat) % len
    }

    fn hash(code: u64) -> (r: u64) {
        code ^ (code >> 32u64)
    }

    fn compress(hash: u64, len: usize) -> (r: usize) {
        (hash % (len as u64)) as usize
    }
}

} // verus!
