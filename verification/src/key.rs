//! Keys of the cache.

use vstd::prelude::*;

verus! {

/// A key that the cache can index.
///
/// Every key has a 64-bit code, and no two keys of one type share a code: the
/// code is what the cache hashes and compares when it looks a key up. The
/// unsigned integers of up to 64 bits and `char` are keys; another type
/// becomes one by naming its keys with codes of its own.
pub trait CacheKey: Sized {
    /// The code of the key.
    spec fn spec_code(&self) -> u64;

    /// Computes the code of the key.
    fn code(&self) -> (code: u64)
        ensures
            code == self.spec_code(),
    ;

    /// Keys with the same code are the same key.
    proof fn lemma_code_identifies(a: &Self, b: &Self)
        requires
            a.spec_code() == b.spec_code(),
        ensures
            *a == *b,
    ;
}

impl CacheKey for u8 {
    open spec fn spec_code(&self) -> u64 {
        *self as u64
    }

    fn code(&self) -> (code: u64) {
        *self as u64
    }

    proof fn lemma_code_identifies(a: &Self, b: &Self) {
    }
}

impl CacheKey for u16 {
    open spec fn spec_code(&self) -> u64 {
        *self as u64
    }

    fn code(&self) -> (code: u64) {
        *self as u64
    }

    proof fn lemma_code_identifies(a: &Self, b: &Self) {
    }
}

impl CacheKey for u32 {
    open spec fn spec_code(&self) -> u64 {
        *self as u64
    }

    fn code(&self) -> (code: u64) {
        *self as u64
    }

    proof fn lemma_code_identifies(a: &Self, b: &Self) {
    }
}

impl CacheKey for u64 {
    open spec fn spec_code(&self) -> u64 {
        *self
    }

    fn code(&self) -> (code: u64) {
        *self
    }

    proof fn lemma_code_identifies(a: &Self, b: &Self) {
    }
}

impl CacheKey for usize {
    open spec fn spec_code(&self) -> u64 {
        *self as u64
    }

    fn code(&self) -> (code: u64) {
        *self as u64
    }

    proof fn lemma_code_identifies(a: &Self, b: &Self) {
    }
}

impl CacheKey for char {
    open spec fn spec_code(&self) -> u64 {
        ((*self) as u32) as u64
    }

    fn code(&self) -> (code: u64) {
        ((*self) as u32) as u64
    }

    proof fn lemma_code_identifies(a: &Self, b: &Self) {
        let first: char = *a;
        let second: char = *b;
        vstd::utf8::char_u32_cast(first, first as u32);
        vstd::utf8::char_u32_cast(second, second as u32);
    }
}

} // verus!
