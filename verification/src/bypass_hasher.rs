//! Hashing for keys whose hash is already known: the hasher hands back the
//! one `u64` written to it.

use vstd::prelude::*;

verus! {

/// A key that knows its own hash.
pub trait ContainsHash {
    fn get_hash(&self) -> u64;
}

/// A value stored together with its precomputed hash.
pub struct WithHash<T> {
    pub inner: T,
    pub hash: u64,
}

impl<T> WithHash<T> {
    pub fn new(inner: T, hash: u64) -> (r: Self)
        ensures
            r.inner == inner,
            r.hash == hash,
    {
        Self { inner, hash }
    }
}

/// Builds hashers that pass a written `u64` straight through.
#[derive(Debug, Clone)]
pub struct BypassHasher;

impl BypassHasher {
    /// A hasher that nothing has been written to yet.
    pub fn build_hasher(&self) -> (r: BypassHasherInstance)
        ensures
            r@ == None::<u64>,
    {
        BypassHasherInstance { hash: None }
    }
}

impl Default for BypassHasher {
    fn default() -> (r: Self)
        ensures
            r == BypassHasher,
    {
        BypassHasher
    }
}

/// A hasher that remembers the last `u64` written to it.
pub struct BypassHasherInstance {
    hash: Option<u64>,
}

impl View for BypassHasherInstance {
    type V = Option<u64>;

    /// The last `u64` written, if any.
    closed spec fn view(&self) -> Option<u64> {
        self.hash
    }
}

impl BypassHasherInstance {
    /// Whether a `u64` was written.
    pub fn has_hash(&self) -> (r: bool)
        ensures
            r == self@ is Some,
    {
        self.hash.is_some()
    }

    /// The hash: the last `u64` written. Something must have been written.
    pub fn finish(&self) -> (r: u64)
        requires
            self@ is Some,
        ensures
            self@ == Some(r),
    {
        match self.hash {
            Some(hash) => hash,
            None => 0,
        }
    }

    /// Writes a `u64`, which becomes the hash.
    pub fn write_u64(&mut self, i: u64)
        ensures
            final(self)@ == Some(i),
    {
        self.hash = Some(i);
    }
}

} // verus!
