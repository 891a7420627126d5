//! Cache-manager facades and shared error/size types.

use vstd::prelude::*;

use crate::types::Req;

verus! {

/// Everything the prefix cache can report as failure. Errors are data: no
/// retry happens inside the core.
#[derive(Debug, Clone, PartialEq, Eq)]
pub enum CacheError {
    /// A zero-length token sequence reached a cache entry point.
    EmptyInput,
    /// An insert was handed token and index slices of different lengths.
    MismatchedInputAndIndices { input_len: usize, indices_len: usize },
    /// An eviction asked for more than the evictable total.
    EvictTooLarge { requested: usize, evictable: usize },
    /// An unlock would drive a node's reference count below zero.
    UnlockUnderflow,
    /// A structural invariant of the tree does not hold.
    CorruptedTree { reason: &'static str },
}

/// Result of a longest-prefix lookup through the simple facade.
#[derive(Debug, Clone)]
pub struct CachePrefixMatch {
    pub cached_len: usize,
    pub indices: Vec<i32>,
}

/// The simple cache facade for workloads with no prefix reuse.
pub trait CacheManager {
    fn match_prefix(&self, req: &Req) -> Result<CachePrefixMatch, CacheError>;
}

/// Running totals of cached tokens, split by whether their nodes are pinned.
#[derive(Debug, Clone, Copy, PartialEq, Eq, Structural)]
pub struct SizeInfo {
    pub evictable_size: usize,
    pub protected_size: usize,
}

impl SizeInfo {
    pub fn total_size(self) -> (n: usize)
        requires
            self.evictable_size + self.protected_size <= usize::MAX,
        ensures
            n == self.evictable_size + self.protected_size,
    {
        self.evictable_size + self.protected_size
    }
}

/// The refcounted prefix-cache facade. The radix cache implements it; the
/// exact behaviour of each operation is specified on that concrete type,
/// while this interface carries only what generic callers need: an
/// invariant every operation preserves, and when handles may be used.
pub trait PrefixCacheManager {
    type Handle: Clone;

    /// The invariant the cache maintains across all calls.
    spec fn inv(&self) -> bool;

    /// The handles this cache accepts: live matches it handed out.
    spec fn handle_inv(&self, handle: &Self::Handle) -> bool;

    /// Whether one more pin can be taken.
    spec fn may_pin(&self) -> bool;

    /// Whether a pin held at this handle may be released.
    spec fn may_release(&self, handle: &Self::Handle) -> bool;

    fn match_prefix(&mut self, input_ids: &[i32]) -> (r: Result<
        (Self::Handle, Vec<i32>),
        CacheError,
    >)
        requires
            old(self).inv(),
        ensures
            final(self).inv(),
            r matches Ok(m) ==> final(self).handle_inv(&m.0),
    ;

    fn lock_handle(&mut self, handle: &Self::Handle, unlock: bool) -> (r: Result<(), CacheError>)
        requires
            old(self).inv(),
            old(self).handle_inv(handle),
            !unlock ==> old(self).may_pin(),
            unlock ==> old(self).may_release(handle),
        ensures
            final(self).inv(),
    ;

    fn insert_prefix(&mut self, input_ids: &[i32], indices: &[i32]) -> (r: Result<
        usize,
        CacheError,
    >)
        requires
            old(self).inv(),
        ensures
            final(self).inv(),
    ;

    fn evict(&mut self, size: usize) -> (r: Result<Vec<i32>, CacheError>)
        requires
            old(self).inv(),
        ensures
            final(self).inv(),
    ;

    fn size_info(&self) -> SizeInfo;

    fn check_integrity(&self) -> (r: Result<(), CacheError>)
        requires
            self.inv(),
        ensures
            r is Ok,
    ;
}

/// Pass-through cache for the non-prefix case: nothing is ever cached.
#[derive(Debug, Clone, Copy)]
pub struct NoopCacheManager;

impl NoopCacheManager {
    /// Rejects empty prompts and otherwise reports a zero-length match.
    pub fn match_prefix(&self, req: &Req) -> (r: Result<CachePrefixMatch, CacheError>)
        ensures
            match r {
                Ok(m) => req.input_ids@.len() > 0 && m.cached_len == 0 && m.indices@.len() == 0,
                Err(e) => req.input_ids@.len() == 0 && e == CacheError::EmptyInput,
            },
    {
        if req.input_ids.len() == 0 {
            return Err(CacheError::EmptyInput);
        }
        Ok(CachePrefixMatch { cached_len: 0, indices: Vec::new() })
    }
}

impl CacheManager for NoopCacheManager {
    fn match_prefix(&self, req: &Req) -> Result<CachePrefixMatch, CacheError> {
        NoopCacheManager::match_prefix(self, req)
    }
}

} // verus!
