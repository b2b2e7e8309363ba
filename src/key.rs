//! Keys of a recency store: values compared through their view.
use vstd::prelude::*;

verus! {

/// A key type whose equality is equality of views, so that the store's
/// model can speak of keys by their view.
pub trait CacheKey: View + Sized {
    /// Whether `self` and `other` are the same key.
    fn same_key(&self, other: &Self) -> (r: bool)
        ensures
            r == (self@ == other@),
    ;
}

impl CacheKey for String {
    fn same_key(&self, other: &Self) -> (r: bool) {
        *self == *other
    }
}

impl<'a> CacheKey for &'a str {
    fn same_key(&self, other: &Self) -> (r: bool) {
        str::to_owned(*self) == str::to_owned(*other)
    }
}

impl CacheKey for i32 {
    fn same_key(&self, other: &Self) -> (r: bool) {
        *self == *other
    }
}

impl CacheKey for i64 {
    fn same_key(&self, other: &Self) -> (r: bool) {
        *self == *other
    }
}

impl CacheKey for u32 {
    fn same_key(&self, other: &Self) -> (r: bool) {
        *self == *other
    }
}

impl CacheKey for u64 {
    fn same_key(&self, other: &Self) -> (r: bool) {
        *self == *other
    }
}

impl CacheKey for usize {
    fn same_key(&self, other: &Self) -> (r: bool) {
        *self == *other
    }
}

impl CacheKey for char {
    fn same_key(&self, other: &Self) -> (r: bool) {
        *self == *other
    }
}

} // verus!
