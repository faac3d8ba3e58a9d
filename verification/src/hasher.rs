//! Hashes of shingles: each window that a windower produces, mapped to a
//! 64-bit SipHash value under the all-zero key.

use std::hash::{BuildHasher, BuildHasherDefault, Hash, SipHasher};
use vstd::prelude::*;
use crate::shingles::{advance, front_window, min, slice_views, str_views, Shingles};
use crate::shingles_2d::Shingles2D;

verus! {

/// The hash of a text: what a fresh `SipHasher` with both keys 0 gives once
/// the text has been fed to it. It depends on the characters alone.
pub uninterp spec fn text_hash(text: Seq<char>) -> u64;

/// Hashes a text with `BuildHasher::hash_one` of `BuildHasherDefault<SipHasher>`:
/// a fresh `SipHasher`, whose keys are both 0, is fed the text and finished.
/// Nothing else enters the computation, so equal texts get equal hashes; which
/// number it is stays unstated.
#[verifier::external_body]
#[allow(deprecated)]
fn hash_text(text: &str) -> (h: u64)
    ensures
        h == text_hash(text@),
{
    BuildHasherDefault::<SipHasher>::default().hash_one(text)
}

/// Hashes any value with `BuildHasher::hash_one` of `BuildHasherDefault<SipHasher>`.
/// What comes out depends on how the value's type feeds a hasher, so nothing
/// is claimed of it.
#[verifier::external_body]
#[allow(deprecated)]
fn hash_item<K: Hash>(item: K) -> u64 {
    BuildHasherDefault::<SipHasher>::default().hash_one(item)
}

/// Equal texts get equal hashes: the hash of a shingle depends on nothing
/// but the shingle.
pub proof fn lemma_equal_text_equal_hash(a: Seq<char>, b: Seq<char>)
    requires
        a == b,
    ensures
        text_hash(a) == text_hash(b),
{
}

/// Wraps a windower and hands out the hash of each window in place of the window.
pub struct ShingleHasher<T> {
    pub iter: T,
}

impl<T> ShingleHasher<T> {
    /// A hasher over the windows that `iter` has left.
    pub fn new(iter: T) -> (h: Self)
        ensures
            h.iter == iter,
    {
        ShingleHasher { iter: iter }
    }
}

impl<'a> ShingleHasher<Shingles<'a, str>> {
    /// The hash of the next window of text, if one is left; the windower
    /// moves on as it does for the window itself.
    pub fn next(&mut self) -> (r: Option<u64>)
        ensures
            final(self).iter.size == old(self).iter.size,
            final(self).iter.step == old(self).iter.step,
            final(self).iter.data@ == advance(old(self).iter.data@, old(self).iter.step as nat),
            r == match front_window(old(self).iter.data@, old(self).iter.size as nat) {
                Some(w) => Some(text_hash(w)),
                None => None,
            },
    {
        match self.iter.next() {
            Some(window) => Some(hash_text(window)),
            None => None,
        }
    }
}

impl<'a, T: Hash> ShingleHasher<Shingles<'a, [T]>> {
    /// The hash of the next window, if one is left; the windower moves on as
    /// it does for the window itself.
    pub fn next(&mut self) -> (r: Option<u64>)
        ensures
            final(self).iter.size == old(self).iter.size,
            final(self).iter.step == old(self).iter.step,
            r.is_some() == (old(self).iter.data@.len() >= old(self).iter.size),
            final(self).iter.data@ == if r.is_some() {
                advance(old(self).iter.data@, old(self).iter.step as nat)
            } else {
                old(self).iter.data@
            },
    {
        match self.iter.next() {
            Some(window) => Some(hash_item(window)),
            None => None,
        }
    }
}

impl<'a, T: Hash> ShingleHasher<Shingles2D<'a, [T]>> {
    /// The hash of the next window, if one is left; the windower moves on as
    /// it does for the window itself.
    pub fn next(&mut self) -> (r: Option<u64>)
        requires
            old(self).iter.wf(),
        ensures
            final(self).iter.wf(),
            final(self).iter.size == old(self).iter.size,
            final(self).iter.step == old(self).iter.step,
            slice_views(final(self).iter.data@) == old(self).iter.next_spec().rows,
            final(self).iter.column() == min(
                old(self).iter.next_spec().pos as int,
                usize::MAX as int,
            ),
            r.is_some() == old(self).iter.next_spec().window.is_some(),
    {
        match self.iter.next() {
            Some(window) => Some(hash_item(window)),
            None => None,
        }
    }
}

impl<'a> ShingleHasher<Shingles2D<'a, str>> {
    /// The hash of the next window, if one is left; the windower moves on as
    /// it does for the window itself.
    pub fn next(&mut self) -> (r: Option<u64>)
        requires
            old(self).iter.wf(),
        ensures
            final(self).iter.wf(),
            final(self).iter.size == old(self).iter.size,
            final(self).iter.step == old(self).iter.step,
            str_views(final(self).iter.data@) == old(self).iter.next_spec().rows,
            final(self).iter.cursors() == old(self).iter.next_spec().cursors,
            r.is_some() == old(self).iter.next_spec().window.is_some(),
    {
        match self.iter.next() {
            Some(window) => Some(hash_item(window)),
            None => None,
        }
    }
}

} // verus!
