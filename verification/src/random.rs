//! The source of randomness: trusted declarations around the `rand` crate,
//! and helpers for drawing random slice positions. Nothing is promised of a
//! draw beyond its range; every algorithm here is verified for every
//! outcome the generator may produce.

use vstd::prelude::*;

verus! {

#[verifier::external_type_specification]
#[verifier::external_body]
pub struct ExThreadRng(rand::rngs::ThreadRng);

/// Relies on rand::Rng::gen_range over `lo..hi`: it panics only on an
/// empty range, and returns a value drawn from within the range.
#[verifier::external_body]
pub(crate) fn rng_range(rng: &mut rand::rngs::ThreadRng, lo: i32, hi: i32) -> (r: i32)
    requires
        lo < hi,
    ensures
        lo <= r < hi,
{
    rand::Rng::gen_range(rng, lo..hi)
}

/// Picking a random index or entry of a slice; an empty slice yields an
/// empty result.
pub trait RngExtension {
    fn random_slice_index<T>(&mut self, slice: &[T]) -> (r: Option<usize>)
        requires
            slice@.len() <= i32::MAX,
        ensures
            match r {
                Some(i) => slice@.len() > 0 && i < slice@.len(),
                None => slice@.len() == 0,
            },
    ;

    fn random_slice_entry<'slice, T>(&mut self, slice: &'slice [T]) -> (r: Option<&'slice T>)
        requires
            slice@.len() <= i32::MAX,
        ensures
            match r {
                Some(e) => slice@.len() > 0 && exists|i: int|
                    0 <= i < slice@.len() && *e == slice@[i],
                None => slice@.len() == 0,
            },
    ;
}

impl RngExtension for rand::rngs::ThreadRng {
    fn random_slice_index<T>(&mut self, slice: &[T]) -> (r: Option<usize>) {
        if slice.len() == 0 {
            None
        } else {
            let i = rng_range(self, 0, slice.len() as i32);
            Some(i as usize)
        }
    }

    fn random_slice_entry<'slice, T>(&mut self, slice: &'slice [T]) -> (r: Option<&'slice T>) {
        match self.random_slice_index(slice) {
            Some(index) => Some(&slice[index]),
            None => None,
        }
    }
}

} // verus!
