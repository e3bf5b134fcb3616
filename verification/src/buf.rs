//! Buffer types and allocation strategies.

use vstd::prelude::*;

verus! {

/// A source of fresh buffers for incoming requests: a default-sized one,
/// or one sized to a known message length.
pub trait BufSource {
    /// A buffer with this source's default size.
    fn create_buf(&self) -> (r: Vec<u8>);

    /// A buffer of exactly `size` bytes.
    fn create_sized(&self, size: usize) -> (r: Vec<u8>)
        ensures
            r@.len() == size,
    ;
}

/// The plain source: zero-filled vectors, 1024 bytes by default.
pub struct VecBufSource;

impl BufSource for VecBufSource {
    /// A zero-filled buffer of 1024 bytes.
    fn create_buf(&self) -> (r: Vec<u8>)
        ensures
            r@.len() == 1024,
            forall|i: int| 0 <= i < r@.len() ==> r@[i] == 0u8,
    {
        zero_buf(1024)
    }

    /// A zero-filled buffer of `size` bytes.
    fn create_sized(&self, size: usize) -> (r: Vec<u8>)
        ensures
            r@.len() == size,
            forall|i: int| 0 <= i < r@.len() ==> r@[i] == 0u8,
    {
        zero_buf(size)
    }
}

/// A zero-filled buffer of the given size.
pub fn zero_buf(size: usize) -> (r: Vec<u8>)
    ensures
        r@.len() == size,
        forall|i: int| 0 <= i < r@.len() ==> r@[i] == 0u8,
{
    let mut out: Vec<u8> = Vec::new();
    let mut i: usize = 0;
    while i < size
        invariant
            i <= size,
            out@.len() == i,
            forall|j: int| 0 <= j < i ==> out@[j] == 0u8,
        decreases size - i,
    {
        out.push(0u8);
        i = i + 1;
    }
    out
}

} // verus!
