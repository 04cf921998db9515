use vstd::prelude::*;

verus! {

/// A run of consecutive values found in a byte buffer.
///
/// `address` is the byte offset of the run's first value from the start of the
/// slice that was scanned; `values` are the decoded values, in buffer order.
#[derive(Debug)]
pub struct FloatRun<T> {
    pub address: usize,
    pub values: Vec<T>,
}

impl<T> FloatRun<T> {
    /// The byte offset of the run in a larger buffer in which the scanned
    /// slice itself starts at byte `base`.
    pub fn index_from_base(&self, base: usize) -> (r: usize)
        requires
            base + self.address <= usize::MAX,
        ensures
            r == base + self.address,
    {
        base + self.address
    }
}

} // verus!
