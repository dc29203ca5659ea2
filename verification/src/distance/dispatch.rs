//! Which dimensions have a kernel of their own.
use vstd::prelude::*;

verus! {

/// How a dimension is handled.
#[derive(Debug, Clone, Copy)]
pub enum DispatchResult {
    /// By a kernel made for this dimension.
    Specialized {
        /// The dimension.
        dim: usize,
    },
    /// By the kernel for any dimension.
    Dynamic {
        /// The dimension.
        dim: usize,
    },
}

/// The entry for dimensions without a kernel of their own.
pub fn dispatch_dynamic_slice(dim: usize) -> (r: DispatchResult)
    ensures
        r == (DispatchResult::Dynamic { dim }),
{
    DispatchResult::Dynamic { dim }
}

} // verus!
