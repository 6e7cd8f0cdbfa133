use vstd::prelude::*;

verus! {

/// Why a kernel refused its arguments.
#[derive(Clone, Copy, Debug, PartialEq, Eq, Structural)]
pub enum KernelError {
    /// A buffer's length differs from the product of the extents declared for it.
    ShapeMismatch,
    /// The declared extents admit no output: a window larger than the plane it
    /// slides over, an empty pooling window, or an output too long to address.
    IndexOutOfBounds,
}

impl KernelError {
    /// The words that describe the error.
    pub open spec fn description(self) -> Seq<char> {
        match self {
            KernelError::ShapeMismatch => "buffer length does not match the declared shape"@,
            KernelError::IndexOutOfBounds => "declared shape admits no valid output extent"@,
        }
    }

    /// A short description of the error, for a caller to report.
    pub fn message(&self) -> (text: &'static str)
        ensures
            text@ == self.description(),
    {
        match self {
            KernelError::ShapeMismatch => "buffer length does not match the declared shape",
            KernelError::IndexOutOfBounds => "declared shape admits no valid output extent",
        }
    }
}

} // verus!
