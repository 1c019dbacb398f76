//! The error type of the compute layer.
use vstd::prelude::*;

verus! {

/// Why a compute operation refused its input.
#[derive(Debug, Clone, PartialEq, Eq)]
pub enum ComputeError {
    /// A precondition that the caller must meet does not hold; `detail` says which.
    Runtime { detail: String },
    /// Two buffers that must have related lengths do not.
    LengthMismatch { expected: usize, actual: usize },
    /// The bin at `row` lies outside the feature's `num_bin` bins.
    BinIndexOutOfRange { row: usize, bin: u32, num_bin: u32 },
    /// A sum or a leaf value is not a finite number.
    NonFinite { detail: String },
}

/// What a [`ComputeError`] says, with its text as a sequence of characters.
pub enum Fault {
    Runtime(Seq<char>),
    LengthMismatch { expected: nat, actual: nat },
    BinIndexOutOfRange { row: nat, bin: u32, num_bin: u32 },
    NonFinite(Seq<char>),
}

impl View for ComputeError {
    type V = Fault;

    open spec fn view(&self) -> Fault {
        match *self {
            ComputeError::Runtime { detail } => Fault::Runtime(detail@),
            ComputeError::LengthMismatch { expected, actual } => Fault::LengthMismatch {
                expected: expected as nat,
                actual: actual as nat,
            },
            ComputeError::BinIndexOutOfRange { row, bin, num_bin } => Fault::BinIndexOutOfRange {
                row: row as nat,
                bin,
                num_bin,
            },
            ComputeError::NonFinite { detail } => Fault::NonFinite(detail@),
        }
    }
}

/// The result `r` fails exactly where `fault` names a fault, and then with that fault.
pub open spec fn fails_as<T>(r: Result<T, ComputeError>, fault: Option<Fault>) -> bool {
    match r {
        Ok(_) => fault is None,
        Err(e) => fault == Some(e@),
    }
}

/// A [`ComputeError::Runtime`] with the given text.
pub fn runtime_error(detail: &str) -> (e: ComputeError)
    ensures
        e@ == Fault::Runtime(detail@),
{
    ComputeError::Runtime { detail: detail.to_owned() }
}

} // verus!
