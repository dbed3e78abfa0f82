//! Configuration for the F4 algorithm.

use vstd::prelude::*;

use crate::f4::error::F4Error;
use crate::post::BasisPostOptionsKind;

verus! {

/// Matrix-reduction backend used by F4.
#[derive(Debug, Clone, Copy, PartialEq, Eq, Structural)]
pub enum F4ReducerKind {
    /// Dense matrix reducer.
    Dense,
    /// Sequential sparse-buffer reducer.
    Roman,
    /// Parallel sparse-buffer reducer.
    RomanParallel,
}

impl Default for F4ReducerKind {
    fn default() -> (r: F4ReducerKind)
        ensures
            r == F4ReducerKind::Roman,
    {
        F4ReducerKind::Roman
    }
}

/// Configuration options for the F4 algorithm.
#[derive(Debug, Clone, Copy, PartialEq, Eq, Structural)]
pub struct F4Options {
    /// Maximum number of critical pairs processed in one F4 iteration.
    pub batch_size: usize,
    /// Whether input generators are normalized before the main loop.
    pub normalize_inputs: bool,
    /// Whether newly extracted rows are normalized before basis insertion.
    pub normalize_extracted: bool,
    /// Whether extracted rows are checked with an additional classical reduction pass.
    pub safety_reduce_extracted: bool,
    /// Final basis post-processing mode.
    pub post: BasisPostOptionsKind,
    /// Matrix-reduction backend used by the F4 linear phase.
    pub reducer_kind: F4ReducerKind,
}

impl F4Options {
    /// Options that pass validation.
    pub open spec fn spec_valid(&self) -> bool {
        self.batch_size > 0
    }

    /// Checks the options: the batch size must be positive.
    pub fn validate(&self) -> (r: Result<(), F4Error>)
        ensures
            r is Ok <==> self.spec_valid(),
            r is Err ==> r == Err::<(), F4Error>(F4Error::InvalidBatchSize),
    {
        if self.batch_size == 0 {
            return Err(F4Error::InvalidBatchSize);
        }
        Ok(())
    }

    /// Validates and wraps these options.
    pub fn validated(self) -> (r: Result<ValidatedF4Options, F4Error>)
        ensures
            r is Ok <==> self.spec_valid(),
            r matches Ok(v) ==> v.spec_inner() == self,
            r is Err ==> r == Err::<ValidatedF4Options, F4Error>(F4Error::InvalidBatchSize),
    {
        match self.validate() {
            Ok(()) => Ok(ValidatedF4Options(self)),
            Err(err) => Err(err),
        }
    }
}

impl Default for F4Options {
    fn default() -> (r: F4Options)
        ensures
            r.batch_size == 64,
            r.normalize_inputs,
            r.normalize_extracted,
            r.safety_reduce_extracted,
            r.post == BasisPostOptionsKind::Reduced,
            r.reducer_kind == F4ReducerKind::Roman,
    {
        F4Options {
            batch_size: 64,
            normalize_inputs: true,
            normalize_extracted: true,
            safety_reduce_extracted: true,
            post: BasisPostOptionsKind::Reduced,
            reducer_kind: F4ReducerKind::Roman,
        }
    }
}

/// F4 options that have passed [`F4Options::validate`].
#[derive(Debug, Clone, Copy)]
pub struct ValidatedF4Options(F4Options);

impl ValidatedF4Options {
    /// The wrapped options.
    pub closed spec fn spec_inner(&self) -> F4Options {
        self.0
    }

    /// Validated options always have a positive batch size.
    #[verifier::type_invariant]
    spec fn inv(&self) -> bool {
        self.0.spec_valid()
    }

    /// Consumes the wrapper and returns the inner options.
    pub fn into_inner(self) -> (r: F4Options)
        ensures
            r == self.spec_inner(),
            r.spec_valid(),
    {
        proof {
            use_type_invariant(&self);
        }
        self.0
    }

    /// The configured reducer backend.
    pub fn reducer_kind(&self) -> (r: F4ReducerKind)
        ensures
            r == self.spec_inner().reducer_kind,
    {
        self.0.reducer_kind
    }

    /// A reference to the inner options.
    pub fn as_ref(&self) -> (r: &F4Options)
        ensures
            *r == self.spec_inner(),
            r.spec_valid(),
    {
        proof {
            use_type_invariant(self);
        }
        &self.0
    }
}

impl core::ops::Deref for ValidatedF4Options {
    type Target = F4Options;

    fn deref(&self) -> (r: &F4Options)
        ensures
            *r == self.spec_inner(),
    {
        &self.0
    }
}

} // verus!
