use vstd::prelude::*;

use core::any::TypeId;

use super::endpoint::{BindingId, EndpointKey};
use super::report::BindingReport;

verus! {

/// Why a binding could not be created or evaluated.
#[derive(Clone, Debug, PartialEq, Eq)]
pub enum BindingError<K> {
    /// A binding would read and write the same endpoint.
    SelfBinding {
        /// The endpoint.
        endpoint: EndpointKey<K>,
    },
    /// A binding would close a dependency cycle.
    Cycle {
        /// The binding that would depend on `dependency`.
        dependent: BindingId,
        /// The binding depended on.
        dependency: BindingId,
    },
    /// No binding id is left.
    TooManyBindings,
    /// The target endpoint is already written by another binding.
    TargetAlreadyBound {
        /// The target endpoint.
        target: EndpointKey<K>,
        /// The binding that writes it.
        existing: BindingId,
    },
    /// A binding's source has no value.
    MissingSource {
        /// The binding.
        binding: BindingId,
        /// The source endpoint.
        endpoint: EndpointKey<K>,
    },
    /// A binding's source holds a value of another type.
    SourceTypeMismatch {
        /// The binding.
        binding: BindingId,
        /// The source endpoint.
        endpoint: EndpointKey<K>,
        /// The type the binding reads.
        expected: TypeId,
        /// The type found.
        actual: TypeId,
    },
}

/// A drain that stopped on an error, with the work done before it.
#[derive(Clone, Debug, PartialEq, Eq)]
pub struct BindingDrainError<K> {
    error: BindingError<K>,
    report: BindingReport,
}

impl<K> BindingDrainError<K> {
    /// The error.
    pub closed spec fn error_view(self) -> BindingError<K> {
        self.error
    }

    /// The work done before the error.
    pub closed spec fn report_view(self) -> BindingReport {
        self.report
    }

    /// Bundles an error with the report of the work done before it.
    pub(crate) fn new(error: BindingError<K>, report: BindingReport) -> (r: Self)
        ensures
            r.error_view() == error,
            r.report_view() == report,
    {
        BindingDrainError { error, report }
    }

    /// The error.
    pub fn error(&self) -> (r: &BindingError<K>)
        ensures
            *r == self.error_view(),
    {
        &self.error
    }

    /// The work done before the error.
    pub fn report(&self) -> (r: BindingReport)
        ensures
            r == self.report_view(),
    {
        self.report
    }

    /// The error and the report.
    pub fn into_parts(self) -> (r: (BindingError<K>, BindingReport))
        ensures
            r == (self.error_view(), self.report_view()),
    {
        (self.error, self.report)
    }
}

} // verus!
