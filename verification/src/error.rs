//! The two ways in which building a pipeline layout fails.

use crate::binding::{Binding, BindingView};
use vstd::prelude::*;

verus! {

/// A defect in the shaders or in the registry of vertex buffers. Neither is
/// worth retrying: the layout cannot be built from what was given.
#[derive(Debug, Eq)]
pub enum PipelineLayoutError {
    /// Two stages declare the same slot of the same bind group differently.
    /// `existing` is the binding merged so far, `offending` the one that
    /// disagrees with it.
    BindingMismatch { bind_group: u32, existing: Binding, offending: Binding },
    /// The layout names a vertex buffer that the registry does not have.
    UnsupportedVertexBuffer { name: String },
}

/// The mathematical value of a [`PipelineLayoutError`].
#[verifier::ext_equal]
pub enum PipelineLayoutErrorView {
    BindingMismatch { bind_group: u32, existing: BindingView, offending: BindingView },
    UnsupportedVertexBuffer { name: Seq<char> },
}

impl View for PipelineLayoutError {
    type V = PipelineLayoutErrorView;

    open spec fn view(&self) -> PipelineLayoutErrorView {
        match self {
            PipelineLayoutError::BindingMismatch { bind_group, existing, offending } => {
                PipelineLayoutErrorView::BindingMismatch {
                    bind_group: *bind_group,
                    existing: existing@,
                    offending: offending@,
                }
            },
            PipelineLayoutError::UnsupportedVertexBuffer { name } => {
                PipelineLayoutErrorView::UnsupportedVertexBuffer { name: name@ }
            },
        }
    }
}

impl Clone for PipelineLayoutError {
    fn clone(&self) -> (r: Self)
        ensures
            r@ == self@,
    {
        match self {
            PipelineLayoutError::BindingMismatch { bind_group, existing, offending } => {
                PipelineLayoutError::BindingMismatch {
                    bind_group: *bind_group,
                    existing: existing.clone(),
                    offending: offending.clone(),
                }
            },
            PipelineLayoutError::UnsupportedVertexBuffer { name } => {
                PipelineLayoutError::UnsupportedVertexBuffer { name: name.clone() }
            },
        }
    }
}

impl PartialEq for PipelineLayoutError {
    fn eq(&self, other: &Self) -> (r: bool) {
        match (self, other) {
            (
                PipelineLayoutError::BindingMismatch { bind_group, existing, offending },
                PipelineLayoutError::BindingMismatch {
                    bind_group: other_bind_group,
                    existing: other_existing,
                    offending: other_offending,
                },
            ) => *bind_group == *other_bind_group && *existing == *other_existing && *offending
                == *other_offending,
            (
                PipelineLayoutError::UnsupportedVertexBuffer { name },
                PipelineLayoutError::UnsupportedVertexBuffer { name: other_name },
            ) => *name == *other_name,
            _ => false,
        }
    }
}

impl vstd::std_specs::cmp::PartialEqSpecImpl for PipelineLayoutError {
    open spec fn obeys_eq_spec() -> bool {
        true
    }

    open spec fn eq_spec(&self, other: &Self) -> bool {
        self@ == other@
    }
}

} // verus!
