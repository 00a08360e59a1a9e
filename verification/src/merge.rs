//! What it means to merge the bind groups of several shader stages.
//!
//! The stages are taken in order, and in each stage its bind groups in order.
//! The first group seen for a bind-group slot is taken as it is. A later group
//! for the same slot is merged into it binding by binding: a binding whose
//! slot is new is appended, one that repeats what is already there changes
//! nothing, and one that declares a slot differently is a conflict, which ends
//! the merge.

use crate::binding::{BindGroupView, BindingView};
use crate::error::PipelineLayoutErrorView;
use crate::shader::ShaderLayoutView;
use vstd::prelude::*;

verus! {

/// The bindings accumulated for each bind-group slot.
pub type MergedGroups = Map<u32, Seq<BindingView>>;

/// The first binding of the sequence that sits in slot `index`.
pub open spec fn binding_in_slot(bindings: Seq<BindingView>, index: u32) -> Option<BindingView>
    decreases bindings.len(),
{
    if bindings.len() == 0 {
        None
    } else if bindings.first().index == index {
        Some(bindings.first())
    } else {
        binding_in_slot(bindings.drop_first(), index)
    }
}

/// Merges one binding of bind group `bind_group` into the bindings merged so
/// far.
pub open spec fn merge_binding(
    bind_group: u32,
    merged: Seq<BindingView>,
    binding: BindingView,
) -> Result<Seq<BindingView>, PipelineLayoutErrorView> {
    match binding_in_slot(merged, binding.index) {
        Some(existing) => if existing == binding {
            Ok(merged)
        } else {
            Err(
                PipelineLayoutErrorView::BindingMismatch {
                    bind_group,
                    existing,
                    offending: binding,
                },
            )
        },
        None => Ok(merged.push(binding)),
    }
}

/// Merges the bindings `incoming`, from the first to the last, into the
/// bindings merged so far. The first conflict ends the merge.
pub open spec fn merge_bindings(
    bind_group: u32,
    merged: Seq<BindingView>,
    incoming: Seq<BindingView>,
) -> Result<Seq<BindingView>, PipelineLayoutErrorView>
    decreases incoming.len(),
{
    if incoming.len() == 0 {
        Ok(merged)
    } else {
        match merge_binding(bind_group, merged, incoming.first()) {
            Ok(next) => merge_bindings(bind_group, next, incoming.drop_first()),
            Err(conflict) => Err(conflict),
        }
    }
}

/// Merges one bind group into the groups merged so far.
pub open spec fn merge_group(groups: MergedGroups, group: BindGroupView) -> Result<
    MergedGroups,
    PipelineLayoutErrorView,
> {
    if groups.contains_key(group.index) {
        match merge_bindings(group.index, groups[group.index], group.bindings) {
            Ok(bindings) => Ok(groups.insert(group.index, bindings)),
            Err(conflict) => Err(conflict),
        }
    } else {
        Ok(groups.insert(group.index, group.bindings))
    }
}

/// Merges the bind groups `incoming`, from the first to the last, into the
/// groups merged so far. The first conflict ends the merge.
pub open spec fn merge_groups(groups: MergedGroups, incoming: Seq<BindGroupView>) -> Result<
    MergedGroups,
    PipelineLayoutErrorView,
>
    decreases incoming.len(),
{
    if incoming.len() == 0 {
        Ok(groups)
    } else {
        match merge_group(groups, incoming.first()) {
            Ok(next) => merge_groups(next, incoming.drop_first()),
            Err(conflict) => Err(conflict),
        }
    }
}

/// Merges the bind groups of the stages, from the first stage to the last,
/// into the groups merged so far. The first conflict ends the merge.
pub open spec fn merge_stages(groups: MergedGroups, stages: Seq<ShaderLayoutView>) -> Result<
    MergedGroups,
    PipelineLayoutErrorView,
>
    decreases stages.len(),
{
    if stages.len() == 0 {
        Ok(groups)
    } else {
        match merge_groups(groups, stages.first().bind_groups) {
            Ok(next) => merge_stages(next, stages.drop_first()),
            Err(conflict) => Err(conflict),
        }
    }
}

/// The bind groups of a pipeline made of `stages`, or the first conflict
/// between them.
pub open spec fn merged_bind_groups(stages: Seq<ShaderLayoutView>) -> Result<
    MergedGroups,
    PipelineLayoutErrorView,
> {
    merge_stages(Map::empty(), stages)
}

/// Whether the bind groups ascend strictly by index, so that no index occurs
/// twice.
pub open spec fn ascending_by_index(bind_groups: Seq<BindGroupView>) -> bool {
    forall|i: int, j: int|
        0 <= i < j < bind_groups.len() ==> #[trigger] bind_groups[i].index
            < #[trigger] bind_groups[j].index
}

/// Whether `bind_groups` lists the merged groups, each once, in ascending
/// order of index.
pub open spec fn lists_in_order(bind_groups: Seq<BindGroupView>, groups: MergedGroups) -> bool {
    &&& ascending_by_index(bind_groups)
    &&& forall|i: int|
        0 <= i < bind_groups.len() ==> groups.contains_key(#[trigger] bind_groups[i].index)
            && groups[bind_groups[i].index] == bind_groups[i].bindings
    &&& forall|index: u32| #[trigger]
        groups.contains_key(index) ==> exists|i: int|
            0 <= i < bind_groups.len() && #[trigger] bind_groups[i].index == index
}

} // verus!
