//! What follows from the definition of the merge.
//!
//! The lemmas on single bindings and single bind groups come first; the
//! statements on whole pipelines are proved from them by induction over the
//! bind groups of a stage and over the stages:
//!
//! - a layout has one listing of its merged groups
//!   ([`lemma_listing_is_unique`]);
//! - what a stage declares is merged ([`lemma_declared_group_is_merged`],
//!   [`lemma_declared_binding_is_merged`]), and nothing else is
//!   ([`lemma_merged_group_is_declared`],
//!   [`lemma_merged_binding_is_declared`]);
//! - each slot of a bind group is merged into one binding
//!   ([`lemma_merged_slots_distinct`]), and declaring again what is declared
//!   changes nothing ([`lemma_merge_bindings_idempotent`],
//!   [`lemma_repeated_stage_changes_nothing`]);
//! - a merge fails only over two declarations of one slot that differ
//!   ([`lemma_conflict_is_between_declarations`]), and over such declarations
//!   it does fail ([`lemma_differing_declarations_conflict`]).

use crate::binding::{BindGroupView, BindingView};
use crate::error::PipelineLayoutErrorView;
use crate::merge::{
    binding_in_slot, lists_in_order, merge_binding, merge_bindings, merge_group, merge_groups,
    merge_stages, merged_bind_groups, MergedGroups,
};
use crate::shader::ShaderLayoutView;
use vstd::prelude::*;

verus! {

/// Whether the binding at `i` sits in slot `index` and none before it does.
pub open spec fn first_in_slot(bindings: Seq<BindingView>, index: u32, i: int) -> bool {
    &&& 0 <= i < bindings.len()
    &&& bindings[i].index == index
    &&& forall|j: int| 0 <= j < i ==> bindings[j].index != index
}

/// Whether no two bindings of the sequence sit in the same slot.
pub open spec fn slots_distinct(bindings: Seq<BindingView>) -> bool {
    forall|i: int, j: int|
        0 <= i < j < bindings.len() ==> #[trigger] bindings[i].index
            != #[trigger] bindings[j].index
}

/// The binding found for a slot is the first one that sits in it.
pub proof fn lemma_slot_found(bindings: Seq<BindingView>, index: u32, i: int)
    requires
        first_in_slot(bindings, index, i),
    ensures
        binding_in_slot(bindings, index) == Some(bindings[i]),
    decreases i,
{
    if i > 0 {
        lemma_slot_found(bindings.drop_first(), index, i - 1);
    }
}

/// No binding is found for a slot in which none sits.
pub proof fn lemma_slot_empty(bindings: Seq<BindingView>, index: u32)
    requires
        forall|j: int| 0 <= j < bindings.len() ==> bindings[j].index != index,
    ensures
        binding_in_slot(bindings, index) is None,
    decreases bindings.len(),
{
    if bindings.len() > 0 {
        lemma_slot_empty(bindings.drop_first(), index);
    }
}

/// Where a binding is found for a slot, it is the first that sits in it: the
/// result is its position.
pub proof fn lemma_slot_position(bindings: Seq<BindingView>, index: u32) -> (i: int)
    requires
        binding_in_slot(bindings, index) is Some,
    ensures
        first_in_slot(bindings, index, i),
        binding_in_slot(bindings, index) == Some(bindings[i]),
    decreases bindings.len(),
{
    if bindings.first().index == index {
        0
    } else {
        let rest = bindings.drop_first();
        let at = lemma_slot_position(rest, index);
        assert forall|j: int| 0 <= j < at + 1 implies bindings[j].index != index by {
            if j > 0 {
                assert(rest[j - 1].index != index);
            }
        }
        at + 1
    }
}

/// Where no binding is found for a slot, none sits in it.
pub proof fn lemma_slot_vacant(bindings: Seq<BindingView>, index: u32)
    requires
        binding_in_slot(bindings, index) is None,
    ensures
        forall|j: int| 0 <= j < bindings.len() ==> bindings[j].index != index,
    decreases bindings.len(),
{
    if bindings.len() > 0 {
        let rest = bindings.drop_first();
        lemma_slot_vacant(rest, index);
        assert forall|j: int| 0 <= j < bindings.len() implies bindings[j].index != index by {
            if j > 0 {
                assert(rest[j - 1].index != index);
            }
        }
    }
}

/// Appending bindings does not change what is found for a slot that was
/// taken.
pub proof fn lemma_slot_kept(shorter: Seq<BindingView>, longer: Seq<BindingView>, index: u32)
    requires
        shorter.is_prefix_of(longer),
        binding_in_slot(shorter, index) is Some,
    ensures
        binding_in_slot(longer, index) == binding_in_slot(shorter, index),
{
    let i = lemma_slot_position(shorter, index);
    assert forall|j: int| 0 <= j <= i implies longer[j] == shorter[j] by {
        assert(longer.subrange(0, shorter.len() as int)[j] == longer[j]);
    }
    lemma_slot_found(longer, index, i);
}

/// Merging one binding leaves what was merged in place, and then the
/// binding is the one found for its slot. It is appended only where its slot
/// was free.
pub proof fn lemma_merge_binding(bind_group: u32, merged: Seq<BindingView>, binding: BindingView)
    requires
        merge_binding(bind_group, merged, binding) is Ok,
    ensures
        ({
            let next = merge_binding(bind_group, merged, binding)->Ok_0;
            &&& binding_in_slot(next, binding.index) == Some(binding)
            &&& if binding_in_slot(merged, binding.index) is Some {
                next == merged
            } else {
                next == merged.push(binding)
            }
        }),
{
    if binding_in_slot(merged, binding.index) is None {
        let next = merged.push(binding);
        lemma_slot_vacant(merged, binding.index);
        lemma_slot_found(next, binding.index, merged.len() as int);
    }
}

/// What a successful merge of a sequence of bindings does.
///
/// What was merged before stays in place. Each incoming binding is afterwards
/// the one found for its slot. Each binding that was appended is one of the
/// incoming ones and is the first in its slot.
pub proof fn lemma_merge_bindings(
    bind_group: u32,
    merged: Seq<BindingView>,
    incoming: Seq<BindingView>,
)
    requires
        merge_bindings(bind_group, merged, incoming) is Ok,
    ensures
        ({
            let result = merge_bindings(bind_group, merged, incoming)->Ok_0;
            &&& merged.is_prefix_of(result)
            &&& forall|i: int|
                0 <= i < incoming.len() ==> binding_in_slot(result, #[trigger] incoming[i].index)
                    == Some(incoming[i])
            &&& forall|k: int|
                merged.len() <= k < result.len() ==> incoming.contains(#[trigger] result[k])
            &&& forall|k: int|
                merged.len() <= k < result.len() ==> first_in_slot(
                    result,
                    (#[trigger] result[k]).index,
                    k,
                )
        }),
    decreases incoming.len(),
{
    let result = merge_bindings(bind_group, merged, incoming)->Ok_0;
    if incoming.len() == 0 {
        assert(merged.is_prefix_of(result));
    } else {
        let head = incoming.first();
        let rest = incoming.drop_first();
        let next = merge_binding(bind_group, merged, head)->Ok_0;
        lemma_merge_binding(bind_group, merged, head);
        lemma_merge_bindings(bind_group, next, rest);
        assert(merged.is_prefix_of(next));
        assert(merged.is_prefix_of(result)) by {
            assert forall|j: int| 0 <= j < merged.len() implies merged[j] == result[j] by {
                assert(next.subrange(0, merged.len() as int)[j] == next[j]);
                assert(result.subrange(0, next.len() as int)[j] == result[j]);
            }
            assert(merged =~= result.subrange(0, merged.len() as int));
        }
        assert forall|i: int| 0 <= i < incoming.len() implies binding_in_slot(
            result,
            #[trigger] incoming[i].index,
        ) == Some(incoming[i]) by {
            if i == 0 {
                lemma_slot_kept(next, result, head.index);
            } else {
                assert(rest[i - 1] == incoming[i]);
            }
        }
        assert forall|k: int| merged.len() <= k < result.len() implies incoming.contains(
            #[trigger] result[k],
        ) by {
            if k < next.len() {
                assert(result.subrange(0, next.len() as int)[k] == result[k]);
                assert(result[k] == incoming[0]);
            } else {
                let at = choose|at: int| 0 <= at < rest.len() && rest[at] == result[k];
                assert(incoming[at + 1] == result[k]);
            }
        }
        assert forall|k: int| merged.len() <= k < result.len() implies first_in_slot(
            result,
            (#[trigger] result[k]).index,
            k,
        ) by {
            if k < next.len() {
                lemma_slot_vacant(merged, head.index);
                assert forall|j: int| 0 <= j <= k implies result[j] == next[j] by {
                    assert(result.subrange(0, next.len() as int)[j] == result[j]);
                }
            }
        }
    }
}

/// Whether every group of `before` is still a group of `after`, with the
/// bindings that it held still in place, at the front.
pub open spec fn groups_kept(before: MergedGroups, after: MergedGroups) -> bool {
    forall|index: u32| #[trigger]
        before.contains_key(index) ==> after.contains_key(index) && before[index].is_prefix_of(
            after[index],
        )
}

/// A front part of a front part is a front part.
proof fn lemma_prefix_of_prefix(
    first: Seq<BindingView>,
    second: Seq<BindingView>,
    third: Seq<BindingView>,
)
    requires
        first.is_prefix_of(second),
        second.is_prefix_of(third),
    ensures
        first.is_prefix_of(third),
{
    assert forall|j: int| 0 <= j < first.len() implies first[j] == third[j] by {
        assert(second.subrange(0, first.len() as int)[j] == second[j]);
        assert(third.subrange(0, second.len() as int)[j] == third[j]);
    }
    assert(first =~= third.subrange(0, first.len() as int));
}

/// A binding of a front part is a binding of the whole.
proof fn lemma_prefix_contains(shorter: Seq<BindingView>, longer: Seq<BindingView>, i: int)
    requires
        shorter.is_prefix_of(longer),
        0 <= i < shorter.len(),
    ensures
        longer[i] == shorter[i],
        longer.contains(shorter[i]),
{
    assert(longer.subrange(0, shorter.len() as int)[i] == longer[i]);
}

/// Merging one bind group keeps every group in place, adds at most the
/// group's own index, and leaves the other groups as they were.
pub proof fn lemma_merge_group_keeps(groups: MergedGroups, group: BindGroupView)
    requires
        merge_group(groups, group) is Ok,
    ensures
        ({
            let next = merge_group(groups, group)->Ok_0;
            &&& groups_kept(groups, next)
            &&& next.dom() == groups.dom().insert(group.index)
            &&& forall|index: u32|
                index != group.index && groups.contains_key(index) ==> #[trigger] next[index]
                    == groups[index]
        }),
{
    let next = merge_group(groups, group)->Ok_0;
    if groups.contains_key(group.index) {
        lemma_merge_bindings(group.index, groups[group.index], group.bindings);
    }
    assert forall|index: u32| #[trigger] groups.contains_key(index) implies next.contains_key(
        index,
    ) && groups[index].is_prefix_of(next[index]) by {
        if index != group.index {
            assert(groups[index] =~= next[index].subrange(0, groups[index].len() as int));
        }
    }
    assert(next.dom() =~= groups.dom().insert(group.index));
}

/// Merging a sequence of bind groups keeps every group in place, and adds
/// the indices of the incoming groups and no others.
pub proof fn lemma_merge_groups_keeps(groups: MergedGroups, incoming: Seq<BindGroupView>)
    requires
        merge_groups(groups, incoming) is Ok,
    ensures
        ({
            let result = merge_groups(groups, incoming)->Ok_0;
            &&& groups_kept(groups, result)
            &&& forall|g: int|
                0 <= g < incoming.len() ==> result.contains_key(#[trigger] incoming[g].index)
            &&& forall|index: u32| #[trigger]
                result.contains_key(index) ==> groups.contains_key(index) || exists|g: int|
                    0 <= g < incoming.len() && #[trigger] incoming[g].index == index
        }),
    decreases incoming.len(),
{
    let result = merge_groups(groups, incoming)->Ok_0;
    if incoming.len() == 0 {
        assert forall|index: u32| #[trigger] groups.contains_key(index) implies groups[index]
            =~= result[index].subrange(0, groups[index].len() as int) by {}
    } else {
        let head = incoming.first();
        let rest = incoming.drop_first();
        let next = merge_group(groups, head)->Ok_0;
        lemma_merge_group_keeps(groups, head);
        lemma_merge_groups_keeps(next, rest);
        assert forall|index: u32| #[trigger] groups.contains_key(index) implies result.contains_key(
            index,
        ) && groups[index].is_prefix_of(result[index]) by {
            assert(next.contains_key(index));
            lemma_prefix_of_prefix(groups[index], next[index], result[index]);
        }
        assert forall|g: int| 0 <= g < incoming.len() implies result.contains_key(
            #[trigger] incoming[g].index,
        ) by {
            if g == 0 {
                assert(next.contains_key(head.index));
            } else {
                assert(rest[g - 1] == incoming[g]);
            }
        }
        assert forall|index: u32| #[trigger] result.contains_key(index) implies groups.contains_key(
            index,
        ) || exists|g: int| 0 <= g < incoming.len() && #[trigger] incoming[g].index == index by {
            if next.contains_key(index) {
                if !groups.contains_key(index) {
                    assert(incoming[0].index == index);
                }
            } else {
                let g = choose|g: int| 0 <= g < rest.len() && #[trigger] rest[g].index == index;
                assert(incoming[g + 1].index == index);
            }
        }
    }
}

/// Merging a sequence of stages keeps every group in place.
pub proof fn lemma_merge_stages_keeps(groups: MergedGroups, stages: Seq<ShaderLayoutView>)
    requires
        merge_stages(groups, stages) is Ok,
    ensures
        groups_kept(groups, merge_stages(groups, stages)->Ok_0),
    decreases stages.len(),
{
    let result = merge_stages(groups, stages)->Ok_0;
    if stages.len() == 0 {
        assert forall|index: u32| #[trigger] groups.contains_key(index) implies groups[index]
            =~= result[index].subrange(0, groups[index].len() as int) by {}
    } else {
        let next = merge_groups(groups, stages.first().bind_groups)->Ok_0;
        lemma_merge_groups_keeps(groups, stages.first().bind_groups);
        lemma_merge_stages_keeps(next, stages.drop_first());
        assert forall|index: u32| #[trigger] groups.contains_key(index) implies result.contains_key(
            index,
        ) && groups[index].is_prefix_of(result[index]) by {
            assert(next.contains_key(index));
            lemma_prefix_of_prefix(groups[index], next[index], result[index]);
        }
    }
}

/// After one bind group is merged, each of its bindings is in the merged
/// group of its index; and where the bind group was merged into an earlier
/// one, or has no two bindings in one slot, each of its bindings is the one
/// found for its slot.
proof fn lemma_merge_group_holds(groups: MergedGroups, group: BindGroupView, b: int)
    requires
        merge_group(groups, group) is Ok,
        0 <= b < group.bindings.len(),
    ensures
        ({
            let merged = merge_group(groups, group)->Ok_0[group.index];
            &&& merge_group(groups, group)->Ok_0.contains_key(group.index)
            &&& merged.contains(group.bindings[b])
            &&& groups.contains_key(group.index) || slots_distinct(group.bindings)
                ==> binding_in_slot(merged, group.bindings[b].index) == Some(group.bindings[b])
        }),
{
    let merged = merge_group(groups, group)->Ok_0[group.index];
    let binding = group.bindings[b];
    if groups.contains_key(group.index) {
        lemma_merge_bindings(group.index, groups[group.index], group.bindings);
        let at = lemma_slot_position(merged, binding.index);
        assert(merged[at] == binding);
    } else {
        assert(merged[b] == binding);
        if slots_distinct(group.bindings) {
            lemma_slot_found(merged, binding.index, b);
        }
    }
}

/// The same for a sequence of bind groups: `g` is the position of a bind
/// group in it, and `b` that of a binding in the group.
proof fn lemma_merge_groups_holds(
    groups: MergedGroups,
    incoming: Seq<BindGroupView>,
    g: int,
    b: int,
)
    requires
        merge_groups(groups, incoming) is Ok,
        0 <= g < incoming.len(),
        0 <= b < incoming[g].bindings.len(),
    ensures
        ({
            let result = merge_groups(groups, incoming)->Ok_0;
            let group = incoming[g];
            &&& result.contains_key(group.index)
            &&& result[group.index].contains(group.bindings[b])
            &&& slots_distinct(group.bindings) ==> binding_in_slot(
                result[group.index],
                group.bindings[b].index,
            ) == Some(group.bindings[b])
        }),
    decreases incoming.len(),
{
    let result = merge_groups(groups, incoming)->Ok_0;
    let head = incoming.first();
    let rest = incoming.drop_first();
    let next = merge_group(groups, head)->Ok_0;
    if g == 0 {
        let binding = head.bindings[b];
        lemma_merge_group_holds(groups, head, b);
        lemma_merge_groups_keeps(next, rest);
        let at = choose|at: int|
            0 <= at < next[head.index].len() && next[head.index][at] == binding;
        lemma_prefix_contains(next[head.index], result[head.index], at);
        if slots_distinct(head.bindings) {
            lemma_slot_kept(next[head.index], result[head.index], binding.index);
        }
    } else {
        assert(rest[g - 1] == incoming[g]);
        lemma_merge_groups_holds(next, rest, g - 1, b);
    }
}

/// The same for a sequence of stages: `s` is the position of a stage in it.
proof fn lemma_merge_stages_holds(
    groups: MergedGroups,
    stages: Seq<ShaderLayoutView>,
    s: int,
    g: int,
    b: int,
)
    requires
        merge_stages(groups, stages) is Ok,
        0 <= s < stages.len(),
        0 <= g < stages[s].bind_groups.len(),
        0 <= b < stages[s].bind_groups[g].bindings.len(),
    ensures
        ({
            let result = merge_stages(groups, stages)->Ok_0;
            let group = stages[s].bind_groups[g];
            &&& result.contains_key(group.index)
            &&& result[group.index].contains(group.bindings[b])
            &&& slots_distinct(group.bindings) ==> binding_in_slot(
                result[group.index],
                group.bindings[b].index,
            ) == Some(group.bindings[b])
        }),
    decreases stages.len(),
{
    let result = merge_stages(groups, stages)->Ok_0;
    let head = stages.first();
    let rest = stages.drop_first();
    let next = merge_groups(groups, head.bind_groups)->Ok_0;
    if s == 0 {
        let group = head.bind_groups[g];
        let binding = group.bindings[b];
        lemma_merge_groups_holds(groups, head.bind_groups, g, b);
        lemma_merge_stages_keeps(next, rest);
        let at = choose|at: int|
            0 <= at < next[group.index].len() && next[group.index][at] == binding;
        lemma_prefix_contains(next[group.index], result[group.index], at);
        if slots_distinct(group.bindings) {
            lemma_slot_kept(next[group.index], result[group.index], binding.index);
        }
    } else {
        assert(rest[s - 1] == stages[s]);
        lemma_merge_stages_holds(next, rest, s - 1, g, b);
    }
}

/// Every binding that a stage declares is in the merged bind group of its
/// index. Where the bind group that declares it has no two bindings in one
/// slot, the binding is moreover the one that the merged group holds in its
/// slot: every stage that declares the slot declares it alike.
pub proof fn lemma_declared_binding_is_merged(stages: Seq<ShaderLayoutView>, s: int, g: int, b: int)
    requires
        merged_bind_groups(stages) is Ok,
        0 <= s < stages.len(),
        0 <= g < stages[s].bind_groups.len(),
        0 <= b < stages[s].bind_groups[g].bindings.len(),
    ensures
        ({
            let merged = merged_bind_groups(stages)->Ok_0;
            let group = stages[s].bind_groups[g];
            &&& merged.contains_key(group.index)
            &&& merged[group.index].contains(group.bindings[b])
            &&& slots_distinct(group.bindings) ==> binding_in_slot(
                merged[group.index],
                group.bindings[b].index,
            ) == Some(group.bindings[b])
        }),
{
    lemma_merge_stages_holds(Map::empty(), stages, s, g, b);
}

/// Every bind-group index that a stage declares is among the merged groups,
/// also where the bind group holds no binding.
pub proof fn lemma_declared_group_is_merged(stages: Seq<ShaderLayoutView>, s: int, g: int)
    requires
        merged_bind_groups(stages) is Ok,
        0 <= s < stages.len(),
        0 <= g < stages[s].bind_groups.len(),
    ensures
        merged_bind_groups(stages)->Ok_0.contains_key(stages[s].bind_groups[g].index),
{
    lemma_merge_stages_declares(Map::empty(), stages, s, g);
}

/// The same for stages merged into groups that are there already.
proof fn lemma_merge_stages_declares(
    groups: MergedGroups,
    stages: Seq<ShaderLayoutView>,
    s: int,
    g: int,
)
    requires
        merge_stages(groups, stages) is Ok,
        0 <= s < stages.len(),
        0 <= g < stages[s].bind_groups.len(),
    ensures
        merge_stages(groups, stages)->Ok_0.contains_key(stages[s].bind_groups[g].index),
    decreases stages.len(),
{
    let head = stages.first();
    let rest = stages.drop_first();
    let next = merge_groups(groups, head.bind_groups)->Ok_0;
    if s == 0 {
        lemma_merge_groups_keeps(groups, head.bind_groups);
        lemma_merge_stages_keeps(next, rest);
        assert(next.contains_key(head.bind_groups[g].index));
    } else {
        assert(rest[s - 1] == stages[s]);
        lemma_merge_stages_declares(next, rest, s - 1, g);
    }
}

/// Whether some bind group of some stage has the index.
pub open spec fn group_declared_in_stages(stages: Seq<ShaderLayoutView>, index: u32) -> bool {
    exists|s: int, g: int|
        0 <= s < stages.len() && 0 <= g < stages[s].bind_groups.len()
            && #[trigger] stages[s].bind_groups[g].index == index
}

/// A group after a merge of stages was a group before, or some stage
/// declares its index.
proof fn lemma_merge_stages_group_origin(
    groups: MergedGroups,
    stages: Seq<ShaderLayoutView>,
    index: u32,
)
    requires
        merge_stages(groups, stages) is Ok,
        merge_stages(groups, stages)->Ok_0.contains_key(index),
    ensures
        groups.contains_key(index) || group_declared_in_stages(stages, index),
    decreases stages.len(),
{
    if stages.len() > 0 {
        let head = stages.first();
        let rest = stages.drop_first();
        let next = merge_groups(groups, head.bind_groups)->Ok_0;
        lemma_merge_stages_group_origin(next, rest, index);
        if next.contains_key(index) {
            lemma_merge_groups_keeps(groups, head.bind_groups);
            if !groups.contains_key(index) {
                let g = choose|g: int|
                    0 <= g < head.bind_groups.len() && #[trigger] head.bind_groups[g].index
                        == index;
                assert(stages[0].bind_groups[g].index == index);
            }
        } else {
            let (s, g) = choose|s: int, g: int|
                0 <= s < rest.len() && 0 <= g < rest[s].bind_groups.len()
                    && #[trigger] rest[s].bind_groups[g].index == index;
            assert(stages[s + 1] == rest[s]);
            assert(stages[s + 1].bind_groups[g].index == index);
        }
    }
}

/// The merge invents no group: the index of every merged group is declared
/// by a stage.
pub proof fn lemma_merged_group_is_declared(stages: Seq<ShaderLayoutView>, index: u32)
    requires
        merged_bind_groups(stages) is Ok,
        merged_bind_groups(stages)->Ok_0.contains_key(index),
    ensures
        group_declared_in_stages(stages, index),
{
    lemma_merge_stages_group_origin(Map::empty(), stages, index);
}

/// Whether some bind group of the sequence has the index and declares the
/// binding.
pub open spec fn declared_in_groups(
    incoming: Seq<BindGroupView>,
    index: u32,
    binding: BindingView,
) -> bool {
    exists|g: int|
        0 <= g < incoming.len() && (#[trigger] incoming[g]).index == index
            && incoming[g].bindings.contains(binding)
}

/// Whether some bind group of some stage has the index and declares the
/// binding.
pub open spec fn declared_in_stages(
    stages: Seq<ShaderLayoutView>,
    index: u32,
    binding: BindingView,
) -> bool {
    exists|s: int|
        0 <= s < stages.len() && declared_in_groups(
            (#[trigger] stages[s]).bind_groups,
            index,
            binding,
        )
}

/// A binding of a group after a merge of one bind group was in that group
/// before, at the same place, or is declared by the bind group.
proof fn lemma_merge_group_origin(groups: MergedGroups, group: BindGroupView, index: u32, k: int)
    requires
        merge_group(groups, group) is Ok,
        merge_group(groups, group)->Ok_0.contains_key(index),
        0 <= k < merge_group(groups, group)->Ok_0[index].len(),
    ensures
        ({
            let binding = merge_group(groups, group)->Ok_0[index][k];
            ||| groups.contains_key(index) && k < groups[index].len() && groups[index][k]
                == binding
            ||| group.index == index && group.bindings.contains(binding)
        }),
{
    let next = merge_group(groups, group)->Ok_0;
    lemma_merge_group_keeps(groups, group);
    if index == group.index {
        if groups.contains_key(index) {
            lemma_merge_bindings(index, groups[index], group.bindings);
            if k < groups[index].len() {
                lemma_prefix_contains(groups[index], next[index], k);
            } else {
                assert(group.bindings.contains(next[index][k]));
            }
        } else {
            assert(group.bindings[k] == next[index][k]);
        }
    }
}

/// A binding of a group after a merge of bind groups was in that group
/// before, at the same place, or is declared by one of the bind groups.
proof fn lemma_merge_groups_origin(
    groups: MergedGroups,
    incoming: Seq<BindGroupView>,
    index: u32,
    k: int,
)
    requires
        merge_groups(groups, incoming) is Ok,
        merge_groups(groups, incoming)->Ok_0.contains_key(index),
        0 <= k < merge_groups(groups, incoming)->Ok_0[index].len(),
    ensures
        ({
            let binding = merge_groups(groups, incoming)->Ok_0[index][k];
            ||| groups.contains_key(index) && k < groups[index].len() && groups[index][k]
                == binding
            ||| declared_in_groups(incoming, index, binding)
        }),
    decreases incoming.len(),
{
    let result = merge_groups(groups, incoming)->Ok_0;
    let binding = result[index][k];
    if incoming.len() > 0 {
        let head = incoming.first();
        let rest = incoming.drop_first();
        let next = merge_group(groups, head)->Ok_0;
        lemma_merge_groups_origin(next, rest, index, k);
        if next.contains_key(index) && k < next[index].len() && next[index][k] == binding {
            lemma_merge_group_origin(groups, head, index, k);
            if head.index == index && head.bindings.contains(binding) {
                assert(incoming[0] == head);
            }
        } else {
            let g = choose|g: int|
                0 <= g < rest.len() && (#[trigger] rest[g]).index == index
                    && rest[g].bindings.contains(binding);
            assert(incoming[g + 1] == rest[g]);
        }
    }
}

/// A binding of a group after a merge of stages was in that group before,
/// at the same place, or is declared by one of the stages.
proof fn lemma_merge_stages_origin(
    groups: MergedGroups,
    stages: Seq<ShaderLayoutView>,
    index: u32,
    k: int,
)
    requires
        merge_stages(groups, stages) is Ok,
        merge_stages(groups, stages)->Ok_0.contains_key(index),
        0 <= k < merge_stages(groups, stages)->Ok_0[index].len(),
    ensures
        ({
            let binding = merge_stages(groups, stages)->Ok_0[index][k];
            ||| groups.contains_key(index) && k < groups[index].len() && groups[index][k]
                == binding
            ||| declared_in_stages(stages, index, binding)
        }),
    decreases stages.len(),
{
    let result = merge_stages(groups, stages)->Ok_0;
    let binding = result[index][k];
    if stages.len() > 0 {
        let head = stages.first();
        let rest = stages.drop_first();
        let next = merge_groups(groups, head.bind_groups)->Ok_0;
        lemma_merge_stages_origin(next, rest, index, k);
        if next.contains_key(index) && k < next[index].len() && next[index][k] == binding {
            lemma_merge_groups_origin(groups, head.bind_groups, index, k);
            if declared_in_groups(head.bind_groups, index, binding) {
                assert(declared_in_groups(stages[0].bind_groups, index, binding));
            }
        } else {
            let s = choose|s: int|
                0 <= s < rest.len() && declared_in_groups(
                    (#[trigger] rest[s]).bind_groups,
                    index,
                    binding,
                );
            assert(stages[s + 1] == rest[s]);
        }
    }
}

/// The merge invents no binding: every binding of a merged group is declared
/// by a stage, in a bind group of that index.
pub proof fn lemma_merged_binding_is_declared(stages: Seq<ShaderLayoutView>, index: u32, k: int)
    requires
        merged_bind_groups(stages) is Ok,
        merged_bind_groups(stages)->Ok_0.contains_key(index),
        0 <= k < merged_bind_groups(stages)->Ok_0[index].len(),
    ensures
        declared_in_stages(stages, index, merged_bind_groups(stages)->Ok_0[index][k]),
{
    lemma_merge_stages_origin(Map::empty(), stages, index, k);
}

/// Bindings stay in distinct slots where bindings are appended to them that
/// are each the first in their slot.
proof fn lemma_appended_slots_distinct(shorter: Seq<BindingView>, longer: Seq<BindingView>)
    requires
        slots_distinct(shorter),
        shorter.is_prefix_of(longer),
        forall|k: int|
            shorter.len() <= k < longer.len() ==> first_in_slot(
                longer,
                (#[trigger] longer[k]).index,
                k,
            ),
    ensures
        slots_distinct(longer),
{
    assert forall|i: int, j: int| 0 <= i < j < longer.len() implies #[trigger] longer[i].index
        != #[trigger] longer[j].index by {
        if j < shorter.len() {
            lemma_prefix_contains(shorter, longer, i);
            lemma_prefix_contains(shorter, longer, j);
        } else {
            assert(first_in_slot(longer, longer[j].index, j));
        }
    }
}

/// Whether no group holds two bindings in one slot.
pub open spec fn all_slots_distinct(groups: MergedGroups) -> bool {
    forall|index: u32| #[trigger] groups.contains_key(index) ==> slots_distinct(groups[index])
}

/// Merging bind groups that each hold no two bindings in one slot into
/// groups of which the same is true gives such groups.
proof fn lemma_merge_groups_slots(groups: MergedGroups, incoming: Seq<BindGroupView>)
    requires
        merge_groups(groups, incoming) is Ok,
        all_slots_distinct(groups),
        forall|g: int| 0 <= g < incoming.len() ==> slots_distinct(#[trigger] incoming[g].bindings),
    ensures
        all_slots_distinct(merge_groups(groups, incoming)->Ok_0),
    decreases incoming.len(),
{
    if incoming.len() > 0 {
        let head = incoming.first();
        let rest = incoming.drop_first();
        let next = merge_group(groups, head)->Ok_0;
        lemma_merge_group_keeps(groups, head);
        assert forall|index: u32| #[trigger] next.contains_key(index) implies slots_distinct(
            next[index],
        ) by {
            if index == head.index {
                if groups.contains_key(index) {
                    lemma_merge_bindings(index, groups[index], head.bindings);
                    lemma_appended_slots_distinct(groups[index], next[index]);
                } else {
                    assert(slots_distinct(incoming[0].bindings));
                }
            } else {
                assert(groups.contains_key(index));
            }
        }
        assert forall|g: int| 0 <= g < rest.len() implies slots_distinct(
            #[trigger] rest[g].bindings,
        ) by {
            assert(rest[g] == incoming[g + 1]);
        }
        lemma_merge_groups_slots(next, rest);
    }
}

/// The same for a sequence of stages.
proof fn lemma_merge_stages_slots(groups: MergedGroups, stages: Seq<ShaderLayoutView>)
    requires
        merge_stages(groups, stages) is Ok,
        all_slots_distinct(groups),
        forall|s: int, g: int|
            0 <= s < stages.len() && 0 <= g < stages[s].bind_groups.len() ==> slots_distinct(
                #[trigger] stages[s].bind_groups[g].bindings,
            ),
    ensures
        all_slots_distinct(merge_stages(groups, stages)->Ok_0),
    decreases stages.len(),
{
    if stages.len() > 0 {
        let head = stages.first();
        let rest = stages.drop_first();
        let next = merge_groups(groups, head.bind_groups)->Ok_0;
        assert forall|g: int| 0 <= g < head.bind_groups.len() implies slots_distinct(
            #[trigger] head.bind_groups[g].bindings,
        ) by {
            assert(slots_distinct(stages[0].bind_groups[g].bindings));
        }
        lemma_merge_groups_slots(groups, head.bind_groups);
        assert forall|s: int, g: int|
            0 <= s < rest.len() && 0 <= g < rest[s].bind_groups.len() implies slots_distinct(
            #[trigger] rest[s].bind_groups[g].bindings,
        ) by {
            assert(rest[s] == stages[s + 1]);
            assert(slots_distinct(stages[s + 1].bind_groups[g].bindings));
        }
        lemma_merge_stages_slots(next, rest);
    }
}

/// Where no bind group of any stage holds two bindings in one slot, no
/// merged group does: each slot of a bind group is merged into one binding.
pub proof fn lemma_merged_slots_distinct(stages: Seq<ShaderLayoutView>)
    requires
        merged_bind_groups(stages) is Ok,
        forall|s: int, g: int|
            0 <= s < stages.len() && 0 <= g < stages[s].bind_groups.len() ==> slots_distinct(
                #[trigger] stages[s].bind_groups[g].bindings,
            ),
    ensures
        all_slots_distinct(merged_bind_groups(stages)->Ok_0),
{
    lemma_merge_stages_slots(Map::empty(), stages);
}

/// The merged groups have one listing in ascending order of index: the
/// bind groups of a layout are determined by what was merged, whatever the
/// order in which the groups were accumulated or handed out.
pub proof fn lemma_listing_is_unique(
    first: Seq<BindGroupView>,
    second: Seq<BindGroupView>,
    groups: MergedGroups,
)
    requires
        lists_in_order(first, groups),
        lists_in_order(second, groups),
    ensures
        first == second,
    decreases first.len(),
{
    if first.len() == 0 {
        if second.len() > 0 {
            assert(groups.contains_key(second[0].index));
        }
        assert(first =~= second);
    } else {
        let a = first.last();
        assert(groups.contains_key(a.index));
        let at = choose|at: int| 0 <= at < second.len() && #[trigger] second[at].index == a.index;
        let b = second.last();
        assert(groups.contains_key(b.index));
        let back = choose|back: int|
            0 <= back < first.len() && #[trigger] first[back].index == b.index;
        assert(a.index == b.index) by {
            if at < second.len() - 1 {
                assert(second[at].index < second[second.len() - 1].index);
            }
            if back < first.len() - 1 {
                assert(first[back].index < first[first.len() - 1].index);
            }
        }
        assert(a == b);
        let rest = groups.remove(a.index);
        let shorter_first = first.drop_last();
        let shorter_second = second.drop_last();
        assert(lists_in_order(shorter_first, rest)) by {
            assert forall|i: int| 0 <= i < shorter_first.len() implies rest.contains_key(
                #[trigger] shorter_first[i].index,
            ) && rest[shorter_first[i].index] == shorter_first[i].bindings by {
                assert(first[i].index < first[first.len() - 1].index);
                assert(groups.contains_key(first[i].index));
            }
            assert forall|index: u32| #[trigger] rest.contains_key(index) implies exists|i: int|
                0 <= i < shorter_first.len() && #[trigger] shorter_first[i].index == index by {
                assert(groups.contains_key(index));
                let i = choose|i: int| 0 <= i < first.len() && #[trigger] first[i].index == index;
                assert(shorter_first[i].index == index);
            }
            assert forall|i: int, j: int| 0 <= i < j < shorter_first.len() implies (
            #[trigger] shorter_first[i]).index < (#[trigger] shorter_first[j]).index by {
                assert(first[i].index < first[j].index);
            }
        }
        assert(lists_in_order(shorter_second, rest)) by {
            assert forall|i: int| 0 <= i < shorter_second.len() implies rest.contains_key(
                #[trigger] shorter_second[i].index,
            ) && rest[shorter_second[i].index] == shorter_second[i].bindings by {
                assert(second[i].index < second[second.len() - 1].index);
                assert(groups.contains_key(second[i].index));
            }
            assert forall|index: u32| #[trigger] rest.contains_key(index) implies exists|i: int|
                0 <= i < shorter_second.len() && #[trigger] shorter_second[i].index == index by {
                assert(groups.contains_key(index));
                let i = choose|i: int|
                    0 <= i < second.len() && #[trigger] second[i].index == index;
                assert(shorter_second[i].index == index);
            }
            assert forall|i: int, j: int| 0 <= i < j < shorter_second.len() implies (
            #[trigger] shorter_second[i]).index < (#[trigger] shorter_second[j]).index by {
                assert(second[i].index < second[j].index);
            }
        }
        lemma_listing_is_unique(shorter_first, shorter_second, rest);
        assert(first =~= shorter_first.push(a));
        assert(second =~= shorter_second.push(b));
    }
}

/// Bindings that are each the one found for their slot merge into what is
/// there without changing it.
pub proof fn lemma_merge_bindings_present(
    bind_group: u32,
    merged: Seq<BindingView>,
    incoming: Seq<BindingView>,
)
    requires
        forall|i: int|
            0 <= i < incoming.len() ==> binding_in_slot(merged, #[trigger] incoming[i].index)
                == Some(incoming[i]),
    ensures
        merge_bindings(bind_group, merged, incoming) == Ok::<
            Seq<BindingView>,
            PipelineLayoutErrorView,
        >(merged),
    decreases incoming.len(),
{
    if incoming.len() > 0 {
        let rest = incoming.drop_first();
        assert(binding_in_slot(merged, incoming[0].index) == Some(incoming[0]));
        assert forall|i: int| 0 <= i < rest.len() implies binding_in_slot(
            merged,
            #[trigger] rest[i].index,
        ) == Some(rest[i]) by {
            assert(rest[i] == incoming[i + 1]);
        }
        lemma_merge_bindings_present(bind_group, merged, rest);
    }
}

/// The merge of bindings is idempotent: merging the same bindings once more
/// changes nothing.
pub proof fn lemma_merge_bindings_idempotent(
    bind_group: u32,
    merged: Seq<BindingView>,
    incoming: Seq<BindingView>,
)
    requires
        merge_bindings(bind_group, merged, incoming) is Ok,
    ensures
        merge_bindings(bind_group, merge_bindings(bind_group, merged, incoming)->Ok_0, incoming)
            == merge_bindings(bind_group, merged, incoming),
{
    lemma_merge_bindings(bind_group, merged, incoming);
    lemma_merge_bindings_present(
        bind_group,
        merge_bindings(bind_group, merged, incoming)->Ok_0,
        incoming,
    );
}

/// A bind group whose bindings are each the one that the merged group of its
/// index holds in their slot merges without changing anything.
proof fn lemma_merge_group_present(groups: MergedGroups, group: BindGroupView)
    requires
        groups.contains_key(group.index),
        forall|b: int|
            0 <= b < group.bindings.len() ==> binding_in_slot(
                groups[group.index],
                #[trigger] group.bindings[b].index,
            ) == Some(group.bindings[b]),
    ensures
        merge_group(groups, group) == Ok::<MergedGroups, PipelineLayoutErrorView>(
            groups,
        ),
{
    lemma_merge_bindings_present(group.index, groups[group.index], group.bindings);
    assert(groups.insert(group.index, groups[group.index]) =~= groups);
}

/// Merging a stage once more, after all stages, changes nothing, where none
/// of its bind groups holds two bindings in one slot: what two stages declare
/// alike is merged into one.
pub proof fn lemma_repeated_stage_changes_nothing(stages: Seq<ShaderLayoutView>, s: int)
    requires
        merged_bind_groups(stages) is Ok,
        0 <= s < stages.len(),
        forall|g: int|
            0 <= g < stages[s].bind_groups.len() ==> slots_distinct(
                #[trigger] stages[s].bind_groups[g].bindings,
            ),
    ensures
        merged_bind_groups(stages.push(stages[s])) == merged_bind_groups(stages),
{
    let merged = merged_bind_groups(stages)->Ok_0;
    let again = stages[s].bind_groups;
    assert forall|g: int| 0 <= g < again.len() implies merge_group(merged, #[trigger] again[g])
        == Ok::<MergedGroups, PipelineLayoutErrorView>(merged) by {
        let group = again[g];
        lemma_declared_group_is_merged(stages, s, g);
        assert forall|b: int| 0 <= b < group.bindings.len() implies binding_in_slot(
            merged[group.index],
            #[trigger] group.bindings[b].index,
        ) == Some(group.bindings[b]) by {
            lemma_declared_binding_is_merged(stages, s, g, b);
        }
        lemma_merge_group_present(merged, group);
    }
    lemma_merge_groups_unchanged(merged, again);
    lemma_merge_stages_push(Map::empty(), stages, stages[s]);
}

/// Bind groups that each merge without changing anything merge, one after
/// another, without changing anything.
proof fn lemma_merge_groups_unchanged(groups: MergedGroups, incoming: Seq<BindGroupView>)
    requires
        forall|g: int|
            0 <= g < incoming.len() ==> merge_group(groups, #[trigger] incoming[g]) == Ok::<
                MergedGroups,
                PipelineLayoutErrorView,
            >(groups),
    ensures
        merge_groups(groups, incoming) == Ok::<MergedGroups, PipelineLayoutErrorView>(
            groups,
        ),
    decreases incoming.len(),
{
    if incoming.len() > 0 {
        let rest = incoming.drop_first();
        assert(merge_group(groups, incoming[0]) == Ok::<
            MergedGroups,
            PipelineLayoutErrorView,
        >(groups));
        assert forall|g: int| 0 <= g < rest.len() implies merge_group(groups, #[trigger] rest[g])
            == Ok::<MergedGroups, PipelineLayoutErrorView>(groups) by {
            assert(rest[g] == incoming[g + 1]);
        }
        lemma_merge_groups_unchanged(groups, rest);
    }
}

/// Merging one more stage after a sequence of stages merges its bind groups
/// into what the sequence gave, and keeps the conflict where the sequence
/// gave one.
proof fn lemma_merge_stages_push(
    groups: MergedGroups,
    stages: Seq<ShaderLayoutView>,
    stage: ShaderLayoutView,
)
    ensures
        merge_stages(groups, stages.push(stage)) == match merge_stages(groups, stages) {
            Ok(merged) => merge_groups(merged, stage.bind_groups),
            Err(conflict) => Err(conflict),
        },
    decreases stages.len(),
{
    let longer = stages.push(stage);
    if stages.len() == 0 {
        assert(longer.first() == stage);
        assert(longer.drop_first() =~= Seq::<ShaderLayoutView>::empty());
        match merge_groups(groups, stage.bind_groups) {
            Ok(merged) => {
                assert(merge_stages(merged, longer.drop_first()) == Ok::<
                    MergedGroups,
                    PipelineLayoutErrorView,
                >(merged));
            },
            Err(_) => {},
        }
    } else {
        assert(longer.first() == stages.first());
        assert(longer.drop_first() =~= stages.drop_first().push(stage));
        match merge_groups(groups, stages.first().bind_groups) {
            Ok(next) => {
                lemma_merge_stages_push(next, stages.drop_first(), stage);
            },
            Err(_) => {},
        }
    }
}

/// Whether `conflict` is a mismatch in bind group `bind_group` between two
/// bindings of one slot that differ, of which the offending one is among
/// `incoming` and the existing one among `merged` or `incoming`.
spec fn conflict_between(
    conflict: PipelineLayoutErrorView,
    bind_group: u32,
    merged: Seq<BindingView>,
    incoming: Seq<BindingView>,
) -> bool {
    &&& conflict matches PipelineLayoutErrorView::BindingMismatch {
        bind_group: reported,
        existing,
        offending,
    }
    &&& reported == bind_group
    &&& existing.index == offending.index
    &&& existing != offending
    &&& incoming.contains(offending)
    &&& merged.contains(existing) || incoming.contains(existing)
}

/// A failed merge of bindings reports such a conflict.
proof fn lemma_merge_bindings_conflict(
    bind_group: u32,
    merged: Seq<BindingView>,
    incoming: Seq<BindingView>,
)
    requires
        merge_bindings(bind_group, merged, incoming) is Err,
    ensures
        conflict_between(
            merge_bindings(bind_group, merged, incoming)->Err_0,
            bind_group,
            merged,
            incoming,
        ),
    decreases incoming.len(),
{
    let head = incoming.first();
    let rest = incoming.drop_first();
    let conflict = merge_bindings(bind_group, merged, incoming)->Err_0;
    match merge_binding(bind_group, merged, head) {
        Ok(next) => {
            lemma_merge_binding(bind_group, merged, head);
            lemma_merge_bindings_conflict(bind_group, next, rest);
            let existing = conflict->BindingMismatch_existing;
            let offending = conflict->BindingMismatch_offending;
            let at = choose|at: int| 0 <= at < rest.len() && rest[at] == offending;
            assert(incoming[at + 1] == offending);
            if next.contains(existing) {
                let k = choose|k: int| 0 <= k < next.len() && next[k] == existing;
                if k < merged.len() {
                    assert(merged[k] == existing);
                } else {
                    assert(incoming[0] == existing);
                }
            } else {
                let k = choose|k: int| 0 <= k < rest.len() && rest[k] == existing;
                assert(incoming[k + 1] == existing);
            }
        },
        Err(_) => {
            let at = lemma_slot_position(merged, head.index);
            assert(incoming[0] == head);
        },
    }
}

/// Whether `conflict` is a mismatch between two bindings of one slot of one
/// bind group that differ, of which the offending one is declared by
/// `incoming` and the existing one by `incoming` or held by `groups`.
spec fn conflict_among_groups(
    conflict: PipelineLayoutErrorView,
    groups: MergedGroups,
    incoming: Seq<BindGroupView>,
) -> bool {
    &&& conflict matches PipelineLayoutErrorView::BindingMismatch {
        bind_group,
        existing,
        offending,
    }
    &&& existing.index == offending.index
    &&& existing != offending
    &&& declared_in_groups(incoming, bind_group, offending)
    &&& (groups.contains_key(bind_group) && groups[bind_group].contains(existing))
        || declared_in_groups(incoming, bind_group, existing)
}

/// A failed merge of bind groups reports such a conflict.
proof fn lemma_merge_groups_conflict(groups: MergedGroups, incoming: Seq<BindGroupView>)
    requires
        merge_groups(groups, incoming) is Err,
    ensures
        conflict_among_groups(merge_groups(groups, incoming)->Err_0, groups, incoming),
    decreases incoming.len(),
{
    let head = incoming.first();
    let rest = incoming.drop_first();
    let conflict = merge_groups(groups, incoming)->Err_0;
    match merge_group(groups, head) {
        Ok(next) => {
            lemma_merge_groups_conflict(next, rest);
            let bind_group = conflict->BindingMismatch_bind_group;
            let existing = conflict->BindingMismatch_existing;
            let offending = conflict->BindingMismatch_offending;
            let g = choose|g: int|
                0 <= g < rest.len() && (#[trigger] rest[g]).index == bind_group
                    && rest[g].bindings.contains(offending);
            assert(incoming[g + 1] == rest[g]);
            if next.contains_key(bind_group) && next[bind_group].contains(existing) {
                let k = choose|k: int|
                    0 <= k < next[bind_group].len() && next[bind_group][k] == existing;
                lemma_merge_group_origin(groups, head, bind_group, k);
                if head.index == bind_group && head.bindings.contains(existing) {
                    assert(incoming[0] == head);
                }
            } else {
                let h = choose|h: int|
                    0 <= h < rest.len() && (#[trigger] rest[h]).index == bind_group
                        && rest[h].bindings.contains(existing);
                assert(incoming[h + 1] == rest[h]);
            }
        },
        Err(_) => {
            lemma_merge_bindings_conflict(head.index, groups[head.index], head.bindings);
            assert(incoming[0] == head);
        },
    }
}

/// Whether `conflict` is a mismatch between two bindings of one slot of one
/// bind group that differ, of which the offending one is declared by
/// `stages` and the existing one by `stages` or held by `groups`.
spec fn conflict_among_stages(
    conflict: PipelineLayoutErrorView,
    groups: MergedGroups,
    stages: Seq<ShaderLayoutView>,
) -> bool {
    &&& conflict matches PipelineLayoutErrorView::BindingMismatch {
        bind_group,
        existing,
        offending,
    }
    &&& existing.index == offending.index
    &&& existing != offending
    &&& declared_in_stages(stages, bind_group, offending)
    &&& (groups.contains_key(bind_group) && groups[bind_group].contains(existing))
        || declared_in_stages(stages, bind_group, existing)
}

/// A failed merge of stages reports such a conflict.
proof fn lemma_merge_stages_conflict(groups: MergedGroups, stages: Seq<ShaderLayoutView>)
    requires
        merge_stages(groups, stages) is Err,
    ensures
        conflict_among_stages(merge_stages(groups, stages)->Err_0, groups, stages),
    decreases stages.len(),
{
    let head = stages.first();
    let rest = stages.drop_first();
    let conflict = merge_stages(groups, stages)->Err_0;
    match merge_groups(groups, head.bind_groups) {
        Ok(next) => {
            lemma_merge_stages_conflict(next, rest);
            let bind_group = conflict->BindingMismatch_bind_group;
            let existing = conflict->BindingMismatch_existing;
            let offending = conflict->BindingMismatch_offending;
            let s = choose|s: int|
                0 <= s < rest.len() && declared_in_groups(
                    (#[trigger] rest[s]).bind_groups,
                    bind_group,
                    offending,
                );
            assert(stages[s + 1] == rest[s]);
            if next.contains_key(bind_group) && next[bind_group].contains(existing) {
                let k = choose|k: int|
                    0 <= k < next[bind_group].len() && next[bind_group][k] == existing;
                lemma_merge_groups_origin(groups, head.bind_groups, bind_group, k);
                if declared_in_groups(head.bind_groups, bind_group, existing) {
                    assert(declared_in_groups(stages[0].bind_groups, bind_group, existing));
                }
            } else {
                let t = choose|t: int|
                    0 <= t < rest.len() && declared_in_groups(
                        (#[trigger] rest[t]).bind_groups,
                        bind_group,
                        existing,
                    );
                assert(stages[t + 1] == rest[t]);
            }
        },
        Err(_) => {
            lemma_merge_groups_conflict(groups, head.bind_groups);
            assert(stages[0] == head);
        },
    }
}

/// A merge fails only with a mismatch, and a mismatch is real: the two
/// bindings that it reports sit in one slot, differ, and are both declared by
/// stages, in bind groups of the index that it reports.
pub proof fn lemma_conflict_is_between_declarations(stages: Seq<ShaderLayoutView>)
    requires
        merged_bind_groups(stages) is Err,
    ensures
        merged_bind_groups(stages)->Err_0 matches PipelineLayoutErrorView::BindingMismatch {
            bind_group,
            existing,
            offending,
        } && existing.index == offending.index && existing != offending && declared_in_stages(
            stages,
            bind_group,
            existing,
        ) && declared_in_stages(stages, bind_group, offending),
{
    lemma_merge_stages_conflict(Map::empty(), stages);
}

/// Two declarations of one slot of one bind group that differ make the merge
/// fail: none of the two is picked in silence. The two bind groups that
/// declare the slot, at `g1` in stage `s1` and at `g2` in stage `s2`, must
/// each hold no two bindings in one slot.
pub proof fn lemma_differing_declarations_conflict(
    stages: Seq<ShaderLayoutView>,
    s1: int,
    g1: int,
    b1: int,
    s2: int,
    g2: int,
    b2: int,
)
    requires
        0 <= s1 < stages.len(),
        0 <= g1 < stages[s1].bind_groups.len(),
        0 <= b1 < stages[s1].bind_groups[g1].bindings.len(),
        0 <= s2 < stages.len(),
        0 <= g2 < stages[s2].bind_groups.len(),
        0 <= b2 < stages[s2].bind_groups[g2].bindings.len(),
        stages[s1].bind_groups[g1].index == stages[s2].bind_groups[g2].index,
        stages[s1].bind_groups[g1].bindings[b1].index
            == stages[s2].bind_groups[g2].bindings[b2].index,
        stages[s1].bind_groups[g1].bindings[b1] != stages[s2].bind_groups[g2].bindings[b2],
        slots_distinct(stages[s1].bind_groups[g1].bindings),
        slots_distinct(stages[s2].bind_groups[g2].bindings),
    ensures
        merged_bind_groups(stages) is Err,
{
    if merged_bind_groups(stages) is Ok {
        lemma_declared_binding_is_merged(stages, s1, g1, b1);
        lemma_declared_binding_is_merged(stages, s2, g2, b2);
    }
}

} // verus!
