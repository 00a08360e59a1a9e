//! The layout of a whole pipeline, merged from the layouts of its stages.

use crate::binding::{
    bind_group_views, binding_views, BindGroupDescriptor, BindGroupView, Binding, BindingView,
};
use crate::error::{PipelineLayoutError, PipelineLayoutErrorView};
use crate::merge::{
    binding_in_slot, lists_in_order, merge_binding, merge_bindings, merge_group, merge_groups,
    merge_stages, merged_bind_groups, MergedGroups,
};
use crate::merge_lemmas::{lemma_slot_empty, lemma_slot_found};
use crate::registry::{
    first_unsupported, lemma_supported_prefix_is, synchronized, VertexBufferDescriptors,
};
use crate::shader::{shader_layout_views, ShaderLayout};
use crate::vertex::{vertex_buffer_views, VertexBufferDescriptor, VertexBufferView};
use std::collections::HashMap;
use vstd::prelude::*;

verus! {

/// The bind groups of a pipeline, ascending by index, and its vertex buffers.
#[derive(Debug)]
pub struct PipelineLayout {
    pub bind_groups: Vec<BindGroupDescriptor>,
    pub vertex_buffer_descriptors: Vec<VertexBufferDescriptor>,
}

/// The mathematical value of a [`PipelineLayout`].
#[verifier::ext_equal]
pub struct PipelineLayoutView {
    pub bind_groups: Seq<BindGroupView>,
    pub vertex_buffer_descriptors: Seq<VertexBufferView>,
}

impl View for PipelineLayout {
    type V = PipelineLayoutView;

    open spec fn view(&self) -> PipelineLayoutView {
        PipelineLayoutView {
            bind_groups: bind_group_views(self.bind_groups@),
            vertex_buffer_descriptors: vertex_buffer_views(self.vertex_buffer_descriptors@),
        }
    }
}

impl Default for PipelineLayout {
    fn default() -> (layout: Self)
        ensures
            layout@.bind_groups == Seq::<BindGroupView>::empty(),
            layout@.vertex_buffer_descriptors == Seq::<VertexBufferView>::empty(),
    {
        PipelineLayout { bind_groups: Vec::new(), vertex_buffer_descriptors: Vec::new() }
    }
}

impl Clone for PipelineLayout {
    fn clone(&self) -> (r: Self)
        ensures
            r@ == self@,
    {
        let bind_groups = self.bind_groups.clone();
        let vertex_buffer_descriptors = self.vertex_buffer_descriptors.clone();
        assert(bind_group_views(bind_groups@) =~= bind_group_views(self.bind_groups@));
        assert(vertex_buffer_views(vertex_buffer_descriptors@) =~= vertex_buffer_views(
            self.vertex_buffer_descriptors@,
        ));
        PipelineLayout { bind_groups, vertex_buffer_descriptors }
    }
}

/// The position of the first binding that sits in slot `index`.
fn find_binding(bindings: &Vec<Binding>, index: u32) -> (found: Option<usize>)
    ensures
        match found {
            Some(i) => i < bindings@.len() && binding_in_slot(binding_views(bindings@), index)
                == Some(bindings@[i as int]@),
            None => binding_in_slot(binding_views(bindings@), index) is None,
        },
{
    let mut i: usize = 0;
    while i < bindings.len()
        invariant
            i <= bindings.len(),
            forall|j: int| 0 <= j < i ==> binding_views(bindings@)[j].index != index,
        decreases bindings.len() - i,
    {
        if bindings[i].index == index {
            proof {
                lemma_slot_found(binding_views(bindings@), index, i as int);
            }
            return Some(i);
        }
        i = i + 1;
    }
    proof {
        lemma_slot_empty(binding_views(bindings@), index);
    }
    None
}

/// Merges the bindings of `shader_bind_group` into `bind_group`, which holds
/// what was merged so far for the same bind-group slot. After a conflict
/// `bind_group` is of no further use.
fn merge_into(
    bind_group: &mut BindGroupDescriptor,
    shader_bind_group: &BindGroupDescriptor,
) -> (result: Result<(), PipelineLayoutError>)
    ensures
        final(bind_group).index == old(bind_group).index,
        match result {
            Ok(_) => merge_bindings(
                old(bind_group).index,
                old(bind_group)@.bindings,
                shader_bind_group@.bindings,
            ) == Ok::<Seq<BindingView>, PipelineLayoutErrorView>(final(bind_group)@.bindings),
            Err(conflict) => conflict is BindingMismatch && merge_bindings(
                old(bind_group).index,
                old(bind_group)@.bindings,
                shader_bind_group@.bindings,
            ) == Err::<Seq<BindingView>, PipelineLayoutErrorView>(conflict@),
        },
{
    let ghost incoming = shader_bind_group@.bindings;
    let ghost goal = merge_bindings(old(bind_group).index, old(bind_group)@.bindings, incoming);
    let mut i: usize = 0;
    assert(incoming.skip(0) =~= incoming);
    while i < shader_bind_group.bindings.len()
        invariant
            i <= shader_bind_group.bindings.len(),
            incoming == shader_bind_group@.bindings,
            bind_group.index == old(bind_group).index,
            goal == merge_bindings(old(bind_group).index, old(bind_group)@.bindings, incoming),
            merge_bindings(bind_group.index, bind_group@.bindings, incoming.skip(i as int))
                == goal,
        decreases shader_bind_group.bindings.len() - i,
    {
        let shader_binding = &shader_bind_group.bindings[i];
        proof {
            assert(incoming.skip(i as int).first() == shader_binding@);
            assert(incoming.skip(i as int).drop_first() =~= incoming.skip(i + 1));
        }
        match find_binding(&bind_group.bindings, shader_binding.index) {
            Some(at) => {
                if bind_group.bindings[at] != *shader_binding {
                    let conflict = PipelineLayoutError::BindingMismatch {
                        bind_group: bind_group.index,
                        existing: bind_group.bindings[at].clone(),
                        offending: shader_binding.clone(),
                    };
                    assert(merge_binding(bind_group.index, bind_group@.bindings, shader_binding@)
                        == Err::<Seq<BindingView>, PipelineLayoutErrorView>(conflict@));
                    return Err(conflict);
                }
            },
            None => {
                let ghost before = bind_group@.bindings;
                bind_group.bindings.push(shader_binding.clone());
                assert(bind_group@.bindings =~= before.push(shader_binding@));
            },
        }
        i = i + 1;
    }
    Ok(())
}

/// The groups that the accumulator holds, each under its index.
spec fn accumulated(bind_groups: Map<u32, BindGroupDescriptor>) -> MergedGroups {
    Map::new(
        |index: u32| bind_groups.contains_key(index),
        |index: u32| bind_groups[index]@.bindings,
    )
}

/// Whether the accumulator holds every group under the group's own index.
spec fn keyed_by_index(bind_groups: Map<u32, BindGroupDescriptor>) -> bool {
    forall|index: u32| #[trigger]
        bind_groups.contains_key(index) ==> bind_groups[index].index == index
}

/// Merges the bind groups of one stage into the accumulator. After a conflict
/// the accumulator is of no further use.
fn merge_stage(
    bind_groups: &mut HashMap<u32, BindGroupDescriptor>,
    shader_layout: &ShaderLayout,
) -> (result: Result<(), PipelineLayoutError>)
    requires
        keyed_by_index(old(bind_groups)@),
    ensures
        match result {
            Ok(_) => keyed_by_index(final(bind_groups)@) && merge_groups(
                accumulated(old(bind_groups)@),
                shader_layout@.bind_groups,
            ) == Ok::<MergedGroups, PipelineLayoutErrorView>(accumulated(final(bind_groups)@)),
            Err(conflict) => conflict is BindingMismatch && merge_groups(
                accumulated(old(bind_groups)@),
                shader_layout@.bind_groups,
            ) == Err::<MergedGroups, PipelineLayoutErrorView>(conflict@),
        },
{
    broadcast use vstd::std_specs::hash::group_hash_axioms;

    let ghost incoming = shader_layout@.bind_groups;
    let ghost goal = merge_groups(accumulated(old(bind_groups)@), incoming);
    let mut i: usize = 0;
    assert(incoming.skip(0) =~= incoming);
    while i < shader_layout.bind_groups.len()
        invariant
            i <= shader_layout.bind_groups.len(),
            incoming == shader_layout@.bind_groups,
            goal == merge_groups(accumulated(old(bind_groups)@), incoming),
            keyed_by_index(bind_groups@),
            merge_groups(accumulated(bind_groups@), incoming.skip(i as int)) == goal,
        decreases shader_layout.bind_groups.len() - i,
    {
        let shader_bind_group = &shader_layout.bind_groups[i];
        let ghost before = bind_groups@;
        proof {
            assert(incoming.skip(i as int).first() == shader_bind_group@);
            assert(incoming.skip(i as int).drop_first() =~= incoming.skip(i + 1));
        }
        match bind_groups.remove(&shader_bind_group.index) {
            Some(bind_group) => {
                let mut bind_group = bind_group;
                match merge_into(&mut bind_group, shader_bind_group) {
                    Ok(_) => {},
                    Err(conflict) => {
                        assert(merge_group(accumulated(before), shader_bind_group@)
                            == Err::<MergedGroups, PipelineLayoutErrorView>(conflict@));
                        return Err(conflict);
                    },
                }
                bind_groups.insert(shader_bind_group.index, bind_group);
                assert(accumulated(bind_groups@) =~= accumulated(before).insert(
                    shader_bind_group.index,
                    bind_group@.bindings,
                ));
            },
            None => {
                bind_groups.insert(shader_bind_group.index, shader_bind_group.clone());
                assert(accumulated(bind_groups@) =~= accumulated(before).insert(
                    shader_bind_group.index,
                    shader_bind_group@.bindings,
                ));
            },
        }
        i = i + 1;
    }
    Ok(())
}

/// Whether the indices ascend strictly, so that none occurs twice.
spec fn strictly_ascending(indices: Seq<u32>) -> bool {
    forall|i: int, j: int| 0 <= i < j < indices.len() ==> indices[i] < indices[j]
}

/// Puts `index` where it belongs among indices that ascend.
fn insert_ascending(sorted: &mut Vec<u32>, index: u32)
    requires
        strictly_ascending(old(sorted)@),
        !old(sorted)@.contains(index),
    ensures
        strictly_ascending(final(sorted)@),
        forall|k: u32| final(sorted)@.contains(k) <==> (old(sorted)@.contains(k) || k == index),
{
    let mut at: usize = 0;
    while at < sorted.len() && sorted[at] < index
        invariant
            at <= sorted.len(),
            sorted@ == old(sorted)@,
            forall|j: int| 0 <= j < at ==> sorted@[j] < index,
        decreases sorted.len() - at,
    {
        at = at + 1;
    }
    let ghost before = sorted@;
    sorted.insert(at, index);
    proof {
        let after = sorted@;
        assert(after[at as int] == index);
        assert forall|k: u32| after.contains(k) <==> (before.contains(k) || k == index) by {
            if after.contains(k) {
                let p = choose|p: int| 0 <= p < after.len() && after[p] == k;
                if p < at {
                    assert(before[p] == k);
                } else if p > at {
                    assert(before[p - 1] == k);
                }
            }
            if before.contains(k) {
                let p = choose|p: int| 0 <= p < before.len() && before[p] == k;
                if p < at {
                    assert(after[p] == k);
                } else {
                    assert(after[p + 1] == k);
                }
            }
        }
    }
}

/// The indices under which the accumulator holds a group, in ascending
/// order. The order in which the map hands out its keys plays no part.
fn ascending_indices(bind_groups: &HashMap<u32, BindGroupDescriptor>) -> (indices: Vec<u32>)
    ensures
        strictly_ascending(indices@),
        forall|k: u32| indices@.contains(k) <==> bind_groups@.contains_key(k),
{
    broadcast use vstd::std_specs::hash::group_hash_axioms;

    let mut indices: Vec<u32> = Vec::new();
    for index in it: bind_groups.keys()
        invariant
            strictly_ascending(indices@),
            it.seq().no_duplicates(),
            it.seq().unref().to_set() == bind_groups@.dom(),
            it.seq().unref().take(it.seq().len() as int) == it.seq().unref(),
            forall|k: u32|
                indices@.contains(k) <==> it.seq().unref().take(it.index()).contains(k),
    {
        proof {
            let keys = it.seq().unref();
            let at = it.index();
            let shorter = keys.take(at);
            let longer = keys.take(at + 1);
            assert(keys[at] == *index);
            assert(longer =~= shorter.push(keys[at]));
            assert(!shorter.contains(keys[at]));
            assert forall|k: u32| longer.contains(k) <==> (shorter.contains(k) || k
                == *index) by {
                if longer.contains(k) {
                    let p = choose|p: int| 0 <= p < longer.len() && longer[p] == k;
                    if p < at {
                        assert(shorter[p] == k);
                    }
                }
                if shorter.contains(k) {
                    let p = choose|p: int| 0 <= p < shorter.len() && shorter[p] == k;
                    assert(longer[p] == k);
                }
                if k == *index {
                    assert(longer[at] == k);
                }
            }
        }
        insert_ascending(&mut indices, *index);
    }
    indices
}

/// Takes the groups out of the accumulator, in ascending order of index.
fn drain_ascending(bind_groups: HashMap<u32, BindGroupDescriptor>) -> (drained: Vec<
    BindGroupDescriptor,
>)
    requires
        keyed_by_index(bind_groups@),
    ensures
        lists_in_order(bind_group_views(drained@), accumulated(bind_groups@)),
{
    broadcast use vstd::std_specs::hash::group_hash_axioms;

    let mut bind_groups = bind_groups;
    let ghost all = bind_groups@;
    let indices = ascending_indices(&bind_groups);
    let mut drained: Vec<BindGroupDescriptor> = Vec::new();
    let mut i: usize = 0;
    assert forall|j: int| 0 <= j < indices.len() implies all.contains_key(
        #[trigger] indices@[j],
    ) by {
        assert(indices@.contains(indices@[j]));
    }
    while i < indices.len()
        invariant
            i <= indices.len(),
            strictly_ascending(indices@),
            keyed_by_index(all),
            forall|k: u32| indices@.contains(k) <==> all.contains_key(k),
            forall|j: int|
                i <= j < indices.len() ==> bind_groups@.contains_key(#[trigger] indices@[j])
                    && bind_groups@[indices@[j]] == all[indices@[j]],
            drained.len() == i,
            forall|j: int| 0 <= j < i ==> #[trigger] drained@[j] == all[indices@[j]],
        decreases indices.len() - i,
    {
        let ghost before = bind_groups@;
        assert(before.contains_key(indices@[i as int]));
        if let Some(bind_group) = bind_groups.remove(&indices[i]) {
            drained.push(bind_group);
        }
        assert forall|j: int| i + 1 <= j < indices.len() implies bind_groups@.contains_key(
            #[trigger] indices@[j],
        ) && bind_groups@[indices@[j]] == all[indices@[j]] by {
            assert(before.contains_key(indices@[j]));
            assert(indices@[i as int] < indices@[j]);
        }
        i = i + 1;
    }
    proof {
        let listed = bind_group_views(drained@);
        let merged = accumulated(all);
        assert forall|j: int| 0 <= j < listed.len() implies merged.contains_key(
            #[trigger] listed[j].index,
        ) && merged[listed[j].index] == listed[j].bindings by {
            assert(indices@.contains(indices@[j]));
            assert(drained@[j] == all[indices@[j]]);
        }
        assert forall|index: u32| #[trigger] merged.contains_key(index) implies exists|j: int|
            0 <= j < listed.len() && #[trigger] listed[j].index == index by {
            assert(indices@.contains(index));
            let j = choose|j: int| 0 <= j < indices@.len() && indices@[j] == index;
            assert(drained@[j] == all[indices@[j]]);
            assert(listed[j].index == index);
        }
        assert forall|a: int, b: int| 0 <= a < b < listed.len() implies #[trigger] listed[a].index
            < #[trigger] listed[b].index by {
            assert(indices@.contains(indices@[a]));
            assert(indices@.contains(indices@[b]));
            assert(drained@[a] == all[indices@[a]]);
            assert(drained@[b] == all[indices@[b]]);
        }
    }
    drained
}

impl PipelineLayout {
    /// Merges the layouts of the stages of one pipeline, of which there must
    /// be at least one.
    ///
    /// The bind groups of all stages are merged slot by slot and come out in
    /// ascending order of index, each index once. Where two stages declare a
    /// binding of the same bind group differently, the first such conflict
    /// is returned and no layout is built. The vertex buffers are those of the
    /// first stage. The stages themselves are left as they were.
    pub fn from_shader_layouts(shader_layouts: &mut [ShaderLayout]) -> (result: Result<
        PipelineLayout,
        PipelineLayoutError,
    >)
        requires
            old(shader_layouts)@.len() > 0,
        ensures
            final(shader_layouts)@ == old(shader_layouts)@,
            result is Ok <==> merged_bind_groups(shader_layout_views(old(shader_layouts)@)) is Ok,
            result matches Ok(layout) ==> lists_in_order(
                layout@.bind_groups,
                merged_bind_groups(shader_layout_views(old(shader_layouts)@))->Ok_0,
            ),
            result matches Ok(layout) ==> forall|i: int, j: int|
                0 <= i < j < layout.bind_groups@.len() ==> (#[trigger] layout.bind_groups@[i]).index
                    < (#[trigger] layout.bind_groups@[j]).index,
            result matches Ok(layout) ==> layout@.vertex_buffer_descriptors == old(
                shader_layouts,
            )@[0]@.vertex_buffer_descriptors,
            result matches Err(conflict) ==> conflict is BindingMismatch && merged_bind_groups(
                shader_layout_views(old(shader_layouts)@),
            ) == Err::<MergedGroups, PipelineLayoutErrorView>(conflict@),
    {
        let ghost stages = shader_layout_views(shader_layouts@);
        let ghost goal = merged_bind_groups(stages);
        let mut bind_groups: HashMap<u32, BindGroupDescriptor> = HashMap::new();
        assert(accumulated(bind_groups@) =~= Map::empty());
        assert(stages.skip(0) =~= stages);
        let mut i: usize = 0;
        while i < shader_layouts.len()
            invariant
                i <= shader_layouts.len(),
                shader_layouts@ == old(shader_layouts)@,
                stages == shader_layout_views(shader_layouts@),
                goal == merged_bind_groups(stages),
                keyed_by_index(bind_groups@),
                merge_stages(accumulated(bind_groups@), stages.skip(i as int)) == goal,
            decreases shader_layouts.len() - i,
        {
            proof {
                assert(stages.skip(i as int).first() == shader_layouts@[i as int]@);
                assert(stages.skip(i as int).drop_first() =~= stages.skip(i + 1));
            }
            match merge_stage(&mut bind_groups, &shader_layouts[i]) {
                Ok(_) => {},
                Err(conflict) => {
                    return Err(conflict);
                },
            }
            i = i + 1;
        }

        let vertex_buffer_descriptors = shader_layouts[0].vertex_buffer_descriptors.clone();
        assert(vertex_buffer_views(vertex_buffer_descriptors@) =~= vertex_buffer_views(
            shader_layouts@[0].vertex_buffer_descriptors@,
        ));

        let bind_groups_result = drain_ascending(bind_groups);
        assert forall|i: int, j: int| 0 <= i < j < bind_groups_result@.len() implies (
        #[trigger] bind_groups_result@[i]).index < (#[trigger] bind_groups_result@[j]).index by {
            assert(bind_group_views(bind_groups_result@)[i].index < bind_group_views(
                bind_groups_result@,
            )[j].index);
        }

        Ok(PipelineLayout { bind_groups: bind_groups_result, vertex_buffer_descriptors })
    }

    /// Reconciles the vertex buffers of the layout with the canonical ones of
    /// the registry, from the first on.
    ///
    /// Each descriptor is looked up by its name and reconciled with what the
    /// registry holds under it. The first descriptor whose name the registry
    /// does not have ends the work: it is named in the error, and it and
    /// those after it stay as they were, while those before it stay
    /// reconciled. No descriptor is added or removed, and the bind groups are
    /// not touched.
    pub fn sync_vertex_buffer_descriptors(
        &mut self,
        vertex_buffer_descriptors: &VertexBufferDescriptors,
    ) -> (result: Result<(), PipelineLayoutError>)
        ensures
            final(self).bind_groups == old(self).bind_groups,
            final(self)@.vertex_buffer_descriptors == synchronized(
                old(self)@.vertex_buffer_descriptors,
                vertex_buffer_descriptors@,
            ),
            final(self)@.vertex_buffer_descriptors.len() == old(
                self,
            )@.vertex_buffer_descriptors.len(),
            forall|i: int|
                0 <= i < old(self)@.vertex_buffer_descriptors.len() ==> (
                #[trigger] final(self)@.vertex_buffer_descriptors[i]).name == old(
                    self,
                )@.vertex_buffer_descriptors[i].name,
            result is Ok <==> first_unsupported(
                old(self)@.vertex_buffer_descriptors,
                vertex_buffer_descriptors@,
            ) is None,
            result matches Err(unsupported) ==> unsupported@
                == (PipelineLayoutErrorView::UnsupportedVertexBuffer {
                name: first_unsupported(
                    old(self)@.vertex_buffer_descriptors,
                    vertex_buffer_descriptors@,
                )->Some_0,
            }),
    {
        let ghost before = self@.vertex_buffer_descriptors;
        let ghost canonical = vertex_buffer_descriptors@;
        let mut i: usize = 0;
        while i < self.vertex_buffer_descriptors.len()
            invariant
                i <= self.vertex_buffer_descriptors.len(),
                self.bind_groups == old(self).bind_groups,
                before == old(self)@.vertex_buffer_descriptors,
                canonical == vertex_buffer_descriptors@,
                self@.vertex_buffer_descriptors.len() == before.len(),
                forall|j: int| 0 <= j < i ==> canonical.contains_key(#[trigger] before[j].name),
                forall|j: int|
                    0 <= j < i ==> #[trigger] self@.vertex_buffer_descriptors[j]
                        == before[j].synced_with(canonical[before[j].name]),
                forall|j: int|
                    i <= j < before.len() ==> #[trigger] self@.vertex_buffer_descriptors[j]
                        == before[j],
            decreases self.vertex_buffer_descriptors.len() - i,
        {
            let ghost current = self@.vertex_buffer_descriptors;
            assert(current[i as int] == before[i as int]);
            match vertex_buffer_descriptors.get(&self.vertex_buffer_descriptors[i].name) {
                Some(graph_descriptor) => {
                    self.vertex_buffer_descriptors[i].sync_with_descriptor(graph_descriptor);
                },
                None => {
                    let unsupported = PipelineLayoutError::UnsupportedVertexBuffer {
                        name: self.vertex_buffer_descriptors[i].name.clone(),
                    };
                    proof {
                        lemma_supported_prefix_is(before, canonical, i as int);
                        assert(self@.vertex_buffer_descriptors =~= synchronized(before, canonical));
                    }
                    return Err(unsupported);
                },
            }
            proof {
                let after = self@.vertex_buffer_descriptors;
                assert forall|j: int| 0 <= j < i + 1 implies #[trigger] after[j]
                    == before[j].synced_with(canonical[before[j].name]) by {
                    if j < i {
                        assert(after[j] == current[j]);
                    }
                }
                assert forall|j: int| i + 1 <= j < before.len() implies #[trigger] after[j]
                    == before[j] by {
                    assert(after[j] == current[j]);
                }
            }
            i = i + 1;
        }
        proof {
            lemma_supported_prefix_is(before, canonical, i as int);
            assert(self@.vertex_buffer_descriptors =~= synchronized(before, canonical));
        }
        Ok(())
    }
}

} // verus!
