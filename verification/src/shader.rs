//! What reflection reports of one shader stage.

use crate::binding::{bind_group_views, BindGroupDescriptor, BindGroupView};
use crate::vertex::{vertex_buffer_views, VertexBufferDescriptor, VertexBufferView};
use vstd::prelude::*;

verus! {

/// The bind groups and the vertex buffers that one shader stage declares, in
/// the order in which it declares them.
#[derive(Debug)]
pub struct ShaderLayout {
    pub bind_groups: Vec<BindGroupDescriptor>,
    pub vertex_buffer_descriptors: Vec<VertexBufferDescriptor>,
}

/// The mathematical value of a [`ShaderLayout`].
#[verifier::ext_equal]
pub struct ShaderLayoutView {
    pub bind_groups: Seq<BindGroupView>,
    pub vertex_buffer_descriptors: Seq<VertexBufferView>,
}

impl View for ShaderLayout {
    type V = ShaderLayoutView;

    open spec fn view(&self) -> ShaderLayoutView {
        ShaderLayoutView {
            bind_groups: bind_group_views(self.bind_groups@),
            vertex_buffer_descriptors: vertex_buffer_views(self.vertex_buffer_descriptors@),
        }
    }
}

/// The mathematical values of a sequence of stages, one for one.
pub open spec fn shader_layout_views(stages: Seq<ShaderLayout>) -> Seq<ShaderLayoutView> {
    stages.map_values(|s: ShaderLayout| s@)
}

impl Clone for ShaderLayout {
    fn clone(&self) -> (r: Self)
        ensures
            r@ == self@,
    {
        let bind_groups = self.bind_groups.clone();
        let vertex_buffer_descriptors = self.vertex_buffer_descriptors.clone();
        assert(bind_group_views(bind_groups@) =~= bind_group_views(self.bind_groups@));
        assert(vertex_buffer_views(vertex_buffer_descriptors@) =~= vertex_buffer_views(
            self.vertex_buffer_descriptors@,
        ));
        ShaderLayout { bind_groups, vertex_buffer_descriptors }
    }
}

} // verus!
