//! Resource bindings and the bind groups that hold them.

use crate::uniform::{properties_model, UniformProperty, UniformPropertyView};
use vstd::prelude::*;

verus! {

/// How a texture is addressed by the shader that samples or stores to it.
#[derive(Clone, Copy, Debug, Hash, PartialEq, Eq, Structural)]
pub enum TextureDimension {
    D1,
    D2,
    D2Array,
    Cube,
    CubeArray,
    D3,
}

/// The kind of resource that a binding expects, with the layout of the
/// resource where it has one.
#[derive(Debug, Hash, Eq)]
pub enum BindType {
    /// A uniform buffer that holds the given properties, one after another.
    Uniform { dynamic: bool, properties: Vec<UniformProperty> },
    /// A storage buffer.
    Buffer { dynamic: bool, readonly: bool },
    /// A texture sampler.
    Sampler,
    /// A texture that the shader samples.
    SampledTexture { multisampled: bool, dimension: TextureDimension },
    /// A texture that the shader stores to.
    StorageTexture { dimension: TextureDimension },
}

/// The mathematical value of a [`BindType`].
#[verifier::ext_equal]
pub enum BindTypeView {
    Uniform { dynamic: bool, properties: Seq<UniformPropertyView> },
    Buffer { dynamic: bool, readonly: bool },
    Sampler,
    SampledTexture { multisampled: bool, dimension: TextureDimension },
    StorageTexture { dimension: TextureDimension },
}

/// One resource slot of a bind group: `index` is the slot. Two bindings are
/// equal where name, slot and bind type are, all the way down.
#[derive(Debug, Hash, Eq)]
pub struct Binding {
    pub name: String,
    pub index: u32,
    pub bind_type: BindType,
}

/// The mathematical value of a [`Binding`].
#[verifier::ext_equal]
pub struct BindingView {
    pub name: Seq<char>,
    pub index: u32,
    pub bind_type: BindTypeView,
}

/// The bindings of one bind group: `index` is the slot of the group.
#[derive(Debug, Hash, Eq)]
pub struct BindGroupDescriptor {
    pub index: u32,
    pub bindings: Vec<Binding>,
}

/// The mathematical value of a [`BindGroupDescriptor`].
#[verifier::ext_equal]
pub struct BindGroupView {
    pub index: u32,
    pub bindings: Seq<BindingView>,
}

impl View for BindType {
    type V = BindTypeView;

    open spec fn view(&self) -> BindTypeView {
        match self {
            BindType::Uniform { dynamic, properties } => BindTypeView::Uniform {
                dynamic: *dynamic,
                properties: properties_model(properties@),
            },
            BindType::Buffer { dynamic, readonly } => BindTypeView::Buffer {
                dynamic: *dynamic,
                readonly: *readonly,
            },
            BindType::Sampler => BindTypeView::Sampler,
            BindType::SampledTexture { multisampled, dimension } => BindTypeView::SampledTexture {
                multisampled: *multisampled,
                dimension: *dimension,
            },
            BindType::StorageTexture { dimension } => BindTypeView::StorageTexture {
                dimension: *dimension,
            },
        }
    }
}

impl View for Binding {
    type V = BindingView;

    open spec fn view(&self) -> BindingView {
        BindingView { name: self.name@, index: self.index, bind_type: self.bind_type@ }
    }
}

/// The mathematical values of a sequence of bindings, one for one.
pub open spec fn binding_views(bindings: Seq<Binding>) -> Seq<BindingView> {
    bindings.map_values(|b: Binding| b@)
}

impl View for BindGroupDescriptor {
    type V = BindGroupView;

    open spec fn view(&self) -> BindGroupView {
        BindGroupView { index: self.index, bindings: binding_views(self.bindings@) }
    }
}

/// The mathematical values of a sequence of bind groups, one for one.
pub open spec fn bind_group_views(groups: Seq<BindGroupDescriptor>) -> Seq<BindGroupView> {
    groups.map_values(|g: BindGroupDescriptor| g@)
}

impl Clone for BindType {
    fn clone(&self) -> (r: Self)
        ensures
            r@ == self@,
    {
        match self {
            BindType::Uniform { dynamic, properties } => {
                let copies = properties.clone();
                assert(properties_model(copies@) =~= properties_model(properties@));
                BindType::Uniform { dynamic: *dynamic, properties: copies }
            },
            BindType::Buffer { dynamic, readonly } => BindType::Buffer {
                dynamic: *dynamic,
                readonly: *readonly,
            },
            BindType::Sampler => BindType::Sampler,
            BindType::SampledTexture { multisampled, dimension } => BindType::SampledTexture {
                multisampled: *multisampled,
                dimension: *dimension,
            },
            BindType::StorageTexture { dimension } => BindType::StorageTexture {
                dimension: *dimension,
            },
        }
    }
}

impl PartialEq for BindType {
    fn eq(&self, other: &Self) -> (r: bool) {
        match (self, other) {
            (
                BindType::Uniform { dynamic, properties },
                BindType::Uniform { dynamic: other_dynamic, properties: other_properties },
            ) => {
                let same = properties == other_properties;
                proof {
                    let left = properties_model(properties@);
                    let right = properties_model(other_properties@);
                    if same {
                        assert(left =~= right);
                    } else if properties@.len() == other_properties@.len() {
                        let i = choose|i: int|
                            0 <= i < properties@.len() && properties@[i]@ != other_properties@[i]@;
                        assert(left[i] != right[i]);
                    } else {
                        assert(left.len() != right.len());
                    }
                }
                *dynamic == *other_dynamic && same
            },
            (
                BindType::Buffer { dynamic, readonly },
                BindType::Buffer { dynamic: other_dynamic, readonly: other_readonly },
            ) => *dynamic == *other_dynamic && *readonly == *other_readonly,
            (BindType::Sampler, BindType::Sampler) => true,
            (
                BindType::SampledTexture { multisampled, dimension },
                BindType::SampledTexture {
                    multisampled: other_multisampled,
                    dimension: other_dimension,
                },
            ) => *multisampled == *other_multisampled && *dimension == *other_dimension,
            (
                BindType::StorageTexture { dimension },
                BindType::StorageTexture { dimension: other_dimension },
            ) => *dimension == *other_dimension,
            _ => false,
        }
    }
}

impl vstd::std_specs::cmp::PartialEqSpecImpl for BindType {
    open spec fn obeys_eq_spec() -> bool {
        true
    }

    open spec fn eq_spec(&self, other: &Self) -> bool {
        self@ == other@
    }
}

impl Clone for Binding {
    fn clone(&self) -> (r: Self)
        ensures
            r@ == self@,
    {
        Binding { name: self.name.clone(), index: self.index, bind_type: self.bind_type.clone() }
    }
}

impl PartialEq for Binding {
    fn eq(&self, other: &Self) -> (r: bool) {
        self.index == other.index && self.name == other.name && self.bind_type == other.bind_type
    }
}

impl vstd::std_specs::cmp::PartialEqSpecImpl for Binding {
    open spec fn obeys_eq_spec() -> bool {
        true
    }

    open spec fn eq_spec(&self, other: &Self) -> bool {
        self@ == other@
    }
}

impl Clone for BindGroupDescriptor {
    fn clone(&self) -> (r: Self)
        ensures
            r@ == self@,
    {
        let bindings = self.bindings.clone();
        assert(binding_views(bindings@) =~= binding_views(self.bindings@));
        BindGroupDescriptor { index: self.index, bindings }
    }
}

impl PartialEq for BindGroupDescriptor {
    fn eq(&self, other: &Self) -> (r: bool) {
        let same = self.bindings == other.bindings;
        proof {
            let left = binding_views(self.bindings@);
            let right = binding_views(other.bindings@);
            if same {
                assert(left =~= right);
            } else if self.bindings@.len() == other.bindings@.len() {
                let i = choose|i: int|
                    0 <= i < self.bindings@.len() && self.bindings@[i]@ != other.bindings@[i]@;
                assert(left[i] != right[i]);
            } else {
                assert(left.len() != right.len());
            }
        }
        self.index == other.index && same
    }
}

impl vstd::std_specs::cmp::PartialEqSpecImpl for BindGroupDescriptor {
    open spec fn obeys_eq_spec() -> bool {
        true
    }

    open spec fn eq_spec(&self, other: &Self) -> bool {
        self@ == other@
    }
}

impl BindGroupDescriptor {
    /// A bind group for slot `index` with the given bindings.
    pub fn new(index: u32, bindings: Vec<Binding>) -> (r: Self)
        ensures
            r.index == index,
            r.bindings == bindings,
    {
        BindGroupDescriptor { index, bindings }
    }
}

} // verus!
