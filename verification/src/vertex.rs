//! Vertex buffer layouts, and the registry of the canonical ones.

use vstd::prelude::*;

verus! {

/// The format of one vertex attribute.
#[derive(Clone, Copy, Debug, Hash, PartialEq, Eq, Structural)]
pub enum VertexFormat {
    Float,
    Float2,
    Float3,
    Float4,
    Int,
    Int2,
    Int3,
    Int4,
    Uint,
    Uint2,
    Uint3,
    Uint4,
}

/// One attribute of a vertex buffer.
#[derive(Debug, Hash, Eq)]
pub struct VertexAttributeDescriptor {
    pub name: String,
    pub offset: u64,
    pub format: VertexFormat,
    pub shader_location: u32,
}

/// The mathematical value of a [`VertexAttributeDescriptor`].
#[verifier::ext_equal]
pub struct VertexAttributeView {
    pub name: Seq<char>,
    pub offset: u64,
    pub format: VertexFormat,
    pub shader_location: u32,
}

/// The layout of one vertex buffer, identified by its name.
#[derive(Debug, Hash, Eq)]
pub struct VertexBufferDescriptor {
    pub name: String,
    pub stride: u64,
    pub attributes: Vec<VertexAttributeDescriptor>,
}

/// The mathematical value of a [`VertexBufferDescriptor`].
#[verifier::ext_equal]
pub struct VertexBufferView {
    pub name: Seq<char>,
    pub stride: u64,
    pub attributes: Seq<VertexAttributeView>,
}

impl View for VertexAttributeDescriptor {
    type V = VertexAttributeView;

    open spec fn view(&self) -> VertexAttributeView {
        VertexAttributeView {
            name: self.name@,
            offset: self.offset,
            format: self.format,
            shader_location: self.shader_location,
        }
    }
}

/// The mathematical values of a sequence of attributes, one for one.
pub open spec fn attribute_views(attributes: Seq<VertexAttributeDescriptor>) -> Seq<
    VertexAttributeView,
> {
    attributes.map_values(|a: VertexAttributeDescriptor| a@)
}

impl View for VertexBufferDescriptor {
    type V = VertexBufferView;

    open spec fn view(&self) -> VertexBufferView {
        VertexBufferView {
            name: self.name@,
            stride: self.stride,
            attributes: attribute_views(self.attributes@),
        }
    }
}

/// The mathematical values of a sequence of vertex buffers, one for one.
pub open spec fn vertex_buffer_views(descriptors: Seq<VertexBufferDescriptor>) -> Seq<
    VertexBufferView,
> {
    descriptors.map_values(|d: VertexBufferDescriptor| d@)
}

/// The offset of the first attribute called `name`, if there is one.
pub open spec fn offset_of(attributes: Seq<VertexAttributeView>, name: Seq<char>) -> Option<u64>
    decreases attributes.len(),
{
    if attributes.len() == 0 {
        None
    } else if attributes.first().name == name {
        Some(attributes.first().offset)
    } else {
        offset_of(attributes.drop_first(), name)
    }
}

impl VertexAttributeView {
    /// The attribute with the offset that `canonical` gives to its name;
    /// unchanged where `canonical` has no attribute of that name.
    pub open spec fn synced_with(self, canonical: VertexBufferView) -> VertexAttributeView {
        match offset_of(canonical.attributes, self.name) {
            Some(offset) => VertexAttributeView { offset, ..self },
            None => self,
        }
    }
}

impl VertexBufferView {
    /// The buffer reconciled with `canonical`: it takes the canonical stride,
    /// and each attribute takes the canonical offset of its name.
    pub open spec fn synced_with(self, canonical: VertexBufferView) -> VertexBufferView {
        VertexBufferView {
            name: self.name,
            stride: canonical.stride,
            attributes: self.attributes.map_values(
                |a: VertexAttributeView| a.synced_with(canonical),
            ),
        }
    }
}

/// Where no earlier attribute has the name and the one at `i` has it, the
/// offset found is that of the attribute at `i`.
pub proof fn lemma_offset_of_first(attributes: Seq<VertexAttributeView>, name: Seq<char>, i: int)
    requires
        0 <= i < attributes.len(),
        attributes[i].name == name,
        forall|j: int| 0 <= j < i ==> attributes[j].name != name,
    ensures
        offset_of(attributes, name) == Some(attributes[i].offset),
    decreases i,
{
    if i > 0 {
        lemma_offset_of_first(attributes.drop_first(), name, i - 1);
    }
}

/// Where no attribute has the name, no offset is found.
pub proof fn lemma_offset_of_none(attributes: Seq<VertexAttributeView>, name: Seq<char>)
    requires
        forall|j: int| 0 <= j < attributes.len() ==> attributes[j].name != name,
    ensures
        offset_of(attributes, name) is None,
    decreases attributes.len(),
{
    if attributes.len() > 0 {
        lemma_offset_of_none(attributes.drop_first(), name);
    }
}

impl Clone for VertexAttributeDescriptor {
    fn clone(&self) -> (r: Self)
        ensures
            r@ == self@,
    {
        VertexAttributeDescriptor {
            name: self.name.clone(),
            offset: self.offset,
            format: self.format,
            shader_location: self.shader_location,
        }
    }
}

impl PartialEq for VertexAttributeDescriptor {
    fn eq(&self, other: &Self) -> (r: bool) {
        self.name == other.name && self.offset == other.offset && self.format == other.format
            && self.shader_location == other.shader_location
    }
}

impl vstd::std_specs::cmp::PartialEqSpecImpl for VertexAttributeDescriptor {
    open spec fn obeys_eq_spec() -> bool {
        true
    }

    open spec fn eq_spec(&self, other: &Self) -> bool {
        self@ == other@
    }
}

impl Clone for VertexBufferDescriptor {
    fn clone(&self) -> (r: Self)
        ensures
            r@ == self@,
    {
        let attributes = self.attributes.clone();
        assert(attribute_views(attributes@) =~= attribute_views(self.attributes@));
        VertexBufferDescriptor { name: self.name.clone(), stride: self.stride, attributes }
    }
}

impl PartialEq for VertexBufferDescriptor {
    fn eq(&self, other: &Self) -> (r: bool) {
        let same = self.attributes == other.attributes;
        proof {
            let left = attribute_views(self.attributes@);
            let right = attribute_views(other.attributes@);
            if same {
                assert(left =~= right);
            } else if self.attributes@.len() == other.attributes@.len() {
                let i = choose|i: int|
                    0 <= i < self.attributes@.len() && self.attributes@[i]@
                        != other.attributes@[i]@;
                assert(left[i] != right[i]);
            } else {
                assert(left.len() != right.len());
            }
        }
        self.name == other.name && self.stride == other.stride && same
    }
}

impl vstd::std_specs::cmp::PartialEqSpecImpl for VertexBufferDescriptor {
    open spec fn obeys_eq_spec() -> bool {
        true
    }

    open spec fn eq_spec(&self, other: &Self) -> bool {
        self@ == other@
    }
}

impl VertexBufferDescriptor {
    /// The position of the first attribute called `name`.
    fn find_attribute(&self, name: &String) -> (found: Option<usize>)
        ensures
            match found {
                Some(i) => i < self.attributes@.len() && offset_of(self@.attributes, name@) == Some(
                    self.attributes@[i as int].offset,
                ),
                None => offset_of(self@.attributes, name@) is None,
            },
    {
        let mut i: usize = 0;
        while i < self.attributes.len()
            invariant
                i <= self.attributes.len(),
                forall|j: int| 0 <= j < i ==> self@.attributes[j].name != name@,
            decreases self.attributes.len() - i,
        {
            if self.attributes[i].name == *name {
                proof {
                    lemma_offset_of_first(self@.attributes, name@, i as int);
                }
                return Some(i);
            }
            i = i + 1;
        }
        proof {
            lemma_offset_of_none(self@.attributes, name@);
        }
        None
    }

    /// Reconciles this buffer with the canonical one of the same name: the
    /// stride becomes the canonical stride, and each attribute takes the
    /// offset of the canonical attribute of its name. An attribute that the
    /// canonical buffer does not have keeps its offset.
    pub fn sync_with_descriptor(&mut self, descriptor: &VertexBufferDescriptor)
        ensures
            final(self)@ == old(self)@.synced_with(descriptor@),
    {
        let mut i: usize = 0;
        while i < self.attributes.len()
            invariant
                i <= self.attributes.len(),
                self.name == old(self).name,
                self.attributes.len() == old(self).attributes.len(),
                forall|j: int|
                    0 <= j < i ==> self.attributes@[j]@ == old(self).attributes@[j]@.synced_with(
                        descriptor@,
                    ),
                forall|j: int|
                    i <= j < self.attributes.len() ==> self.attributes@[j] == old(
                        self,
                    ).attributes@[j],
            decreases self.attributes.len() - i,
        {
            match descriptor.find_attribute(&self.attributes[i].name) {
                Some(at) => {
                    self.attributes[i].offset = descriptor.attributes[at].offset;
                },
                None => {},
            }
            i = i + 1;
        }
        self.stride = descriptor.stride;
        assert(self@.attributes =~= old(self)@.synced_with(descriptor@).attributes);
    }
}

} // verus!
