//! Uniform property types and their unpadded byte sizes.

use vstd::prelude::*;

verus! {

/// The mathematical value of a [`UniformPropertyType`].
#[verifier::ext_equal]
pub enum UniformTypeView {
    Int,
    Float,
    UVec4,
    Vec2,
    Vec3,
    Vec4,
    Mat3,
    Mat4,
    Struct(Seq<UniformPropertyView>),
    Array(Box<UniformTypeView>, nat),
}

/// The mathematical value of a [`UniformProperty`].
#[verifier::ext_equal]
pub struct UniformPropertyView {
    pub name: Seq<char>,
    pub property_type: UniformTypeView,
}

/// A named, typed field of a structured uniform.
#[derive(Debug, Hash, Eq, PartialOrd, Ord)]
pub struct UniformProperty {
    pub name: String,
    pub property_type: UniformPropertyType,
}

/// The type of a uniform value: a scalar, a vector, a matrix, a struct of
/// named fields or a fixed-length array.
#[derive(Debug, Hash, Eq, PartialOrd, Ord)]
pub enum UniformPropertyType {
    Int,
    Float,
    UVec4,
    Vec2,
    Vec3,
    Vec4,
    Mat3,
    Mat4,
    Struct(Vec<UniformProperty>),
    Array(Box<UniformPropertyType>, usize),
}

/// The mathematical values of a sequence of properties, one for one.
pub open spec fn properties_model(properties: Seq<UniformProperty>) -> Seq<UniformPropertyView>
    decreases properties,
{
    Seq::new(
        properties.len(),
        |i: int|
            if 0 <= i < properties.len() {
                properties[i].model()
            } else {
                arbitrary()
            },
    )
}

impl UniformProperty {
    /// The property as a mathematical value.
    pub open spec fn model(self) -> UniformPropertyView
        decreases self,
    {
        UniformPropertyView { name: self.name@, property_type: self.property_type.model() }
    }
}

impl UniformPropertyType {
    /// The type as a mathematical value.
    pub open spec fn model(self) -> UniformTypeView
        decreases self,
    {
        match self {
            UniformPropertyType::Int => UniformTypeView::Int,
            UniformPropertyType::Float => UniformTypeView::Float,
            UniformPropertyType::UVec4 => UniformTypeView::UVec4,
            UniformPropertyType::Vec2 => UniformTypeView::Vec2,
            UniformPropertyType::Vec3 => UniformTypeView::Vec3,
            UniformPropertyType::Vec4 => UniformTypeView::Vec4,
            UniformPropertyType::Mat3 => UniformTypeView::Mat3,
            UniformPropertyType::Mat4 => UniformTypeView::Mat4,
            UniformPropertyType::Struct(properties) => UniformTypeView::Struct(
                properties_model(properties@),
            ),
            UniformPropertyType::Array(element, length) => UniformTypeView::Array(
                Box::new(element.model()),
                length as nat,
            ),
        }
    }
}

impl View for UniformProperty {
    type V = UniformPropertyView;

    open spec fn view(&self) -> UniformPropertyView {
        self.model()
    }
}

impl View for UniformPropertyType {
    type V = UniformTypeView;

    open spec fn view(&self) -> UniformTypeView {
        self.model()
    }
}

/// What the model of a struct type holds: one value per property, in order.
pub proof fn lemma_struct_model(properties: Vec<UniformProperty>)
    ensures
        UniformPropertyType::Struct(properties)@ == UniformTypeView::Struct(
            properties_model(properties@),
        ),
        properties_model(properties@).len() == properties@.len(),
        forall|i: int|
            0 <= i < properties@.len() ==> #[trigger] properties_model(properties@)[i]
                == properties@[i]@,
{
}

impl UniformTypeView {
    /// The unpadded size in bytes: the table for scalars, vectors and
    /// matrices, the sum of the fields for a struct, the element's size times
    /// the length for an array.
    pub open spec fn size(self) -> nat
        decreases self,
    {
        match self {
            UniformTypeView::Int => 4,
            UniformTypeView::Float => 4,
            UniformTypeView::UVec4 => 16,
            UniformTypeView::Vec2 => 8,
            UniformTypeView::Vec3 => 12,
            UniformTypeView::Vec4 => 16,
            UniformTypeView::Mat3 => 48,
            UniformTypeView::Mat4 => 64,
            UniformTypeView::Struct(fields) => fields_size(fields),
            UniformTypeView::Array(element, length) => element.size() * length,
        }
    }
}

/// The sum of the sizes of the fields' types.
pub open spec fn fields_size(fields: Seq<UniformPropertyView>) -> nat
    decreases fields,
{
    if fields.len() == 0 {
        0
    } else {
        fields_size(fields.drop_last()) + fields.last().property_type.size()
    }
}

/// A prefix of the fields is no larger than all of them, and neither is any
/// single field.
pub proof fn lemma_fields_size_monotone(fields: Seq<UniformPropertyView>, i: int)
    requires
        0 <= i <= fields.len(),
    ensures
        fields_size(fields.take(i)) <= fields_size(fields),
        i < fields.len() ==> fields_size(fields.take(i)) + fields[i].property_type.size()
            <= fields_size(fields),
    decreases fields.len(),
{
    if i == fields.len() {
        assert(fields.take(i) =~= fields);
    } else {
        let shorter = fields.drop_last();
        assert(shorter.take(i) =~= fields.take(i));
        lemma_fields_size_monotone(shorter, i);
    }
}

/// Extending a prefix by one field adds that field's size.
pub proof fn lemma_fields_size_step(fields: Seq<UniformPropertyView>, i: int)
    requires
        0 <= i < fields.len(),
    ensures
        fields_size(fields.take(i + 1)) == fields_size(fields.take(i))
            + fields[i].property_type.size(),
{
    assert(fields.take(i + 1).drop_last() =~= fields.take(i));
}

impl UniformPropertyType {
    /// The unpadded size of a value of this type, in bytes.
    ///
    /// The size must fit in 64 bits; [`Self::checked_size`] finds out
    /// whether it does.
    pub fn get_size(&self) -> (size: u64)
        requires
            self@.size() <= u64::MAX,
        ensures
            size == self@.size(),
        decreases self,
    {
        match self {
            UniformPropertyType::Int => 4,
            UniformPropertyType::Float => 4,
            UniformPropertyType::UVec4 => 4 * 4,
            UniformPropertyType::Vec2 => 4 * 2,
            UniformPropertyType::Vec3 => 4 * 3,
            UniformPropertyType::Vec4 => 4 * 4,
            UniformPropertyType::Mat3 => 4 * 4 * 3,
            UniformPropertyType::Mat4 => 4 * 4 * 4,
            UniformPropertyType::Struct(properties) => {
                let ghost fields = properties_model(properties@);
                let mut total: u64 = 0;
                let mut i: usize = 0;
                proof {
                    lemma_struct_model(*properties);
                    assert(fields.take(0) =~= Seq::empty());
                }
                while i < properties.len()
                    invariant
                        i <= properties.len(),
                        self == UniformPropertyType::Struct(*properties),
                        fields == properties_model(properties@),
                        fields_size(fields) <= u64::MAX,
                        total == fields_size(fields.take(i as int)),
                    decreases properties.len() - i,
                {
                    proof {
                        lemma_struct_model(*properties);
                        lemma_fields_size_monotone(fields, i as int);
                        lemma_fields_size_step(fields, i as int);
                        assert(fields[i as int] == properties@[i as int]@);
                    }
                    total = total + properties[i].property_type.get_size();
                    i = i + 1;
                }
                proof {
                    lemma_struct_model(*properties);
                    assert(fields.take(i as int) =~= fields);
                }
                total
            },
            UniformPropertyType::Array(element, length) => {
                if *length == 0 {
                    // An empty array has no size, whatever that of its element.
                    assert(element@.size() * (*length as nat) == 0) by (nonlinear_arith)
                        requires
                            *length == 0,
                    ;
                    0
                } else {
                    assert(element@.size() <= element@.size() * (*length as nat))
                        by (nonlinear_arith)
                        requires
                            *length >= 1,
                    ;
                    element.get_size() * (*length as u64)
                }
            },
        }
    }
}

impl UniformPropertyType {
    /// The unpadded size of a value of this type, in bytes, or `None` where
    /// the size does not fit in 64 bits.
    pub fn checked_size(&self) -> (size: Option<u64>)
        ensures
            match size {
                Some(bytes) => bytes == self@.size(),
                None => self@.size() > u64::MAX,
            },
        decreases self,
    {
        match self {
            UniformPropertyType::Int => Some(4),
            UniformPropertyType::Float => Some(4),
            UniformPropertyType::UVec4 => Some(4 * 4),
            UniformPropertyType::Vec2 => Some(4 * 2),
            UniformPropertyType::Vec3 => Some(4 * 3),
            UniformPropertyType::Vec4 => Some(4 * 4),
            UniformPropertyType::Mat3 => Some(4 * 4 * 3),
            UniformPropertyType::Mat4 => Some(4 * 4 * 4),
            UniformPropertyType::Struct(properties) => {
                let ghost fields = properties_model(properties@);
                let mut total: u64 = 0;
                let mut i: usize = 0;
                proof {
                    lemma_struct_model(*properties);
                    assert(fields.take(0) =~= Seq::empty());
                }
                while i < properties.len()
                    invariant
                        i <= properties.len(),
                        self == UniformPropertyType::Struct(*properties),
                        fields == properties_model(properties@),
                        total == fields_size(fields.take(i as int)),
                    decreases properties.len() - i,
                {
                    proof {
                        lemma_struct_model(*properties);
                        lemma_fields_size_monotone(fields, i as int);
                        lemma_fields_size_step(fields, i as int);
                        assert(fields[i as int] == properties@[i as int]@);
                    }
                    match properties[i].property_type.checked_size() {
                        Some(bytes) => match total.checked_add(bytes) {
                            Some(sum) => {
                                total = sum;
                            },
                            None => {
                                return None;
                            },
                        },
                        None => {
                            return None;
                        },
                    }
                    i = i + 1;
                }
                proof {
                    lemma_struct_model(*properties);
                    assert(fields.take(i as int) =~= fields);
                }
                Some(total)
            },
            UniformPropertyType::Array(element, length) => {
                if *length == 0 {
                    // An empty array has no size, whatever that of its element.
                    assert(element@.size() * (*length as nat) == 0) by (nonlinear_arith)
                        requires
                            *length == 0,
                    ;
                    Some(0)
                } else {
                    assert(element@.size() <= element@.size() * (*length as nat))
                        by (nonlinear_arith)
                        requires
                            *length >= 1,
                    ;
                    match element.checked_size() {
                        Some(bytes) => bytes.checked_mul(*length as u64),
                        None => None,
                    }
                }
            },
        }
    }
}

impl UniformProperty {
    /// Whether two properties have the same name and the same type, all the
    /// way down.
    fn same(&self, other: &UniformProperty) -> (r: bool)
        ensures
            r == (self@ == other@),
        decreases self,
    {
        self.name == other.name && self.property_type.same(&other.property_type)
    }

    /// A deep copy.
    fn duplicate(&self) -> (r: UniformProperty)
        ensures
            r@ == self@,
        decreases self,
    {
        UniformProperty {
            name: self.name.clone(),
            property_type: self.property_type.duplicate(),
        }
    }
}

impl UniformPropertyType {
    /// Whether two types are the same, all the way down.
    fn same(&self, other: &UniformPropertyType) -> (r: bool)
        ensures
            r == (self@ == other@),
        decreases self,
    {
        match (self, other) {
            (UniformPropertyType::Int, UniformPropertyType::Int) => true,
            (UniformPropertyType::Float, UniformPropertyType::Float) => true,
            (UniformPropertyType::UVec4, UniformPropertyType::UVec4) => true,
            (UniformPropertyType::Vec2, UniformPropertyType::Vec2) => true,
            (UniformPropertyType::Vec3, UniformPropertyType::Vec3) => true,
            (UniformPropertyType::Vec4, UniformPropertyType::Vec4) => true,
            (UniformPropertyType::Mat3, UniformPropertyType::Mat3) => true,
            (UniformPropertyType::Mat4, UniformPropertyType::Mat4) => true,
            (UniformPropertyType::Struct(mine), UniformPropertyType::Struct(theirs)) => {
                let ghost left = properties_model(mine@);
                let ghost right = properties_model(theirs@);
                proof {
                    lemma_struct_model(*mine);
                    lemma_struct_model(*theirs);
                }
                if mine.len() != theirs.len() {
                    return false;
                }
                let mut i: usize = 0;
                while i < mine.len()
                    invariant
                        i <= mine.len(),
                        mine.len() == theirs.len(),
                        self == UniformPropertyType::Struct(*mine),
                        left == properties_model(mine@),
                        right == properties_model(theirs@),
                        left.len() == mine.len(),
                        right.len() == theirs.len(),
                        self@ == UniformTypeView::Struct(left),
                        other@ == UniformTypeView::Struct(right),
                        forall|j: int| 0 <= j < i ==> left[j] == right[j],
                    decreases mine.len() - i,
                {
                    proof {
                        lemma_struct_model(*mine);
                        lemma_struct_model(*theirs);
                    }
                    if !mine[i].same(&theirs[i]) {
                        assert(left[i as int] != right[i as int]);
                        return false;
                    }
                    i = i + 1;
                }
                assert(left =~= right);
                true
            },
            (
                UniformPropertyType::Array(element, length),
                UniformPropertyType::Array(other_element, other_length),
            ) => *length == *other_length && element.same(other_element),
            _ => false,
        }
    }

    /// A deep copy.
    fn duplicate(&self) -> (r: UniformPropertyType)
        ensures
            r@ == self@,
        decreases self,
    {
        match self {
            UniformPropertyType::Int => UniformPropertyType::Int,
            UniformPropertyType::Float => UniformPropertyType::Float,
            UniformPropertyType::UVec4 => UniformPropertyType::UVec4,
            UniformPropertyType::Vec2 => UniformPropertyType::Vec2,
            UniformPropertyType::Vec3 => UniformPropertyType::Vec3,
            UniformPropertyType::Vec4 => UniformPropertyType::Vec4,
            UniformPropertyType::Mat3 => UniformPropertyType::Mat3,
            UniformPropertyType::Mat4 => UniformPropertyType::Mat4,
            UniformPropertyType::Struct(properties) => {
                let mut copies: Vec<UniformProperty> = Vec::new();
                let mut i: usize = 0;
                while i < properties.len()
                    invariant
                        i <= properties.len(),
                        self == UniformPropertyType::Struct(*properties),
                        copies.len() == i,
                        forall|j: int| 0 <= j < i ==> copies@[j]@ == properties@[j]@,
                    decreases properties.len() - i,
                {
                    assert(decreases_to!(self => self->Struct_0));
                    copies.push(properties[i].duplicate());
                    i = i + 1;
                }
                proof {
                    lemma_struct_model(*properties);
                    lemma_struct_model(copies);
                    assert(properties_model(copies@) =~= properties_model(properties@));
                }
                UniformPropertyType::Struct(copies)
            },
            UniformPropertyType::Array(element, length) => UniformPropertyType::Array(
                Box::new(element.duplicate()),
                *length,
            ),
        }
    }
}

impl Clone for UniformProperty {
    fn clone(&self) -> (r: Self)
        ensures
            r@ == self@,
    {
        self.duplicate()
    }
}

impl Clone for UniformPropertyType {
    fn clone(&self) -> (r: Self)
        ensures
            r@ == self@,
    {
        self.duplicate()
    }
}

impl PartialEq for UniformProperty {
    fn eq(&self, other: &Self) -> (r: bool) {
        self.same(other)
    }
}

impl vstd::std_specs::cmp::PartialEqSpecImpl for UniformProperty {
    open spec fn obeys_eq_spec() -> bool {
        true
    }

    open spec fn eq_spec(&self, other: &Self) -> bool {
        self@ == other@
    }
}

impl PartialEq for UniformPropertyType {
    fn eq(&self, other: &Self) -> (r: bool) {
        self.same(other)
    }
}

impl vstd::std_specs::cmp::PartialEqSpecImpl for UniformPropertyType {
    open spec fn obeys_eq_spec() -> bool {
        true
    }

    open spec fn eq_spec(&self, other: &Self) -> bool {
        self@ == other@
    }
}

} // verus!
