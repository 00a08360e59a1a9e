use pipeline_layout::{UniformProperty, UniformPropertyType};

fn property(name: &str, property_type: UniformPropertyType) -> UniformProperty {
    UniformProperty { name: name.to_string(), property_type }
}

#[test]
fn scalar_vector_and_matrix_sizes() {
    assert_eq!(UniformPropertyType::Int.get_size(), 4);
    assert_eq!(UniformPropertyType::Float.get_size(), 4);
    assert_eq!(UniformPropertyType::UVec4.get_size(), 16);
    assert_eq!(UniformPropertyType::Vec2.get_size(), 8);
    assert_eq!(UniformPropertyType::Vec3.get_size(), 12);
    assert_eq!(UniformPropertyType::Vec4.get_size(), 16);
    assert_eq!(UniformPropertyType::Mat3.get_size(), 48);
    assert_eq!(UniformPropertyType::Mat4.get_size(), 64);
}

#[test]
fn struct_of_float_and_vec3_is_16_bytes() {
    let t = UniformPropertyType::Struct(vec![
        property("a", UniformPropertyType::Float),
        property("b", UniformPropertyType::Vec3),
    ]);
    assert_eq!(t.get_size(), 16);
}

#[test]
fn array_of_three_mat4_is_192_bytes() {
    let t = UniformPropertyType::Array(Box::new(UniformPropertyType::Mat4), 3);
    assert_eq!(t.get_size(), 192);
}

#[test]
fn struct_with_nested_array_is_20_bytes() {
    let t = UniformPropertyType::Struct(vec![
        property("m", UniformPropertyType::Array(Box::new(UniformPropertyType::Vec2), 2)),
        property("f", UniformPropertyType::Int),
    ]);
    assert_eq!(t.get_size(), 20);
}

#[test]
fn struct_size_adds_no_padding() {
    let t = UniformPropertyType::Struct(vec![
        property("a", UniformPropertyType::Float),
        property("b", UniformPropertyType::Mat4),
        property("c", UniformPropertyType::Vec3),
    ]);
    assert_eq!(t.get_size(), 4 + 64 + 12);
}

#[test]
fn empty_struct_and_empty_array_are_zero_bytes() {
    assert_eq!(UniformPropertyType::Struct(vec![]).get_size(), 0);
    let t = UniformPropertyType::Array(Box::new(UniformPropertyType::Mat4), 0);
    assert_eq!(t.get_size(), 0);
}

#[test]
fn array_of_structs_multiplies_the_struct_size() {
    let element = UniformPropertyType::Struct(vec![
        property("position", UniformPropertyType::Vec3),
        property("color", UniformPropertyType::Vec4),
    ]);
    let t = UniformPropertyType::Array(Box::new(element), 10);
    assert_eq!(t.get_size(), (12 + 16) * 10);
}

#[test]
fn deeply_nested_arrays_multiply_through() {
    let inner = UniformPropertyType::Array(Box::new(UniformPropertyType::Mat3), 2);
    let outer = UniformPropertyType::Array(Box::new(inner), 5);
    assert_eq!(outer.get_size(), 48 * 2 * 5);
}

#[test]
fn checked_size_agrees_with_get_size() {
    let t = UniformPropertyType::Struct(vec![
        property("m", UniformPropertyType::Array(Box::new(UniformPropertyType::Vec2), 2)),
        property("f", UniformPropertyType::Int),
    ]);
    assert_eq!(t.checked_size(), Some(20));
    assert_eq!(t.checked_size(), Some(t.get_size()));
    assert_eq!(UniformPropertyType::Mat3.checked_size(), Some(48));
}

#[test]
fn checked_size_is_none_when_the_size_overflows() {
    let huge = UniformPropertyType::Array(Box::new(UniformPropertyType::Mat4), usize::MAX);
    if usize::BITS == 64 {
        assert_eq!(huge.checked_size(), None);
    }
    let nested = UniformPropertyType::Array(Box::new(huge), usize::MAX);
    assert_eq!(nested.checked_size(), None);
    let summed = UniformPropertyType::Struct(vec![
        property("a", UniformPropertyType::Float),
        property("b", nested),
    ]);
    assert_eq!(summed.checked_size(), None);
}

#[test]
fn checked_size_of_zero_length_array_ignores_the_element() {
    let huge = UniformPropertyType::Array(
        Box::new(UniformPropertyType::Array(Box::new(UniformPropertyType::Mat4), usize::MAX)),
        usize::MAX,
    );
    let t = UniformPropertyType::Array(Box::new(huge), 0);
    assert_eq!(t.checked_size(), Some(0));
    assert_eq!(t.get_size(), 0);
}

#[test]
fn uniform_types_compare_structurally() {
    let a = UniformPropertyType::Struct(vec![
        property("m", UniformPropertyType::Array(Box::new(UniformPropertyType::Vec2), 2)),
        property("f", UniformPropertyType::Int),
    ]);
    let same = UniformPropertyType::Struct(vec![
        property("m", UniformPropertyType::Array(Box::new(UniformPropertyType::Vec2), 2)),
        property("f", UniformPropertyType::Int),
    ]);
    let other_length = UniformPropertyType::Struct(vec![
        property("m", UniformPropertyType::Array(Box::new(UniformPropertyType::Vec2), 3)),
        property("f", UniformPropertyType::Int),
    ]);
    let other_name = UniformPropertyType::Struct(vec![
        property("m", UniformPropertyType::Array(Box::new(UniformPropertyType::Vec2), 2)),
        property("g", UniformPropertyType::Int),
    ]);
    let shorter = UniformPropertyType::Struct(vec![property(
        "m",
        UniformPropertyType::Array(Box::new(UniformPropertyType::Vec2), 2),
    )]);
    assert_eq!(a, same);
    assert_ne!(a, other_length);
    assert_ne!(a, other_name);
    assert_ne!(a, shorter);
    assert_ne!(UniformPropertyType::Vec4, UniformPropertyType::UVec4);
    assert_eq!(a.clone(), a);
}
