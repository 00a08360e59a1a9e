use pipeline_layout::{
    BindGroupDescriptor, BindType, Binding, PipelineLayout, PipelineLayoutError, ShaderLayout,
    VertexAttributeDescriptor, VertexBufferDescriptor, VertexBufferDescriptors, VertexFormat,
};

fn attribute(
    name: &str,
    offset: u64,
    format: VertexFormat,
    shader_location: u32,
) -> VertexAttributeDescriptor {
    VertexAttributeDescriptor { name: name.to_string(), offset, format, shader_location }
}

fn reflected(name: &str) -> VertexBufferDescriptor {
    VertexBufferDescriptor {
        name: name.to_string(),
        stride: 0,
        attributes: vec![
            attribute("Normal", 0, VertexFormat::Float3, 1),
            attribute("Position", 0, VertexFormat::Float3, 0),
        ],
    }
}

fn canonical(name: &str) -> VertexBufferDescriptor {
    VertexBufferDescriptor {
        name: name.to_string(),
        stride: 32,
        attributes: vec![
            attribute("Position", 0, VertexFormat::Float4, 7),
            attribute("Normal", 12, VertexFormat::Float4, 7),
            attribute("Uv", 24, VertexFormat::Float2, 7),
        ],
    }
}

fn layout_with(descriptors: Vec<VertexBufferDescriptor>) -> PipelineLayout {
    PipelineLayout { bind_groups: vec![], vertex_buffer_descriptors: descriptors }
}

#[test]
fn sync_takes_stride_and_offsets_from_the_canonical_descriptor() {
    let mut registry = VertexBufferDescriptors::new();
    registry.set(canonical("Vertex"));
    let mut layout = layout_with(vec![reflected("Vertex")]);
    assert_eq!(layout.sync_vertex_buffer_descriptors(&registry), Ok(()));
    assert_eq!(
        layout.vertex_buffer_descriptors,
        vec![VertexBufferDescriptor {
            name: "Vertex".to_string(),
            stride: 32,
            attributes: vec![
                attribute("Normal", 12, VertexFormat::Float3, 1),
                attribute("Position", 0, VertexFormat::Float3, 0),
            ],
        }]
    );
}

#[test]
fn sync_with_descriptor_keeps_the_offset_of_an_unknown_attribute() {
    let mut descriptor = VertexBufferDescriptor {
        name: "Vertex".to_string(),
        stride: 4,
        attributes: vec![
            attribute("Tangent", 99, VertexFormat::Float4, 3),
            attribute("Uv", 5, VertexFormat::Float2, 2),
        ],
    };
    descriptor.sync_with_descriptor(&canonical("Vertex"));
    assert_eq!(
        descriptor,
        VertexBufferDescriptor {
            name: "Vertex".to_string(),
            stride: 32,
            attributes: vec![
                attribute("Tangent", 99, VertexFormat::Float4, 3),
                attribute("Uv", 24, VertexFormat::Float2, 2),
            ],
        }
    );
}

#[test]
fn sync_with_descriptor_takes_the_first_attribute_of_a_name() {
    let twice = VertexBufferDescriptor {
        name: "Vertex".to_string(),
        stride: 8,
        attributes: vec![
            attribute("Position", 4, VertexFormat::Float3, 0),
            attribute("Position", 16, VertexFormat::Float3, 0),
        ],
    };
    let mut descriptor = reflected("Vertex");
    descriptor.sync_with_descriptor(&twice);
    assert_eq!(descriptor.stride, 8);
    assert_eq!(descriptor.attributes[0], attribute("Normal", 0, VertexFormat::Float3, 1));
    assert_eq!(descriptor.attributes[1], attribute("Position", 4, VertexFormat::Float3, 0));
}

#[test]
fn unknown_vertex_buffer_is_unsupported_and_named() {
    let mut registry = VertexBufferDescriptors::new();
    registry.set(canonical("Vertex"));
    let mut layout = layout_with(vec![reflected("Missing")]);
    assert_eq!(
        layout.sync_vertex_buffer_descriptors(&registry),
        Err(PipelineLayoutError::UnsupportedVertexBuffer { name: "Missing".to_string() })
    );
    assert_eq!(layout.vertex_buffer_descriptors, vec![reflected("Missing")]);
}

#[test]
fn empty_registry_supports_no_vertex_buffer() {
    let registry = VertexBufferDescriptors::new();
    let mut layout = layout_with(vec![reflected("Vertex")]);
    assert_eq!(
        layout.sync_vertex_buffer_descriptors(&registry),
        Err(PipelineLayoutError::UnsupportedVertexBuffer { name: "Vertex".to_string() })
    );
    assert_eq!(layout.vertex_buffer_descriptors, vec![reflected("Vertex")]);
}

#[test]
fn layout_without_vertex_buffers_synchronizes_with_any_registry() {
    let registry = VertexBufferDescriptors::new();
    let mut layout = layout_with(vec![]);
    assert_eq!(layout.sync_vertex_buffer_descriptors(&registry), Ok(()));
    assert!(layout.vertex_buffer_descriptors.is_empty());
}

#[test]
fn first_failure_aborts_and_earlier_descriptors_stay_synchronized() {
    let mut registry = VertexBufferDescriptors::new();
    registry.set(canonical("Vertex"));
    registry.set(canonical("Instance"));
    let mut layout = layout_with(vec![
        reflected("Vertex"),
        reflected("Missing"),
        reflected("Instance"),
        reflected("AlsoMissing"),
    ]);
    assert_eq!(
        layout.sync_vertex_buffer_descriptors(&registry),
        Err(PipelineLayoutError::UnsupportedVertexBuffer { name: "Missing".to_string() })
    );
    let mut synced = reflected("Vertex");
    synced.sync_with_descriptor(&canonical("Vertex"));
    assert_eq!(synced.stride, 32);
    assert_eq!(
        layout.vertex_buffer_descriptors,
        vec![synced, reflected("Missing"), reflected("Instance"), reflected("AlsoMissing")]
    );
}

#[test]
fn sync_does_not_touch_the_bind_groups() {
    let groups = vec![BindGroupDescriptor::new(
        3,
        vec![Binding { name: "s".to_string(), index: 0, bind_type: BindType::Sampler }],
    )];
    let mut registry = VertexBufferDescriptors::new();
    registry.set(canonical("Vertex"));
    let mut layout = PipelineLayout {
        bind_groups: groups.clone(),
        vertex_buffer_descriptors: vec![reflected("Vertex"), reflected("Missing")],
    };
    assert!(layout.sync_vertex_buffer_descriptors(&registry).is_err());
    assert_eq!(layout.bind_groups, groups);
    let mut layout = PipelineLayout {
        bind_groups: groups.clone(),
        vertex_buffer_descriptors: vec![reflected("Vertex")],
    };
    assert!(layout.sync_vertex_buffer_descriptors(&registry).is_ok());
    assert_eq!(layout.bind_groups, groups);
}

#[test]
fn registry_holds_one_descriptor_for_each_name() {
    let mut registry = VertexBufferDescriptors::new();
    assert_eq!(registry.get(&"Vertex".to_string()), None);
    registry.set(canonical("Vertex"));
    registry.set(canonical("Instance"));
    assert_eq!(registry.get(&"Vertex".to_string()), Some(&canonical("Vertex")));
    assert_eq!(registry.get(&"Instance".to_string()), Some(&canonical("Instance")));
    assert_eq!(registry.get(&"vertex".to_string()), None);
    let mut replacement = canonical("Vertex");
    replacement.stride = 48;
    registry.set(replacement.clone());
    assert_eq!(registry.get(&"Vertex".to_string()), Some(&replacement));
    assert_eq!(registry.get(&"Instance".to_string()), Some(&canonical("Instance")));
}

#[test]
fn merged_layout_can_be_synchronized() {
    let mut stages = vec![
        ShaderLayout { bind_groups: vec![], vertex_buffer_descriptors: vec![reflected("Vertex")] },
        ShaderLayout { bind_groups: vec![], vertex_buffer_descriptors: vec![reflected("Missing")] },
    ];
    let mut layout = PipelineLayout::from_shader_layouts(&mut stages).unwrap();
    assert_eq!(layout.vertex_buffer_descriptors, vec![reflected("Vertex")]);
    let mut registry = VertexBufferDescriptors::new();
    registry.set(canonical("Vertex"));
    assert_eq!(layout.sync_vertex_buffer_descriptors(&registry), Ok(()));
    assert_eq!(layout.vertex_buffer_descriptors[0].stride, 32);
    assert_eq!(layout.vertex_buffer_descriptors[0].attributes[0].offset, 12);
    assert_eq!(layout.vertex_buffer_descriptors[0].attributes[1].offset, 0);
}
