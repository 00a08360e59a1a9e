use pipeline_layout::{
    BindGroupDescriptor, BindType, Binding, PipelineLayout, PipelineLayoutError, ShaderLayout,
    TextureDimension, UniformProperty, UniformPropertyType, VertexAttributeDescriptor,
    VertexBufferDescriptor, VertexFormat,
};

fn uniform(name: &str, index: u32, property_type: UniformPropertyType) -> Binding {
    Binding {
        name: name.to_string(),
        index,
        bind_type: BindType::Uniform {
            dynamic: false,
            properties: vec![UniformProperty { name: name.to_string(), property_type }],
        },
    }
}

fn sampler(name: &str, index: u32) -> Binding {
    Binding { name: name.to_string(), index, bind_type: BindType::Sampler }
}

fn texture(name: &str, index: u32) -> Binding {
    Binding {
        name: name.to_string(),
        index,
        bind_type: BindType::SampledTexture {
            multisampled: false,
            dimension: TextureDimension::D2,
        },
    }
}

fn group(index: u32, bindings: Vec<Binding>) -> BindGroupDescriptor {
    BindGroupDescriptor::new(index, bindings)
}

fn stage(bind_groups: Vec<BindGroupDescriptor>) -> ShaderLayout {
    ShaderLayout { bind_groups, vertex_buffer_descriptors: vec![] }
}

fn camera() -> Binding {
    uniform("Camera", 1, UniformPropertyType::Mat4)
}

fn tint(property_type: UniformPropertyType) -> Binding {
    uniform("Tint", 1, property_type)
}

fn vertex_buffer(name: &str, stride: u64) -> VertexBufferDescriptor {
    VertexBufferDescriptor {
        name: name.to_string(),
        stride,
        attributes: vec![VertexAttributeDescriptor {
            name: format!("{}_Position", name),
            offset: 0,
            format: VertexFormat::Float3,
            shader_location: 0,
        }],
    }
}

#[test]
fn identical_binding_in_two_stages_is_merged_into_one() {
    let mut stages =
        vec![stage(vec![group(0, vec![camera()])]), stage(vec![group(0, vec![camera()])])];
    let layout = PipelineLayout::from_shader_layouts(&mut stages).unwrap();
    assert_eq!(layout.bind_groups.len(), 1);
    assert_eq!(layout.bind_groups[0].index, 0);
    assert_eq!(layout.bind_groups[0].bindings, vec![camera()]);
}

#[test]
fn scalar_against_vector_in_one_slot_is_a_binding_mismatch() {
    let mut stages = vec![
        stage(vec![group(0, vec![tint(UniformPropertyType::Float)])]),
        stage(vec![group(0, vec![tint(UniformPropertyType::Vec4)])]),
    ];
    let result = PipelineLayout::from_shader_layouts(&mut stages);
    match result {
        Err(PipelineLayoutError::BindingMismatch { bind_group, existing, offending }) => {
            assert_eq!(bind_group, 0);
            assert_eq!(existing, tint(UniformPropertyType::Float));
            assert_eq!(offending, tint(UniformPropertyType::Vec4));
        }
        other => panic!("expected a binding mismatch, got {:?}", other),
    }
}

#[test]
fn mismatch_is_found_whichever_stage_comes_first() {
    let mut stages = vec![
        stage(vec![group(0, vec![tint(UniformPropertyType::Vec4)])]),
        stage(vec![group(0, vec![tint(UniformPropertyType::Float)])]),
    ];
    let result = PipelineLayout::from_shader_layouts(&mut stages);
    assert_eq!(
        result.err(),
        Some(PipelineLayoutError::BindingMismatch {
            bind_group: 0,
            existing: tint(UniformPropertyType::Vec4),
            offending: tint(UniformPropertyType::Float),
        })
    );
}

#[test]
fn mismatch_in_name_alone_is_a_binding_mismatch() {
    let mut stages = vec![
        stage(vec![group(3, vec![sampler("a", 0)])]),
        stage(vec![group(3, vec![sampler("b", 0)])]),
    ];
    let result = PipelineLayout::from_shader_layouts(&mut stages);
    assert_eq!(
        result.err(),
        Some(PipelineLayoutError::BindingMismatch {
            bind_group: 3,
            existing: sampler("a", 0),
            offending: sampler("b", 0),
        })
    );
}

#[test]
fn mismatch_deep_inside_a_uniform_is_a_binding_mismatch() {
    let nested = |length: usize| {
        uniform(
            "Lights",
            0,
            UniformPropertyType::Struct(vec![UniformProperty {
                name: "lights".to_string(),
                property_type: UniformPropertyType::Array(
                    Box::new(UniformPropertyType::Vec4),
                    length,
                ),
            }]),
        )
    };
    let mut agreeing = vec![
        stage(vec![group(1, vec![nested(8)])]),
        stage(vec![group(1, vec![nested(8)])]),
    ];
    assert!(PipelineLayout::from_shader_layouts(&mut agreeing).is_ok());
    let mut disagreeing = vec![
        stage(vec![group(1, vec![nested(8)])]),
        stage(vec![group(1, vec![nested(9)])]),
    ];
    assert_eq!(
        PipelineLayout::from_shader_layouts(&mut disagreeing).err(),
        Some(PipelineLayoutError::BindingMismatch {
            bind_group: 1,
            existing: nested(8),
            offending: nested(9),
        })
    );
}

#[test]
fn binding_of_one_stage_only_appears_once_in_the_merged_group() {
    let mut stages = vec![
        stage(vec![group(
            2,
            vec![uniform("Transform", 1, UniformPropertyType::Mat4)],
        )]),
        stage(vec![group(
            2,
            vec![texture("Albedo", 0), uniform("Transform", 1, UniformPropertyType::Mat4)],
        )]),
    ];
    let layout = PipelineLayout::from_shader_layouts(&mut stages).unwrap();
    assert_eq!(layout.bind_groups.len(), 1);
    assert_eq!(layout.bind_groups[0].index, 2);
    assert_eq!(
        layout.bind_groups[0].bindings,
        vec![uniform("Transform", 1, UniformPropertyType::Mat4), texture("Albedo", 0)]
    );
}

#[test]
fn group_of_one_stage_only_is_carried_over_as_it_is() {
    let mut stages = vec![
        stage(vec![group(0, vec![camera()])]),
        stage(vec![group(2, vec![texture("Albedo", 0), sampler("AlbedoSampler", 1)])]),
    ];
    let layout = PipelineLayout::from_shader_layouts(&mut stages).unwrap();
    assert_eq!(
        layout.bind_groups,
        vec![
            group(0, vec![camera()]),
            group(2, vec![texture("Albedo", 0), sampler("AlbedoSampler", 1)]),
        ]
    );
}

#[test]
fn bind_groups_come_out_in_ascending_order_of_index() {
    let mut stages = vec![
        stage(vec![
            group(7, vec![sampler("g", 0)]),
            group(1, vec![sampler("b", 0)]),
        ]),
        stage(vec![
            group(4, vec![sampler("e", 0)]),
            group(0, vec![sampler("a", 0)]),
            group(7, vec![sampler("g", 0), sampler("h", 1)]),
        ]),
        stage(vec![group(4_000_000_000, vec![sampler("z", 0)])]),
    ];
    let layout = PipelineLayout::from_shader_layouts(&mut stages).unwrap();
    let indices: Vec<u32> = layout.bind_groups.iter().map(|g| g.index).collect();
    assert_eq!(indices, vec![0, 1, 4, 7, 4_000_000_000]);
    assert_eq!(layout.bind_groups[3].bindings, vec![sampler("g", 0), sampler("h", 1)]);
}

#[test]
fn many_groups_are_sorted_and_unique() {
    let mut groups = Vec::new();
    let mut index: u32 = 17;
    for _ in 0..200 {
        index = index.wrapping_mul(1_103_515_245).wrapping_add(12_345) % 64;
        groups.push(group(index, vec![sampler("s", 0)]));
    }
    let mut stages = vec![stage(groups.clone()), stage(groups)];
    let layout = PipelineLayout::from_shader_layouts(&mut stages).unwrap();
    for pair in layout.bind_groups.windows(2) {
        assert!(pair[0].index < pair[1].index);
    }
    for group in layout.bind_groups.iter() {
        assert_eq!(group.bindings, vec![sampler("s", 0)]);
    }
    assert!(!layout.bind_groups.is_empty());
}

#[test]
fn two_groups_of_one_stage_with_the_same_index_are_merged() {
    let mut stages = vec![stage(vec![
        group(1, vec![sampler("a", 0)]),
        group(1, vec![sampler("b", 1), sampler("a", 0)]),
    ])];
    let layout = PipelineLayout::from_shader_layouts(&mut stages).unwrap();
    assert_eq!(
        layout.bind_groups,
        vec![group(1, vec![sampler("a", 0), sampler("b", 1)])]
    );
}

#[test]
fn first_group_of_an_index_is_taken_as_it_is() {
    let mut stages = vec![stage(vec![group(
        5,
        vec![sampler("a", 0), sampler("other", 0)],
    )])];
    let layout = PipelineLayout::from_shader_layouts(&mut stages).unwrap();
    assert_eq!(
        layout.bind_groups,
        vec![group(5, vec![sampler("a", 0), sampler("other", 0)])]
    );
}

#[test]
fn later_binding_is_held_against_the_first_in_its_slot() {
    let mut stages = vec![
        stage(vec![group(5, vec![sampler("a", 0), sampler("other", 0)])]),
        stage(vec![group(5, vec![sampler("other", 0)])]),
    ];
    assert_eq!(
        PipelineLayout::from_shader_layouts(&mut stages).err(),
        Some(PipelineLayoutError::BindingMismatch {
            bind_group: 5,
            existing: sampler("a", 0),
            offending: sampler("other", 0),
        })
    );
}

#[test]
fn first_conflict_in_stage_order_is_the_one_reported() {
    let mut stages = vec![
        stage(vec![
            group(0, vec![sampler("a", 0)]),
            group(1, vec![sampler("x", 0)]),
        ]),
        stage(vec![
            group(1, vec![sampler("x", 0), sampler("y", 1)]),
            group(1, vec![sampler("not_y", 1)]),
            group(0, vec![sampler("not_a", 0)]),
        ]),
    ];
    assert_eq!(
        PipelineLayout::from_shader_layouts(&mut stages).err(),
        Some(PipelineLayoutError::BindingMismatch {
            bind_group: 1,
            existing: sampler("y", 1),
            offending: sampler("not_y", 1),
        })
    );
}

#[test]
fn same_slot_in_different_groups_does_not_conflict() {
    let mut stages = vec![
        stage(vec![group(0, vec![sampler("a", 0)])]),
        stage(vec![group(1, vec![texture("b", 0)])]),
    ];
    let layout = PipelineLayout::from_shader_layouts(&mut stages).unwrap();
    assert_eq!(
        layout.bind_groups,
        vec![
            group(0, vec![sampler("a", 0)]),
            group(1, vec![texture("b", 0)]),
        ]
    );
}

#[test]
fn vertex_buffers_are_those_of_the_first_stage() {
    let mut stages = vec![
        ShaderLayout {
            bind_groups: vec![],
            vertex_buffer_descriptors: vec![
                vertex_buffer("Vertex", 32),
                vertex_buffer("Instance", 64),
            ],
        },
        ShaderLayout {
            bind_groups: vec![],
            vertex_buffer_descriptors: vec![vertex_buffer("Other", 12)],
        },
    ];
    let layout = PipelineLayout::from_shader_layouts(&mut stages).unwrap();
    assert_eq!(
        layout.vertex_buffer_descriptors,
        vec![vertex_buffer("Vertex", 32), vertex_buffer("Instance", 64)]
    );
    assert!(layout.bind_groups.is_empty());
}

#[test]
fn vertex_buffers_of_later_stages_are_ignored_even_if_the_first_has_none() {
    let mut stages = vec![
        ShaderLayout { bind_groups: vec![], vertex_buffer_descriptors: vec![] },
        ShaderLayout {
            bind_groups: vec![],
            vertex_buffer_descriptors: vec![vertex_buffer("Other", 12)],
        },
    ];
    let layout = PipelineLayout::from_shader_layouts(&mut stages).unwrap();
    assert!(layout.vertex_buffer_descriptors.is_empty());
}

#[test]
fn stages_are_left_as_they_were() {
    let build = || {
        vec![
            ShaderLayout {
                bind_groups: vec![group(1, vec![sampler("a", 0)])],
                vertex_buffer_descriptors: vec![vertex_buffer("Vertex", 32)],
            },
            ShaderLayout {
                bind_groups: vec![group(1, vec![sampler("b", 1)])],
                vertex_buffer_descriptors: vec![],
            },
        ]
    };
    let mut stages = build();
    let _ = PipelineLayout::from_shader_layouts(&mut stages).unwrap();
    let untouched = build();
    assert_eq!(stages.len(), untouched.len());
    for (after, before) in stages.iter().zip(untouched.iter()) {
        assert_eq!(after.bind_groups, before.bind_groups);
        assert_eq!(after.vertex_buffer_descriptors, before.vertex_buffer_descriptors);
    }
}

#[test]
fn single_stage_without_groups_gives_an_empty_layout() {
    let mut stages = vec![stage(vec![])];
    let layout = PipelineLayout::from_shader_layouts(&mut stages).unwrap();
    assert!(layout.bind_groups.is_empty());
    assert!(layout.vertex_buffer_descriptors.is_empty());
}

#[test]
fn default_layout_is_empty() {
    let layout = PipelineLayout::default();
    assert!(layout.bind_groups.is_empty());
    assert!(layout.vertex_buffer_descriptors.is_empty());
}

#[test]
fn bind_types_compare_by_kind_and_payload() {
    assert_eq!(texture("t", 0), texture("t", 0));
    assert_ne!(texture("t", 0), sampler("t", 0));
    assert_ne!(texture("t", 0), texture("t", 1));
    let storage = |dimension| Binding {
        name: "s".to_string(),
        index: 0,
        bind_type: BindType::StorageTexture { dimension },
    };
    assert_eq!(storage(TextureDimension::Cube), storage(TextureDimension::Cube));
    assert_ne!(storage(TextureDimension::Cube), storage(TextureDimension::D3));
    let buffer = |dynamic, readonly| Binding {
        name: "b".to_string(),
        index: 0,
        bind_type: BindType::Buffer { dynamic, readonly },
    };
    assert_eq!(buffer(true, false), buffer(true, false));
    assert_ne!(buffer(true, false), buffer(true, true));
    assert_ne!(buffer(true, false), buffer(false, false));
    assert_eq!(buffer(true, false).clone(), buffer(true, false));
}

fn three_stages() -> Vec<ShaderLayout> {
    vec![
        stage(vec![
            group(1, vec![sampler("a", 0), texture("b", 1)]),
            group(0, vec![camera()]),
        ]),
        stage(vec![
            group(0, vec![sampler("shadow", 4), camera()]),
            group(3, vec![]),
            group(1, vec![texture("b", 1), sampler("c", 2)]),
        ]),
        stage(vec![group(1, vec![sampler("c", 2), sampler("d", 7), sampler("a", 0)])]),
    ]
}

#[test]
fn every_declared_binding_is_in_the_merged_group_of_its_index() {
    let mut stages = three_stages();
    let layout = PipelineLayout::from_shader_layouts(&mut stages).unwrap();
    for declared in stages.iter().flat_map(|s| s.bind_groups.iter()) {
        let merged = layout.bind_groups.iter().find(|g| g.index == declared.index).unwrap();
        for binding in declared.bindings.iter() {
            assert!(merged.bindings.contains(binding));
            let in_slot = merged.bindings.iter().find(|b| b.index == binding.index);
            assert_eq!(in_slot, Some(binding));
        }
    }
    let indices: Vec<u32> = layout.bind_groups.iter().map(|g| g.index).collect();
    assert_eq!(indices, vec![0, 1, 3]);
}

#[test]
fn every_merged_binding_is_declared_by_a_stage() {
    let mut stages = three_stages();
    let layout = PipelineLayout::from_shader_layouts(&mut stages).unwrap();
    for merged in layout.bind_groups.iter() {
        for binding in merged.bindings.iter() {
            let declared = stages
                .iter()
                .flat_map(|s| s.bind_groups.iter())
                .any(|g| g.index == merged.index && g.bindings.contains(binding));
            assert!(declared);
        }
    }
}

#[test]
fn merged_groups_hold_each_slot_once() {
    let mut stages = three_stages();
    let layout = PipelineLayout::from_shader_layouts(&mut stages).unwrap();
    assert_eq!(
        layout.bind_groups,
        vec![
            group(0, vec![camera(), sampler("shadow", 4)]),
            group(1, vec![sampler("a", 0), texture("b", 1), sampler("c", 2), sampler("d", 7)]),
            group(3, vec![]),
        ]
    );
    for merged in layout.bind_groups.iter() {
        for (i, binding) in merged.bindings.iter().enumerate() {
            assert!(merged.bindings[..i].iter().all(|b| b.index != binding.index));
        }
    }
}

#[test]
fn repeating_a_stage_changes_nothing() {
    let mut stages = three_stages();
    let layout = PipelineLayout::from_shader_layouts(&mut stages).unwrap();
    for repeated in 0..3 {
        let mut longer = three_stages();
        longer.push(three_stages().swap_remove(repeated));
        let again = PipelineLayout::from_shader_layouts(&mut longer).unwrap();
        assert_eq!(again.bind_groups, layout.bind_groups);
    }
}

#[test]
fn differing_declarations_of_one_slot_always_conflict() {
    for position in 0..4 {
        let mut stages = three_stages();
        let odd = stage(vec![group(1, vec![sampler("not_a", 0)])]);
        stages.insert(position, odd);
        let result = PipelineLayout::from_shader_layouts(&mut stages);
        match result {
            Err(PipelineLayoutError::BindingMismatch { bind_group, existing, offending }) => {
                assert_eq!(bind_group, 1);
                assert_eq!(existing.index, 0);
                assert_eq!(offending.index, 0);
                assert_ne!(existing, offending);
                let pair = [existing, offending];
                assert!(pair.contains(&sampler("a", 0)));
                assert!(pair.contains(&sampler("not_a", 0)));
            }
            other => panic!("expected a binding mismatch, got {:?}", other),
        }
    }
}
