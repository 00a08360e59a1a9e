use pipeline_layout::{
    BindGroupDescriptor, BindType, Binding, PipelineLayout, PipelineLayoutError, ShaderLayout,
    UniformProperty, UniformPropertyType,
};
use std::collections::HashMap;

/// A small generator of numbers that look random and are the same on every
/// run.
struct Numbers(u64);

impl Numbers {
    fn next(&mut self, bound: u64) -> u64 {
        self.0 = self
            .0
            .wrapping_mul(6_364_136_223_846_793_005)
            .wrapping_add(1_442_695_040_888_963_407);
        (self.0 >> 33) % bound
    }
}

fn payload(kind: u64) -> BindType {
    match kind {
        0 => BindType::Sampler,
        1 => BindType::Buffer { dynamic: false, readonly: true },
        2 => BindType::Uniform {
            dynamic: false,
            properties: vec![UniformProperty {
                name: "value".to_string(),
                property_type: UniformPropertyType::Float,
            }],
        },
        _ => BindType::Uniform {
            dynamic: false,
            properties: vec![UniformProperty {
                name: "value".to_string(),
                property_type: UniformPropertyType::Array(
                    Box::new(UniformPropertyType::Vec4),
                    kind as usize,
                ),
            }],
        },
    }
}

fn stages_from(numbers: &mut Numbers, agreeing: bool) -> Vec<ShaderLayout> {
    let mut stages = Vec::new();
    for _ in 0..1 + numbers.next(4) {
        let mut bind_groups = Vec::new();
        for _ in 0..numbers.next(5) {
            let index = numbers.next(4) as u32;
            let mut bindings = Vec::new();
            for _ in 0..numbers.next(5) {
                let slot = numbers.next(6) as u32;
                let kind = if agreeing { u64::from(slot) % 5 } else { numbers.next(5) };
                bindings.push(Binding {
                    name: format!("binding_{}", slot),
                    index: slot,
                    bind_type: payload(kind),
                });
            }
            bind_groups.push(BindGroupDescriptor::new(index, bindings));
        }
        stages.push(ShaderLayout { bind_groups, vertex_buffer_descriptors: vec![] });
    }
    stages
}

/// The merge written down in the plainest way: a map from index to group,
/// filled stage by stage, then emptied and sorted by index.
fn merge_by_map_and_sort(
    stages: &[ShaderLayout],
) -> Result<Vec<BindGroupDescriptor>, PipelineLayoutError> {
    let mut merged: HashMap<u32, BindGroupDescriptor> = HashMap::new();
    for stage in stages {
        for declared in stage.bind_groups.iter() {
            match merged.get_mut(&declared.index) {
                Some(group) => {
                    for binding in declared.bindings.iter() {
                        match group.bindings.iter().find(|b| b.index == binding.index) {
                            Some(existing) => {
                                if existing != binding {
                                    return Err(PipelineLayoutError::BindingMismatch {
                                        bind_group: group.index,
                                        existing: existing.clone(),
                                        offending: binding.clone(),
                                    });
                                }
                            }
                            None => group.bindings.push(binding.clone()),
                        }
                    }
                }
                None => {
                    merged.insert(declared.index, declared.clone());
                }
            }
        }
    }
    let mut groups: Vec<BindGroupDescriptor> = merged.drain().map(|(_, group)| group).collect();
    groups.sort_by(|a, b| a.index.partial_cmp(&b.index).unwrap());
    Ok(groups)
}

#[test]
fn merge_agrees_with_the_plain_merge_by_map_and_sort() {
    let mut numbers = Numbers(0x5eed);
    let mut merged = 0;
    let mut refused = 0;
    for round in 0..3000 {
        let mut stages = stages_from(&mut numbers, round % 3 != 0);
        let expected = merge_by_map_and_sort(&stages);
        let result = PipelineLayout::from_shader_layouts(&mut stages);
        match (result, expected) {
            (Ok(layout), Ok(groups)) => {
                assert_eq!(layout.bind_groups, groups);
                merged += 1;
            }
            (Err(conflict), Err(expected_conflict)) => {
                assert_eq!(conflict, expected_conflict);
                refused += 1;
            }
            (result, expected) => {
                panic!("the merges disagree: {:?} against {:?}", result, expected)
            }
        }
    }
    assert!(merged > 100);
    assert!(refused > 100);
}
