use spherical_core::{BindGroupDescriptor, BindingDescriptor, PipelineLayout, ScalingMode, WindowOrigin};

fn group(index: u32, name: &str) -> BindGroupDescriptor {
    BindGroupDescriptor {
        index,
        bindings: vec![BindingDescriptor { name: name.to_string(), index: 0, shader_stage: 1 }],
    }
}

#[test]
fn get_bind_group_finds_first_match() {
    let layout = PipelineLayout { bind_groups: vec![group(0, "Camera"), group(2, "Transform"), group(2, "Other")] };
    assert_eq!(layout.get_bind_group(2).unwrap().bindings[0].name, "Transform");
    assert_eq!(layout.get_bind_group(0).unwrap().index, 0);
    assert!(layout.get_bind_group(1).is_none());
}

#[test]
fn camera_settings_compare() {
    assert_ne!(WindowOrigin::Center, WindowOrigin::BottomLeft);
    assert_eq!(ScalingMode::FixedVertical, ScalingMode::FixedVertical);
    assert_ne!(ScalingMode::Manual, ScalingMode::WindowSize);
}
