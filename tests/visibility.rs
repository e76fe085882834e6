use spherical_core::{
    sort_draw_list, visible_entities_system, DrawCandidate, RenderLayers, VisibleEntities, VisibleEntity,
};

fn key(d: f32) -> u64 {
    d.to_bits() as u64
}

fn candidate(entity: u64, transparent: bool, distance: Option<f32>) -> DrawCandidate {
    DrawCandidate {
        entity,
        is_visible: true,
        is_transparent: transparent,
        layers: None,
        distance_key: distance.map(key),
    }
}

/// The fallback keys 0.0, 0.1, 0.2, ..., built by repeated addition.
fn fallback_keys(n: usize) -> Vec<u64> {
    let mut keys = Vec::new();
    let mut k = 0.0f32;
    for _ in 0..n {
        keys.push(key(k));
        k += 0.1;
    }
    keys
}

fn run(camera: Option<RenderLayers>, cands: &Vec<DrawCandidate>, out: &mut VisibleEntities) {
    visible_entities_system(camera, cands, &fallback_keys(cands.len()), out);
}

fn entities(v: &VisibleEntities) -> Vec<u64> {
    v.value.iter().map(|e| e.entity).collect()
}

/// Squared ambient distance between the pole and the point at angle `a` from it.
fn chord_sq(a: f32) -> f32 {
    let (s, c) = a.sin_cos();
    s * s + (1.0 - c) * (1.0 - c)
}

#[test]
fn opaque_nearest_first_transparent_farthest_first() {
    let (d1, d2, d3) = (chord_sq(0.1), chord_sq(0.5), chord_sq(1.0));
    assert!(d1 < d2 && d2 < d3);
    let mut out = VisibleEntities { value: vec![VisibleEntity { entity: 99, order: 0 }] };
    let cands = vec![candidate(3, false, Some(d3)), candidate(1, false, Some(d1)), candidate(2, false, Some(d2))];
    run(None, &cands, &mut out);
    assert_eq!(entities(&out), vec![1, 2, 3]);

    let cands = vec![candidate(3, false, Some(d3)), candidate(1, false, Some(d1)), candidate(2, true, Some(d2))];
    run(None, &cands, &mut out);
    assert_eq!(entities(&out), vec![1, 3, 2]);
}

#[test]
fn transparent_entities_farthest_first() {
    let cands = vec![candidate(1, true, Some(0.25)), candidate(2, true, Some(2.0)), candidate(3, true, Some(1.0))];
    let mut out = VisibleEntities { value: vec![] };
    run(None, &cands, &mut out);
    assert_eq!(entities(&out), vec![2, 3, 1]);
}

#[test]
fn hidden_and_other_layer_entities_are_skipped() {
    let mut hidden = candidate(1, false, Some(1.0));
    hidden.is_visible = false;
    let mut elsewhere = candidate(2, false, Some(1.0));
    elsewhere.layers = Some(RenderLayers { mask: 0b10 });
    let mut both = candidate(3, false, Some(1.0));
    both.layers = Some(RenderLayers { mask: 0b11 });
    let plain = candidate(4, false, Some(2.0));
    let cands = vec![hidden, elsewhere, both, plain];
    let mut out = VisibleEntities { value: vec![] };
    run(None, &cands, &mut out);
    assert_eq!(entities(&out), vec![3, 4]);
    run(Some(RenderLayers { mask: 0b10 }), &cands, &mut out);
    assert_eq!(entities(&out), vec![2, 3]);
}

#[test]
fn entities_without_pose_get_increasing_keys() {
    let cands = vec![candidate(5, false, None), candidate(6, false, Some(3.0)), candidate(7, false, None)];
    let mut out = VisibleEntities { value: vec![] };
    run(None, &cands, &mut out);
    assert_eq!(
        out.value,
        vec![
            VisibleEntity { entity: 5, order: 0 },
            VisibleEntity { entity: 7, order: 1036831949 },
            VisibleEntity { entity: 6, order: key(3.0) },
        ]
    );
}

#[test]
fn entities_without_pose_fall_among_posed_ones() {
    let cands = vec![
        candidate(1, false, None),
        candidate(2, false, None),
        candidate(3, false, Some(0.05)),
        candidate(4, false, Some(0.2)),
    ];
    let mut out = VisibleEntities { value: vec![] };
    run(None, &cands, &mut out);
    assert_eq!(entities(&out), vec![1, 3, 2, 4]);
}

#[test]
fn no_candidates_clears_the_list() {
    let mut out = VisibleEntities { value: vec![VisibleEntity { entity: 1, order: 1 }] };
    run(None, &vec![], &mut out);
    assert!(out.value.is_empty());
}

#[test]
fn equal_keys_keep_candidate_order() {
    let v = vec![
        VisibleEntity { entity: 9, order: 4 },
        VisibleEntity { entity: 2, order: 4 },
        VisibleEntity { entity: 5, order: 1 },
    ];
    assert_eq!(
        sort_draw_list(&v, false),
        vec![
            VisibleEntity { entity: 5, order: 1 },
            VisibleEntity { entity: 9, order: 4 },
            VisibleEntity { entity: 2, order: 4 },
        ]
    );
    assert_eq!(
        sort_draw_list(&v, true),
        vec![
            VisibleEntity { entity: 9, order: 4 },
            VisibleEntity { entity: 2, order: 4 },
            VisibleEntity { entity: 5, order: 1 },
        ]
    );
}

#[test]
fn transparent_ties_keep_candidate_order() {
    let cands = vec![candidate(8, true, Some(1.0)), candidate(3, true, Some(1.0)), candidate(6, true, Some(2.0))];
    let mut out = VisibleEntities { value: vec![] };
    run(None, &cands, &mut out);
    assert_eq!(entities(&out), vec![6, 8, 3]);
}

#[test]
fn layers_intersect() {
    let zero = RenderLayers::layer_zero();
    assert_eq!(zero.mask, 1);
    assert!(zero.intersects(&zero));
    assert!(!zero.intersects(&RenderLayers { mask: 0b100 }));
}
