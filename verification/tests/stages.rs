use extol_sprite_layer::{
    clear_z_coordinates, record_depths, update_global_transforms, RenderZCoordinate, SceneDepths,
};
use std::collections::{HashMap, HashSet};

fn scene() -> SceneDepths {
    let mut scene = SceneDepths {
        alive: HashSet::new(),
        local: HashMap::new(),
        computed: HashMap::new(),
        global: HashMap::new(),
    };
    scene.alive.extend([1, 2, 3, 4, 9]);
    // 1: all three; 2: no computed depth; 3: computed depth only; 4: no place in the world
    scene.local.insert(1, RenderZCoordinate::new(3, 1, 2));
    scene.computed.insert(1, RenderZCoordinate::new(3, 1, 2));
    scene.global.insert(1, RenderZCoordinate::new(8, 0, 1));
    scene.local.insert(2, RenderZCoordinate::new(5, 2, 3));
    scene.global.insert(2, RenderZCoordinate::new(6, 0, 1));
    scene.computed.insert(3, RenderZCoordinate::new(1, 0, 2));
    scene.local.insert(4, RenderZCoordinate::new(2, 1, 9));
    scene.computed.insert(4, RenderZCoordinate::new(2, 1, 9));
    scene
}

fn parts(z: &RenderZCoordinate) -> (i32, usize, usize) {
    (z.base(), z.rank(), z.count())
}

#[test]
fn clear_resets_entities_with_a_computed_depth() {
    let mut scene = scene();
    clear_z_coordinates(&mut scene);
    assert_eq!(scene.local.len(), 3);
    assert_eq!(parts(&scene.local[&1]), (0, 0, 1));
    assert_eq!(parts(&scene.local[&2]), (5, 2, 3));
    assert_eq!(parts(&scene.local[&4]), (0, 0, 1));
    assert_eq!(scene.computed.len(), 3);
    assert_eq!(parts(&scene.computed[&1]), (3, 1, 2));
    assert_eq!(parts(&scene.global[&1]), (8, 0, 1));
}

#[test]
fn record_overwrites_and_adds() {
    let mut scene = scene();
    let depths: HashMap<u64, RenderZCoordinate> =
        [
            (1, RenderZCoordinate::new(0, 1, 2)),
            (9, RenderZCoordinate::new(4, 0, 2)),
            (20, RenderZCoordinate::new(4, 1, 2)),
        ]
        .into_iter()
        .collect();
    record_depths(&mut scene, &depths);
    assert_eq!(scene.computed.len(), 4);
    assert!(!scene.computed.contains_key(&20));
    assert_eq!(parts(&scene.computed[&1]), (0, 1, 2));
    assert_eq!(parts(&scene.computed[&9]), (4, 0, 2));
    assert_eq!(parts(&scene.computed[&3]), (1, 0, 2));
    assert_eq!(parts(&scene.local[&1]), (3, 1, 2));
    assert_eq!(scene.global.len(), 2);
}

#[test]
fn write_back_copies_computed_depths() {
    let mut scene = scene();
    update_global_transforms(&mut scene);
    assert_eq!(scene.global.len(), 2);
    assert_eq!(parts(&scene.global[&1]), (3, 1, 2));
    assert_eq!(parts(&scene.global[&2]), (6, 0, 1));
    assert_eq!(parts(&scene.local[&1]), (3, 1, 2));
    assert_eq!(scene.computed.len(), 3);
}
