use extol_sprite_layer::{
    run_frame, LayerIndex, RenderZCoordinate, SceneDepths, SceneNode, SpriteLayerOptions,
};
use std::collections::{HashMap, HashSet};

#[derive(Clone, Copy, PartialEq, Eq, PartialOrd, Ord, Hash, Debug)]
enum Layer {
    Top,
    Middle,
    Bottom,
}

impl LayerIndex for Layer {
    fn as_z_coordinate(&self) -> i32 {
        match self {
            Layer::Bottom => 0,
            Layer::Middle => 1,
            Layer::Top => 2,
        }
    }
}

struct World {
    nodes: HashMap<u64, SceneNode<Layer>>,
    positions: HashMap<u64, i64>,
    scene: SceneDepths,
    next: u64,
}

impl World {
    fn new() -> World {
        World {
            nodes: HashMap::new(),
            positions: HashMap::new(),
            scene: SceneDepths {
                alive: HashSet::new(),
                local: HashMap::new(),
                computed: HashMap::new(),
                global: HashMap::new(),
            },
            next: 0,
        }
    }

    fn spawn(&mut self, y: i64, layer: Option<Layer>, parent: Option<u64>) -> u64 {
        let id = self.next;
        self.next += 1;
        self.nodes.insert(
            id,
            SceneNode { children: Vec::new(), layer, has_parent: parent.is_some() },
        );
        if let Some(parent) = parent {
            self.nodes.get_mut(&parent).unwrap().children.push(id);
        }
        self.positions.insert(id, y);
        self.scene.alive.insert(id);
        self.scene.local.insert(id, RenderZCoordinate::at_base(0));
        self.scene.global.insert(id, RenderZCoordinate::at_base(0));
        id
    }

    fn update(&mut self, options: &SpriteLayerOptions) {
        run_frame(&self.nodes, &self.positions, options, &mut self.scene);
    }

    fn z(&self, entity: u64) -> RenderZCoordinate {
        let render_coordinate = self.scene.computed[&entity];
        let transform_z = self.scene.global[&entity];
        assert_eq!(render_coordinate, transform_z, "inconsistent z-coordinate for {entity:?}");
        transform_z
    }
}

fn in_band(z: RenderZCoordinate, base: i32) -> bool {
    z.base() == base && z.rank() < z.count()
}

#[test]
fn simple() {
    let mut app = World::new();
    let top = app.spawn(1, Some(Layer::Top), None);
    let middle = app.spawn(1, Some(Layer::Middle), None);
    let bottom = app.spawn(1, Some(Layer::Bottom), None);
    app.update(&SpriteLayerOptions::default());

    assert!(app.z(bottom) < app.z(middle));
    assert!(app.z(middle) < app.z(top));
}

#[test]
fn three_roots_stay_in_their_bands() {
    let mut app = World::new();
    let top = app.spawn(1, Some(Layer::Top), None);
    let middle = app.spawn(1, Some(Layer::Middle), None);
    let bottom = app.spawn(1, Some(Layer::Bottom), None);
    app.update(&SpriteLayerOptions::default());

    assert!(in_band(app.z(bottom), 0));
    assert!(in_band(app.z(middle), 1));
    assert!(in_band(app.z(top), 2));
    // equal positions: the smaller identity is drawn first
    assert_eq!((app.z(top).rank(), app.z(top).count()), (0, 3));
    assert_eq!((app.z(middle).rank(), app.z(middle).count()), (1, 3));
    assert_eq!((app.z(bottom).rank(), app.z(bottom).count()), (2, 3));
}

#[test]
fn children_inherit_and_the_higher_one_is_farther() {
    let mut app = World::new();
    let root = app.spawn(0, Some(Layer::Middle), None);
    let low = app.spawn(-5, None, Some(root));
    let high = app.spawn(5, None, Some(root));
    app.update(&SpriteLayerOptions::default());

    assert!(in_band(app.z(low), 1));
    assert!(in_band(app.z(high), 1));
    assert!(app.z(high) < app.z(low));
    assert_eq!(app.z(high).rank(), 0);
    assert_eq!(app.z(root).rank(), 1);
    assert_eq!(app.z(low).rank(), 2);
}

#[test]
fn layers_win_over_positions() {
    for y_sort in [true, false] {
        let mut app = World::new();
        let bottom = app.spawn(-1000, Some(Layer::Bottom), None);
        let top = app.spawn(1000, Some(Layer::Top), None);
        let options = SpriteLayerOptions { y_sort, parallel_y_sort: false };
        app.update(&options);
        assert!(app.z(bottom) < app.z(top));
    }
}

#[test]
fn disabled_sorting_gives_the_band_start() {
    let mut app = World::new();
    let root = app.spawn(0, Some(Layer::Top), None);
    let a = app.spawn(10, None, Some(root));
    let b = app.spawn(-10, None, Some(root));
    let other = app.spawn(3, Some(Layer::Bottom), None);
    app.update(&SpriteLayerOptions { y_sort: false, parallel_y_sort: false });

    assert_eq!(app.z(root), RenderZCoordinate::at_base(2));
    assert_eq!(app.z(a), app.z(root));
    assert_eq!(app.z(b), app.z(root));
    assert_eq!(app.z(other), RenderZCoordinate::at_base(0));
    assert_eq!((app.z(a).rank(), app.z(a).count()), (0, 1));
}

#[test]
fn two_frames_give_the_same_depths() {
    let mut app = World::new();
    let root = app.spawn(0, Some(Layer::Middle), None);
    let a = app.spawn(7, None, Some(root));
    let b = app.spawn(7, Some(Layer::Top), Some(a));
    let options = SpriteLayerOptions::default();
    app.update(&options);
    let first: Vec<RenderZCoordinate> = [root, a, b].iter().map(|e| app.z(*e)).collect();
    app.update(&options);
    let second: Vec<RenderZCoordinate> = [root, a, b].iter().map(|e| app.z(*e)).collect();
    assert_eq!(first, second);
    assert_eq!(app.scene.computed.len(), 3);
}

#[test]
fn uncovered_entity_is_cleared_and_not_assigned() {
    let mut app = World::new();
    let root = app.spawn(0, Some(Layer::Top), None);
    let stray = app.spawn(0, None, None);
    let layered_child = app.spawn(0, Some(Layer::Top), Some(stray));
    let stale = RenderZCoordinate::new(1, 1, 4);
    app.scene.computed.insert(stray, stale);
    app.scene.local.insert(stray, RenderZCoordinate::new(1, 1, 4));
    app.update(&SpriteLayerOptions::default());

    assert!(app.scene.computed.contains_key(&root));
    assert!(!app.scene.computed.contains_key(&layered_child));
    // the stale depth is kept and still written back, the own axis is reset
    assert_eq!(app.scene.computed[&stray], stale);
    assert_eq!(app.scene.global[&stray], stale);
    assert_eq!(app.scene.local[&stray], RenderZCoordinate::at_base(0));
    assert_eq!(app.scene.local[&stray].rank(), 0);
}

#[test]
fn empty_scene_runs() {
    let mut app = World::new();
    app.update(&SpriteLayerOptions::default());
    assert!(app.scene.computed.is_empty());
}

#[test]
fn entity_that_is_gone_is_passed_over() {
    let mut app = World::new();
    let root = app.spawn(0, Some(Layer::Top), None);
    let gone = app.spawn(9, None, Some(root));
    let stays = app.spawn(-9, None, Some(root));
    app.scene.alive.remove(&gone);
    app.update(&SpriteLayerOptions::default());

    assert!(!app.scene.computed.contains_key(&gone));
    // the entity that is gone still counts in the order
    assert_eq!((app.z(root).rank(), app.z(root).count()), (1, 3));
    assert_eq!((app.z(stays).rank(), app.z(stays).count()), (2, 3));
    assert_eq!(app.scene.global[&gone], RenderZCoordinate::at_base(0));
}
