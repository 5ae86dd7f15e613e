use crate::assign::{compute_render_z_coordinates, depth_views, is_depth_assignment};
use crate::depth::{DepthValue, RenderZCoordinate};
use crate::hierarchy::{
    covered, effective_source, inherited_layers, is_forest, is_inheritance,
    lemma_effective_layer_in_forest, links_intact, SceneNode,
};
use crate::layer::{is_base_of, LayerIndex, SpriteLayerOptions};
use crate::sorting::{entity_ids, lemma_take_one_more};
use std::collections::{HashMap, HashSet};
use vstd::prelude::*;

verus! {

/// The depths that the stages keep of a scene, each by entity.
#[derive(Debug)]
pub struct SceneDepths {
    /// The entities that exist. A computed depth can be given to these only.
    pub alive: HashSet<u64>,
    /// The depth axis of the entity's own transform.
    pub local: HashMap<u64, RenderZCoordinate>,
    /// The depth last computed for the entity.
    pub computed: HashMap<u64, RenderZCoordinate>,
    /// The depth axis of the entity's place in the world.
    pub global: HashMap<u64, RenderZCoordinate>,
}

/// The depths of a scene as numbers.
pub struct DepthsView {
    /// The entities that exist.
    pub alive: Set<u64>,
    /// The depth axis of each entity's own transform.
    pub local: Map<u64, DepthValue>,
    /// The depth last computed for each entity.
    pub computed: Map<u64, DepthValue>,
    /// The depth axis of each entity's place in the world.
    pub global: Map<u64, DepthValue>,
}

impl View for SceneDepths {
    type V = DepthsView;

    open spec fn view(&self) -> DepthsView {
        DepthsView {
            alive: self.alive@,
            local: depth_views(self.local@),
            computed: depth_views(self.computed@),
            global: depth_views(self.global@),
        }
    }
}

/// The depth zero.
pub open spec fn zero_depth() -> DepthValue {
    DepthValue { base: 0, rank: 0, count: 1 }
}

impl DepthsView {
    /// The first stage: the own depth axis of every entity that has a
    /// computed depth is set to zero. Nothing else changes.
    pub open spec fn cleared(self) -> DepthsView {
        DepthsView {
            local: Map::new(
                |e: u64| self.local.contains_key(e),
                |e: u64|
                    if self.computed.contains_key(e) {
                        zero_depth()
                    } else {
                        self.local[e]
                    },
            ),
            ..self
        }
    }

    /// The third stage's writes: every entity of `depths` that exists has
    /// that depth as its computed depth. The depth of an entity that is gone
    /// is dropped. Nothing else changes.
    pub open spec fn recorded(self, depths: Map<u64, DepthValue>) -> DepthsView {
        DepthsView {
            computed: self.computed.union_prefer_right(depths.restrict(self.alive)),
            ..self
        }
    }

    /// The last stage: the depth axis in the world of every entity that has
    /// a computed depth is that depth. Nothing else changes.
    pub open spec fn written_back(self) -> DepthsView {
        DepthsView {
            global: Map::new(
                |e: u64| self.global.contains_key(e),
                |e: u64|
                    if self.computed.contains_key(e) {
                        self.computed[e]
                    } else {
                        self.global[e]
                    },
            ),
            ..self
        }
    }

    /// One frame that assigns `depths`.
    pub open spec fn after_frame(self, depths: Map<u64, DepthValue>) -> DepthsView {
        self.cleared().recorded(depths).written_back()
    }
}

/// `after` is what one frame makes of `before` in the scene `nodes`.
pub open spec fn is_frame<L: LayerIndex>(
    nodes: Map<u64, SceneNode<L>>,
    positions: Map<u64, i64>,
    y_sort: bool,
    before: DepthsView,
    after: DepthsView,
) -> bool {
    exists|layers: Map<u64, L>, depths: Map<u64, DepthValue>|
        is_frame_by(nodes, positions, y_sort, before, after, layers, depths)
}

/// `after` is what a frame makes of `before` when inheritance gives
/// `layers` and the assignment gives `depths`.
pub open spec fn is_frame_by<L: LayerIndex>(
    nodes: Map<u64, SceneNode<L>>,
    positions: Map<u64, i64>,
    y_sort: bool,
    before: DepthsView,
    after: DepthsView,
    layers: Map<u64, L>,
    depths: Map<u64, DepthValue>,
) -> bool {
    &&& is_inheritance(nodes, layers)
    &&& is_depth_assignment(layers, positions, y_sort, depths)
    &&& after == before.after_frame(depths)
}

/// Clones of one layer answer one band start: the start of a layer's band
/// is a function of the layer, and a clone keeps it.
pub open spec fn clones_share_base<L: LayerIndex>() -> bool {
    forall|layer: L, c1: L, c2: L, b1: int, b2: int|
        #![trigger is_clone_of(layer, c1), is_clone_of(layer, c2), is_base_of(c1, b1), is_base_of(c2, b2)]
        is_clone_of(layer, c1) && is_clone_of(layer, c2) && is_base_of(c1, b1) && is_base_of(
            c2,
            b2,
        ) ==> b1 == b2
}

/// `copy` may be what cloning `layer` gives, or is `layer` itself.
pub open spec fn is_clone_of<L: Clone>(layer: L, copy: L) -> bool {
    cloned(layer, copy)
}

/// In a forest whose layers answer one band start each, the scene and the
/// positions determine the depths.
pub proof fn lemma_depths_determined<L: LayerIndex>(
    nodes: Map<u64, SceneNode<L>>,
    positions: Map<u64, i64>,
    y_sort: bool,
    layers1: Map<u64, L>,
    depths1: Map<u64, DepthValue>,
    layers2: Map<u64, L>,
    depths2: Map<u64, DepthValue>,
)
    requires
        is_forest(nodes),
        clones_share_base::<L>(),
        is_inheritance(nodes, layers1),
        is_depth_assignment(layers1, positions, y_sort, depths1),
        is_inheritance(nodes, layers2),
        is_depth_assignment(layers2, positions, y_sort, depths2),
    ensures
        depths1 == depths2,
{
    assert forall|e: u64| layers1.dom().contains(e) == layers2.dom().contains(e) by {
        assert(layers1.contains_key(e) <==> covered(nodes, e));
        assert(layers2.contains_key(e) <==> covered(nodes, e));
    }
    assert(layers1.dom() =~= layers2.dom());
    assert forall|e: u64| depths1.contains_key(e) implies depths1[e] == depths2[e] by {
        assert(layers1.contains_key(e) && layers2.contains_key(e));
        lemma_effective_layer_in_forest(nodes, e, layers1[e]);
        lemma_effective_layer_in_forest(nodes, e, layers2[e]);
        let source = nodes[effective_source(nodes, e)].layer->0;
        assert(is_clone_of(source, layers1[e]) && is_clone_of(source, layers2[e]));
        assert(is_base_of(layers1[e], depths1[e].base));
        assert(is_base_of(layers2[e], depths2[e].base));
    }
    assert(depths1 =~= depths2);
}

/// A second frame with the same depths changes neither the computed depths
/// nor the depth axes in the world.
pub proof fn lemma_same_depths_idempotent(start: DepthsView, depths: Map<u64, DepthValue>)
    ensures
        start.after_frame(depths).after_frame(depths).computed == start.after_frame(
            depths,
        ).computed,
        start.after_frame(depths).after_frame(depths).global == start.after_frame(depths).global,
{
    let first = start.after_frame(depths);
    let second = first.after_frame(depths);
    assert(second.computed =~= first.computed);
    assert(second.global =~= first.global);
}

/// Two frames in a row on an unchanged scene, a forest whose layers answer
/// one band start each, leave the same computed depths, and the same depth
/// axes in the world, as one frame.
pub proof fn lemma_frame_idempotent<L: LayerIndex>(
    nodes: Map<u64, SceneNode<L>>,
    positions: Map<u64, i64>,
    y_sort: bool,
    start: DepthsView,
    first: DepthsView,
    second: DepthsView,
)
    requires
        is_forest(nodes),
        clones_share_base::<L>(),
        is_frame(nodes, positions, y_sort, start, first),
        is_frame(nodes, positions, y_sort, first, second),
    ensures
        second.computed == first.computed,
        second.global == first.global,
{
    let (layers1, depths1) = choose|layers: Map<u64, L>, depths: Map<u64, DepthValue>|
        is_frame_by(nodes, positions, y_sort, start, first, layers, depths);
    let (layers2, depths2) = choose|layers: Map<u64, L>, depths: Map<u64, DepthValue>|
        is_frame_by(nodes, positions, y_sort, first, second, layers, depths);
    lemma_depths_determined(nodes, positions, y_sort, layers1, depths1, layers2, depths2);
    lemma_same_depths_idempotent(start, depths1);
}

/// A frame gives every covered entity that exists a computed depth, and
/// where the entity has a place in the world, its depth axis there is that
/// depth.
pub proof fn lemma_covered_is_assigned<L: LayerIndex>(
    nodes: Map<u64, SceneNode<L>>,
    positions: Map<u64, i64>,
    y_sort: bool,
    before: DepthsView,
    after: DepthsView,
    entity: u64,
)
    requires
        is_frame(nodes, positions, y_sort, before, after),
        covered(nodes, entity),
        before.alive.contains(entity),
    ensures
        after.computed.contains_key(entity),
        after.global.contains_key(entity) ==> after.global[entity] == after.computed[entity],
{
}

/// A frame leaves alone the computed depth of an entity that is not
/// covered, and sets the entity's own depth axis to zero if it has a
/// computed depth.
pub proof fn lemma_uncovered_is_cleared<L: LayerIndex>(
    nodes: Map<u64, SceneNode<L>>,
    positions: Map<u64, i64>,
    y_sort: bool,
    before: DepthsView,
    after: DepthsView,
    entity: u64,
)
    requires
        is_frame(nodes, positions, y_sort, before, after),
        !covered(nodes, entity),
    ensures
        after.computed.contains_key(entity) == before.computed.contains_key(entity),
        before.computed.contains_key(entity) ==> after.computed[entity]
            == before.computed[entity],
        before.computed.contains_key(entity) && before.local.contains_key(entity)
            ==> after.local[entity] == zero_depth(),
{
}

/// Resets the own depth axis of every entity that has a computed depth.
pub fn clear_z_coordinates(scene: &mut SceneDepths)
    ensures
        final(scene)@ == old(scene)@.cleared(),
{
    broadcast use vstd::std_specs::hash::group_hash_axioms;

    let ids = entity_ids(&scene.computed);
    for i in 0..ids.len()
        invariant
            ids@.to_set() == scene.computed@.dom(),
            scene.alive@ == old(scene).alive@,
            scene.computed@ == old(scene).computed@,
            scene.global@ == old(scene).global@,
            scene.local@.dom() == old(scene).local@.dom(),
            forall|e: u64|
                scene.local@.contains_key(e) ==> (#[trigger] scene.local@[e])@ == if ids@.take(
                    i as int,
                ).contains(e) {
                    zero_depth()
                } else {
                    old(scene).local@[e]@
                },
    {
        let entity = ids[i];
        let ghost local_before = scene.local@;
        if scene.local.contains_key(&entity) {
            scene.local.insert(entity, RenderZCoordinate::at_base(0));
        }
        proof {
            assert(scene.local@.dom() =~= local_before.dom());
            lemma_take_one_more(ids@, i as int);
            assert forall|e: u64| scene.local@.contains_key(e) implies (
            #[trigger] scene.local@[e])@ == if ids@.take(i + 1).contains(e) {
                zero_depth()
            } else {
                old(scene).local@[e]@
            } by {
                if e != entity {
                    assert(scene.local@[e] == local_before[e]);
                }
            }
        }
    }
    proof {
        assert(ids@.take(ids@.len() as int) =~= ids@);
        assert forall|e: u64| ids@.contains(e) == scene.computed@.contains_key(e) by {
            assert(ids@.to_set().contains(e) == ids@.contains(e));
        }
        assert(scene@.local =~= old(scene)@.cleared().local);
    }
}

/// `entity` is one of `done` and exists.
spec fn is_written(done: Seq<u64>, alive: Set<u64>, entity: u64) -> bool {
    done.contains(entity) && alive.contains(entity)
}

/// Gives every entity of `depths` that exists that depth as its computed
/// depth, and passes over those that are gone.
pub fn record_depths(scene: &mut SceneDepths, depths: &HashMap<u64, RenderZCoordinate>)
    ensures
        final(scene)@ == old(scene)@.recorded(depth_views(depths@)),
{
    broadcast use vstd::std_specs::hash::group_hash_axioms;

    let ids = entity_ids(depths);
    for i in 0..ids.len()
        invariant
            ids@.to_set() == depths@.dom(),
            scene.alive@ == old(scene).alive@,
            scene.local@ == old(scene).local@,
            scene.global@ == old(scene).global@,
            forall|e: u64|
                #[trigger] scene.computed@.contains_key(e) <==> old(scene).computed@.contains_key(
                    e,
                ) || is_written(ids@.take(i as int), scene.alive@, e),
            forall|e: u64|
                scene.computed@.contains_key(e) ==> #[trigger] scene.computed@[e] == if is_written(
                    ids@.take(i as int),
                    scene.alive@,
                    e,
                ) {
                    depths@[e]
                } else {
                    old(scene).computed@[e]
                },
    {
        let entity = ids[i];
        proof {
            assert(ids@.contains(ids@[i as int]));
            assert(ids@.to_set().contains(entity));
        }
        let depth = *depths.get(&entity).unwrap();
        let ghost computed_before = scene.computed@;
        let exists = scene.alive.contains(&entity);
        if exists {
            scene.computed.insert(entity, depth);
        }
        proof {
            assert(exists == scene.alive@.contains(entity));
            lemma_take_one_more(ids@, i as int);
            assert forall|e: u64| #[trigger]
                scene.computed@.contains_key(e) <==> old(scene).computed@.contains_key(e)
                    || is_written(ids@.take(i + 1), scene.alive@, e) by {
                assert(computed_before.contains_key(e) <==> old(scene).computed@.contains_key(e)
                    || is_written(ids@.take(i as int), scene.alive@, e));
            }
            assert forall|e: u64| scene.computed@.contains_key(e) implies #[trigger] scene.computed@[e]
                == if is_written(ids@.take(i + 1), scene.alive@, e) {
                depths@[e]
            } else {
                old(scene).computed@[e]
            } by {
                if e != entity {
                    assert(scene.computed@[e] == computed_before[e]);
                }
            }
        }
    }
    proof {
        assert(ids@.take(ids@.len() as int) =~= ids@);
        assert forall|e: u64| ids@.contains(e) == depths@.contains_key(e) by {
            assert(ids@.to_set().contains(e) == ids@.contains(e));
        }
        assert(scene@.computed =~= old(scene)@.recorded(depth_views(depths@)).computed);
    }
}

/// Copies the computed depth of every entity that has one to the depth axis
/// of its place in the world.
pub fn update_global_transforms(scene: &mut SceneDepths)
    ensures
        final(scene)@ == old(scene)@.written_back(),
{
    broadcast use vstd::std_specs::hash::group_hash_axioms;

    let ids = entity_ids(&scene.computed);
    for i in 0..ids.len()
        invariant
            ids@.to_set() == scene.computed@.dom(),
            scene.alive@ == old(scene).alive@,
            scene.computed@ == old(scene).computed@,
            scene.local@ == old(scene).local@,
            scene.global@.dom() == old(scene).global@.dom(),
            forall|e: u64|
                scene.global@.contains_key(e) ==> #[trigger] scene.global@[e] == if ids@.take(
                    i as int,
                ).contains(e) {
                    scene.computed@[e]
                } else {
                    old(scene).global@[e]
                },
    {
        let entity = ids[i];
        proof {
            assert(ids@.contains(ids@[i as int]));
            assert(ids@.to_set().contains(entity));
        }
        let ghost global_before = scene.global@;
        if scene.global.contains_key(&entity) {
            let depth = *scene.computed.get(&entity).unwrap();
            scene.global.insert(entity, depth);
        }
        proof {
            assert(scene.global@.dom() =~= global_before.dom());
            lemma_take_one_more(ids@, i as int);
            assert forall|e: u64| scene.global@.contains_key(e) implies #[trigger] scene.global@[e]
                == if ids@.take(i + 1).contains(e) {
                scene.computed@[e]
            } else {
                old(scene).global@[e]
            } by {
                if e != entity {
                    assert(scene.global@[e] == global_before[e]);
                }
            }
        }
    }
    proof {
        assert(ids@.take(ids@.len() as int) =~= ids@);
        assert forall|e: u64| ids@.contains(e) == scene.computed@.contains_key(e) by {
            assert(ids@.to_set().contains(e) == ids@.contains(e));
        }
        assert(scene@.global =~= old(scene)@.written_back().global);
    }
}

/// One frame: clear, inherit, assign depths, write back.
pub fn run_frame<L: LayerIndex>(
    nodes: &HashMap<u64, SceneNode<L>>,
    positions: &HashMap<u64, i64>,
    options: &SpriteLayerOptions,
    scene: &mut SceneDepths,
)
    requires
        links_intact(nodes@),
    ensures
        is_frame(nodes@, positions@, options.y_sort, old(scene)@, final(scene)@),
{
    clear_z_coordinates(scene);
    let layers = inherited_layers(nodes);
    let depths = compute_render_z_coordinates(&layers, positions, options);
    record_depths(scene, &depths);
    update_global_transforms(scene);
    proof {
        assert(is_frame_by(
            nodes@,
            positions@,
            options.y_sort,
            old(scene)@,
            scene@,
            layers@,
            depth_views(depths@),
        ));
    }
}

} // verus!
