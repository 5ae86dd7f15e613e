use crate::sorting::entity_ids;
use std::collections::HashMap;
use vstd::prelude::*;

verus! {

/// What the scene records of one entity.
#[derive(Debug)]
pub struct SceneNode<L> {
    /// The entities directly below this one.
    pub children: Vec<u64>,
    /// The layer given to the entity itself, if any.
    pub layer: Option<L>,
    /// Whether the entity stands below another one.
    pub has_parent: bool,
}

/// The `k`-th child of `entity`.
pub open spec fn child_at<L>(nodes: Map<u64, SceneNode<L>>, entity: u64, k: int) -> u64 {
    nodes[entity].children@[k]
}

/// `entity` has no parent and a layer of its own: inheritance starts here.
pub open spec fn is_layered_root<L>(nodes: Map<u64, SceneNode<L>>, entity: u64) -> bool {
    nodes.contains_key(entity) && !nodes[entity].has_parent && nodes[entity].layer is Some
}

/// `child` is listed among the children of `parent`.
pub open spec fn is_child_of<L>(nodes: Map<u64, SceneNode<L>>, child: u64, parent: u64) -> bool {
    nodes.contains_key(parent) && exists|k: int|
        0 <= k < nodes[parent].children@.len() && #[trigger] child_at(nodes, parent, k) == child
}

/// `path` leads from a layered root down the child links.
pub open spec fn is_descent<L>(nodes: Map<u64, SceneNode<L>>, path: Seq<u64>) -> bool {
    &&& path.len() > 0
    &&& is_layered_root(nodes, path[0])
    &&& forall|i: int| 0 < i < path.len() ==> is_child_of(nodes, #[trigger] path[i], path[i - 1])
}

/// `path` is a descent that ends at `entity`.
pub open spec fn descends_to<L>(
    nodes: Map<u64, SceneNode<L>>,
    path: Seq<u64>,
    entity: u64,
) -> bool {
    is_descent(nodes, path) && path.last() == entity
}

/// `entity` is `root` or stands below it, and `root` is a layered root.
pub open spec fn descends_from<L>(nodes: Map<u64, SceneNode<L>>, root: u64, entity: u64) -> bool {
    exists|path: Seq<u64>| #[trigger] descends_to(nodes, path, entity) && path[0] == root
}

/// `entity` is a layered root or stands below one.
pub open spec fn covered<L>(nodes: Map<u64, SceneNode<L>>, entity: u64) -> bool {
    exists|path: Seq<u64>| descends_to(nodes, path, entity)
}

/// The last entity on `path` that has a layer of its own.
pub open spec fn layer_source<L>(nodes: Map<u64, SceneNode<L>>, path: Seq<u64>) -> u64
    decreases path.len(),
{
    if path.len() == 0 {
        0
    } else if nodes.contains_key(path.last()) && nodes[path.last()].layer is Some {
        path.last()
    } else {
        layer_source(nodes, path.drop_last())
    }
}

/// `layer` is a clone of the nearest layer at or above `entity` on some
/// descent to it.
pub open spec fn is_effective_layer<L: Clone>(
    nodes: Map<u64, SceneNode<L>>,
    entity: u64,
    layer: L,
) -> bool {
    exists|path: Seq<u64>|
        #[trigger] descends_to(nodes, path, entity) && cloned(
            nodes[layer_source(nodes, path)].layer->0,
            layer,
        )
}

/// Every covered entity is on record: no child link on a descent leads
/// out of the scene.
pub open spec fn links_intact<L>(nodes: Map<u64, SceneNode<L>>) -> bool {
    forall|entity: u64| covered(nodes, entity) ==> nodes.contains_key(entity)
}

/// The entities of `dom` are on record, and so are their children, which
/// belong to `dom` too.
pub open spec fn closed_under_children<L>(nodes: Map<u64, SceneNode<L>>, dom: Set<u64>) -> bool {
    &&& forall|e: u64| dom.contains(e) ==> nodes.contains_key(e)
    &&& forall|e: u64, k: int|
        dom.contains(e) && 0 <= k < nodes[e].children@.len() ==> dom.contains(
            #[trigger] child_at(nodes, e, k),
        )
}

/// `layers` is what inheritance gives: an entry for exactly the covered
/// entities, each with its effective layer.
pub open spec fn is_inheritance<L: Clone>(
    nodes: Map<u64, SceneNode<L>>,
    layers: Map<u64, L>,
) -> bool {
    &&& forall|e: u64| layers.contains_key(e) <==> covered(nodes, e)
    &&& forall|e: u64| layers.contains_key(e) ==> is_effective_layer(nodes, e, #[trigger] layers[e])
}

/// The source of a descent is on record and has a layer.
pub proof fn lemma_source_has_layer<L>(nodes: Map<u64, SceneNode<L>>, path: Seq<u64>)
    requires
        is_descent(nodes, path),
    ensures
        nodes.contains_key(layer_source(nodes, path)),
        nodes[layer_source(nodes, path)].layer is Some,
    decreases path.len(),
{
    if nodes.contains_key(path.last()) && nodes[path.last()].layer is Some {
    } else {
        assert(path.len() > 1);
        lemma_descent_prefix(nodes, path);
        lemma_source_has_layer(nodes, path.drop_last());
    }
}

/// A descent of more than one step, cut by its last step, is a descent to
/// the parent of its end.
pub proof fn lemma_descent_prefix<L>(nodes: Map<u64, SceneNode<L>>, path: Seq<u64>)
    requires
        is_descent(nodes, path),
        path.len() > 1,
    ensures
        is_descent(nodes, path.drop_last()),
        is_child_of(nodes, path.last(), path.drop_last().last()),
{
    let shorter = path.drop_last();
    assert forall|i: int| 0 < i < shorter.len() implies is_child_of(
        nodes,
        #[trigger] shorter[i],
        shorter[i - 1],
    ) by {
        assert(shorter[i] == path[i]);
        assert(shorter[i - 1] == path[i - 1]);
    }
    let last = path.len() - 1;
    assert(is_child_of(nodes, path[last], path[last - 1]));
}

/// A descent can be carried on to any child of its end.
pub proof fn lemma_descent_step<L>(nodes: Map<u64, SceneNode<L>>, path: Seq<u64>, child: u64)
    requires
        is_descent(nodes, path),
        is_child_of(nodes, child, path.last()),
    ensures
        is_descent(nodes, path.push(child)),
        layer_source(nodes, path.push(child)) == if nodes.contains_key(child)
            && nodes[child].layer is Some {
            child
        } else {
            layer_source(nodes, path)
        },
{
    let longer = path.push(child);
    assert forall|i: int| 0 < i < longer.len() implies is_child_of(
        nodes,
        #[trigger] longer[i],
        longer[i - 1],
    ) by {
        if i < path.len() {
            assert(longer[i] == path[i]);
            assert(longer[i - 1] == path[i - 1]);
        } else {
            assert(longer[i] == child);
            assert(longer[i - 1] == path.last());
        }
    }
    assert(longer.drop_last() =~= path);
}

/// A set that is closed under children holds the end of every descent
/// whose root it holds.
pub proof fn lemma_closed_holds_descent<L>(
    nodes: Map<u64, SceneNode<L>>,
    dom: Set<u64>,
    path: Seq<u64>,
)
    requires
        closed_under_children(nodes, dom),
        is_descent(nodes, path),
        dom.contains(path[0]),
    ensures
        dom.contains(path.last()),
    decreases path.len(),
{
    if path.len() > 1 {
        lemma_descent_prefix(nodes, path);
        assert(path.drop_last()[0] == path[0]);
        lemma_closed_holds_descent(nodes, dom, path.drop_last());
        let parent = path.drop_last().last();
        let k = choose|k: int|
            0 <= k < nodes[parent].children@.len() && #[trigger] child_at(nodes, parent, k)
                == path.last();
        assert(dom.contains(child_at(nodes, parent, k)));
    }
}

/// Every entity stands in at most one list of children, and there at most
/// once, and an entity that stands in one is marked as having a parent.
pub open spec fn is_forest<L>(nodes: Map<u64, SceneNode<L>>) -> bool {
    &&& forall|a: u64, i: int, b: u64, j: int|
        nodes.contains_key(a) && 0 <= i < nodes[a].children@.len() && nodes.contains_key(b) && 0
            <= j < nodes[b].children@.len() && #[trigger] child_at(nodes, a, i)
            == #[trigger] child_at(nodes, b, j) ==> a == b && i == j
    &&& forall|p: u64, k: int|
        nodes.contains_key(p) && 0 <= k < nodes[p].children@.len() && nodes.contains_key(
            #[trigger] child_at(nodes, p, k),
        ) ==> nodes[child_at(nodes, p, k)].has_parent
}

/// The entity whose own layer applies to `entity`: the nearest one at or
/// above it that has a layer.
pub open spec fn effective_source<L>(nodes: Map<u64, SceneNode<L>>, entity: u64) -> u64 {
    layer_source(nodes, choose|path: Seq<u64>| descends_to(nodes, path, entity))
}

/// In a forest only one descent leads to an entity.
pub proof fn lemma_descent_unique<L>(nodes: Map<u64, SceneNode<L>>, p: Seq<u64>, q: Seq<u64>)
    requires
        is_forest(nodes),
        is_descent(nodes, p),
        is_descent(nodes, q),
        p.last() == q.last(),
    ensures
        p == q,
    decreases p.len(),
{
    if p.len() > 1 {
        lemma_descent_prefix(nodes, p);
    }
    if q.len() > 1 {
        lemma_descent_prefix(nodes, q);
    }
    if p.len() > 1 {
        let pp = p.drop_last().last();
        let kp = choose|k: int|
            0 <= k < nodes[pp].children@.len() && #[trigger] child_at(nodes, pp, k) == p.last();
        if q.len() > 1 {
            let qp = q.drop_last().last();
            let kq = choose|k: int|
                0 <= k < nodes[qp].children@.len() && #[trigger] child_at(nodes, qp, k)
                    == q.last();
            assert(child_at(nodes, pp, kp) == child_at(nodes, qp, kq));
            lemma_descent_unique(nodes, p.drop_last(), q.drop_last());
            assert(p =~= p.drop_last().push(p.last()));
            assert(q =~= q.drop_last().push(q.last()));
        } else {
            assert(nodes[child_at(nodes, pp, kp)].has_parent);
            assert(false);
        }
    } else {
        if q.len() > 1 {
            let qp = q.drop_last().last();
            let kq = choose|k: int|
                0 <= k < nodes[qp].children@.len() && #[trigger] child_at(nodes, qp, k)
                    == q.last();
            assert(nodes[child_at(nodes, qp, kq)].has_parent);
            assert(false);
        } else {
            assert(p =~= q);
        }
    }
}

/// In a forest an effective layer is a clone of the layer of the one
/// entity that is the nearest with a layer at or above.
pub proof fn lemma_effective_layer_in_forest<L: Clone>(
    nodes: Map<u64, SceneNode<L>>,
    entity: u64,
    layer: L,
)
    requires
        is_forest(nodes),
        is_effective_layer(nodes, entity, layer),
    ensures
        nodes.contains_key(effective_source(nodes, entity)),
        nodes[effective_source(nodes, entity)].layer is Some,
        cloned(nodes[effective_source(nodes, entity)].layer->0, layer),
{
    let path = choose|path: Seq<u64>|
        #[trigger] descends_to(nodes, path, entity) && cloned(
            nodes[layer_source(nodes, path)].layer->0,
            layer,
        );
    let chosen = choose|path: Seq<u64>| descends_to(nodes, path, entity);
    lemma_descent_unique(nodes, path, chosen);
    lemma_source_has_layer(nodes, path);
}

/// Inheritance follows the tree. An entity on record with a layer of its
/// own is its own source, and so are all below it up to the next layer. In
/// a forest a child without a layer of its own has the source of its parent.
pub proof fn lemma_inheritance_correctness<L>(
    nodes: Map<u64, SceneNode<L>>,
    parent: u64,
    child: u64,
)
    requires
        covered(nodes, parent),
        is_child_of(nodes, child, parent),
    ensures
        covered(nodes, child),
        nodes.contains_key(child) && nodes[child].layer is Some ==> effective_source(nodes, child)
            == child,
        is_forest(nodes) && !(nodes.contains_key(child) && nodes[child].layer is Some)
            ==> effective_source(nodes, child) == effective_source(nodes, parent),
{
    let to_parent = choose|path: Seq<u64>| descends_to(nodes, path, parent);
    lemma_descent_step(nodes, to_parent, child);
    assert(descends_to(nodes, to_parent.push(child), child));
    let to_child = choose|path: Seq<u64>| descends_to(nodes, path, child);
    if is_forest(nodes) {
        lemma_descent_unique(nodes, to_child, to_parent.push(child));
    }
}

/// What inheritance gives to a child: a clone of its own layer if it has
/// one, and else, in a forest, a clone of the very layer of which its
/// parent has a clone.
pub proof fn lemma_child_inherits<L: Clone>(
    nodes: Map<u64, SceneNode<L>>,
    layers: Map<u64, L>,
    parent: u64,
    child: u64,
)
    requires
        is_inheritance(nodes, layers),
        layers.contains_key(parent),
        is_child_of(nodes, child, parent),
        nodes.contains_key(child),
    ensures
        layers.contains_key(child),
        nodes[child].layer is Some ==> cloned(nodes[child].layer->0, layers[child]),
        is_forest(nodes) && nodes[child].layer is None ==> {
            let source = effective_source(nodes, parent);
            &&& nodes.contains_key(source)
            &&& nodes[source].layer is Some
            &&& cloned(nodes[source].layer->0, layers[parent])
            &&& cloned(nodes[source].layer->0, layers[child])
        },
{
    lemma_inheritance_correctness(nodes, parent, child);
    assert(is_effective_layer(nodes, child, layers[child]));
    assert(is_effective_layer(nodes, parent, layers[parent]));
    if is_forest(nodes) {
        lemma_effective_layer_in_forest(nodes, child, layers[child]);
        lemma_effective_layer_in_forest(nodes, parent, layers[parent]);
    } else if nodes[child].layer is Some {
        let path = choose|path: Seq<u64>|
            #[trigger] descends_to(nodes, path, child) && cloned(
                nodes[layer_source(nodes, path)].layer->0,
                layers[child],
            );
        assert(layer_source(nodes, path) == child);
    }
}

/// An entity that stands under no layered root has no effective layer,
/// whether it has a layer of its own or not.
pub proof fn lemma_coverage<L: Clone>(
    nodes: Map<u64, SceneNode<L>>,
    layers: Map<u64, L>,
    entity: u64,
)
    requires
        is_inheritance(nodes, layers),
        !covered(nodes, entity),
    ensures
        !layers.contains_key(entity),
{
}

/// `entity` waits on the stack.
spec fn on_stack(stack: Seq<(u64, u64)>, entity: u64) -> bool {
    exists|i: int| 0 <= i < stack.len() && (#[trigger] stack[i]).0 == entity
}

/// The layer source that applies to `entity` when `inherited` is the one
/// handed down to it.
spec fn source_for<L>(nodes: Map<u64, SceneNode<L>>, entity: u64, inherited: u64) -> u64 {
    if nodes[entity].layer is Some {
        entity
    } else {
        inherited
    }
}

/// `path` is a descent from `root` to the entity of the stack entry, which
/// carries the source that the entity inherits on it.
spec fn is_path_of<L>(
    nodes: Map<u64, SceneNode<L>>,
    root: u64,
    entry: (u64, u64),
    path: Seq<u64>,
) -> bool {
    &&& descends_to(nodes, path, entry.0)
    &&& path[0] == root
    &&& nodes.contains_key(entry.0) ==> source_for(nodes, entry.0, entry.1) == layer_source(
        nodes,
        path,
    )
}

/// The stack entry stands for a descent from `root`.
spec fn is_pending<L>(nodes: Map<u64, SceneNode<L>>, root: u64, entry: (u64, u64)) -> bool {
    exists|path: Seq<u64>| is_path_of(nodes, root, entry, path)
}

/// Every child of an entity of `dom` is in `dom` or waits on the stack.
spec fn closed_up_to_stack<L>(
    nodes: Map<u64, SceneNode<L>>,
    dom: Set<u64>,
    stack: Seq<(u64, u64)>,
) -> bool {
    &&& forall|e: u64| dom.contains(e) ==> nodes.contains_key(e)
    &&& forall|e: u64, k: int|
        dom.contains(e) && 0 <= k < nodes[e].children@.len() ==> dom.contains(
            #[trigger] child_at(nodes, e, k),
        ) || on_stack(stack, child_at(nodes, e, k))
}

/// Walks the entities below `root` and records the effective layer of each
/// one that `layer_map` does not hold yet: the entity's own layer, or else
/// the layer that applies to its parent. What `layer_map` holds stays.
///
/// Returns `false`, with the walk abandoned, when a child link leads to an
/// entity that is not on record.
pub fn propagate_layers_impl<L: Clone>(
    root: u64,
    nodes: &HashMap<u64, SceneNode<L>>,
    layer_map: &mut HashMap<u64, L>,
) -> (complete: bool)
    requires
        is_layered_root(nodes@, root),
        closed_under_children(nodes@, old(layer_map)@.dom()),
        forall|e: u64|
            old(layer_map)@.contains_key(e) ==> is_effective_layer(
                nodes@,
                e,
                #[trigger] old(layer_map)@[e],
            ),
    ensures
        complete <==> forall|e: u64| descends_from(nodes@, root, e) ==> nodes@.contains_key(e),
        complete ==> forall|e: u64|
            #[trigger] final(layer_map)@.contains_key(e) <==> (old(layer_map)@.contains_key(e)
                || descends_from(nodes@, root, e)),
        complete ==> forall|e: u64|
            old(layer_map)@.contains_key(e) ==> #[trigger] final(layer_map)@[e] == old(
                layer_map,
            )@[e],
        complete ==> forall|e: u64|
            final(layer_map)@.contains_key(e) ==> is_effective_layer(
                nodes@,
                e,
                #[trigger] final(layer_map)@[e],
            ),
        complete ==> closed_under_children(nodes@, final(layer_map)@.dom()),
{
    broadcast use vstd::std_specs::hash::group_hash_axioms;

    let mut stack: Vec<(u64, u64)> = Vec::new();
    stack.push((root, root));
    proof {
        let path = seq![root];
        assert(layer_source(nodes@, path) == root);
        assert(is_path_of(nodes@, root, stack@[0], path));
        assert(on_stack(stack@, root));
        let held = layer_map@.dom();
        assert forall|e: u64, k: int|
            held.contains(e) && 0 <= k < nodes@[e].children@.len() implies held.contains(
            #[trigger] child_at(nodes@, e, k),
        ) || on_stack(stack@, child_at(nodes@, e, k)) by {}
    }
    while stack.len() > 0
        invariant
            closed_up_to_stack(nodes@, layer_map@.dom(), stack@),
            layer_map@.contains_key(root) || on_stack(stack@, root),
            forall|i: int| 0 <= i < stack@.len() ==> is_pending(nodes@, root, #[trigger] stack@[i]),
            forall|e: u64| old(layer_map)@.contains_key(e) ==> layer_map@.contains_key(e),
            forall|e: u64|
                old(layer_map)@.contains_key(e) ==> #[trigger] layer_map@[e] == old(layer_map)@[e],
            forall|e: u64|
                #[trigger] layer_map@.contains_key(e) ==> old(layer_map)@.contains_key(e)
                    || descends_from(nodes@, root, e),
            forall|e: u64|
                layer_map@.contains_key(e) ==> is_effective_layer(
                    nodes@,
                    e,
                    #[trigger] layer_map@[e],
                ),
        decreases nodes@.dom().difference(layer_map@.dom()).len(), stack@.len(),
    {
        let ghost stack_before = stack@;
        let ghost map_before = layer_map@;
        let (entity, inherited) = stack.pop().unwrap();
        proof {
            assert(is_pending(nodes@, root, stack_before[stack_before.len() - 1]));
            assert forall|i: int| 0 <= i < stack@.len() implies is_pending(
                nodes@,
                root,
                #[trigger] stack@[i],
            ) by {
                assert(stack@[i] == stack_before[i]);
            }
        }
        if layer_map.contains_key(&entity) {
            proof {
                lemma_popped_is_held(nodes@, layer_map@.dom(), stack_before, stack@);
            }
        } else {
            let ghost path = choose|path: Seq<u64>|
                is_path_of(nodes@, root, (entity, inherited), path);
            let node = match nodes.get(&entity) {
                Some(node) => node,
                None => {
                    proof {
                        assert(descends_from(nodes@, root, entity));
                    }
                    return false;
                },
            };
            let source = if node.layer.is_some() {
                entity
            } else {
                inherited
            };
            proof {
                lemma_source_has_layer(nodes@, path);
            }
            let layer = nodes.get(&source).unwrap().layer.as_ref().unwrap().clone();
            layer_map.insert(entity, layer);
            proof {
                assert(descends_to(nodes@, path, entity));
                assert(descends_from(nodes@, root, entity));
                assert(is_effective_layer(nodes@, entity, layer_map@[entity]));
                assert forall|e: u64| layer_map@.contains_key(e) implies is_effective_layer(
                    nodes@,
                    e,
                    #[trigger] layer_map@[e],
                ) by {
                    if e != entity {
                        assert(layer_map@[e] == map_before[e]);
                    }
                }
                nodes@.dom().lemma_set_insert_diff_decreases(map_before.dom(), entity);
                assert(layer_map@.dom() =~= map_before.dom().insert(entity));
            }
            let ghost stack_popped = stack@;
            let children = &node.children;
            for k in 0..children.len()
                invariant
                    children@ == nodes@[entity].children@,
                    stack@.len() == stack_popped.len() + k,
                    stack@.take(stack_popped.len() as int) == stack_popped,
                    forall|j: int|
                        0 <= j < k ==> #[trigger] stack@[stack_popped.len() + j] == (
                            children@[j],
                            source,
                        ),
            {
                let ghost stack_was = stack@;
                stack.push((children[k], source));
                proof {
                    assert(stack@.take(stack_popped.len() as int) =~= stack_was.take(
                        stack_popped.len() as int,
                    ));
                    assert forall|j: int| 0 <= j < k + 1 implies #[trigger] stack@[stack_popped.len()
                        + j] == (children@[j], source) by {
                        if j < k {
                            assert(stack@[stack_popped.len() + j] == stack_was[stack_popped.len()
                                + j]);
                        }
                    }
                }
            }
            proof {
                lemma_visit_keeps_invariants(
                    nodes@,
                    root,
                    map_before.dom(),
                    stack_before,
                    stack@,
                    path,
                    entity,
                    source,
                );
            }
        }
    }
    proof {
        assert(!on_stack(stack@, root));
        let held = layer_map@.dom();
        assert forall|e: u64, k: int|
            held.contains(e) && 0 <= k < nodes@[e].children@.len() implies held.contains(
            #[trigger] child_at(nodes@, e, k),
        ) by {
            assert(!on_stack(stack@, child_at(nodes@, e, k)));
        }
        assert forall|e: u64| descends_from(nodes@, root, e) implies held.contains(e) by {
            let path = choose|path: Seq<u64>|
                #[trigger] descends_to(nodes@, path, e) && path[0] == root;
            lemma_closed_holds_descent(nodes@, held, path);
        }
    }
    true
}

/// Dropping the top of the stack keeps the closure when the entity on top
/// is held already.
proof fn lemma_popped_is_held<L>(
    nodes: Map<u64, SceneNode<L>>,
    dom: Set<u64>,
    before: Seq<(u64, u64)>,
    after: Seq<(u64, u64)>,
)
    requires
        before.len() > 0,
        after == before.drop_last(),
        dom.contains(before.last().0),
        closed_up_to_stack(nodes, dom, before),
    ensures
        closed_up_to_stack(nodes, dom, after),
        forall|e: u64| on_stack(before, e) ==> dom.contains(e) || on_stack(after, e),
{
    assert forall|e: u64| on_stack(before, e) implies dom.contains(e) || on_stack(after, e) by {
        let i = choose|i: int| 0 <= i < before.len() && (#[trigger] before[i]).0 == e;
        if i < after.len() {
            assert(after[i].0 == e);
        }
    }
    assert forall|e: u64, k: int|
        dom.contains(e) && 0 <= k < nodes[e].children@.len() implies dom.contains(
        #[trigger] child_at(nodes, e, k),
    ) || on_stack(after, child_at(nodes, e, k)) by {
        assert(dom.contains(child_at(nodes, e, k)) || on_stack(before, child_at(nodes, e, k)));
    }
}

/// Recording `entity` and putting its children on the stack keeps the
/// closure, and every new stack entry stands for a descent.
proof fn lemma_visit_keeps_invariants<L>(
    nodes: Map<u64, SceneNode<L>>,
    root: u64,
    dom: Set<u64>,
    before: Seq<(u64, u64)>,
    after: Seq<(u64, u64)>,
    path: Seq<u64>,
    entity: u64,
    source: u64,
)
    requires
        before.len() > 0,
        before.last().0 == entity,
        nodes.contains_key(entity),
        descends_to(nodes, path, entity),
        path[0] == root,
        source == layer_source(nodes, path),
        closed_up_to_stack(nodes, dom, before),
        forall|i: int| 0 <= i < before.len() ==> is_pending(nodes, root, #[trigger] before[i]),
        after.len() == before.len() - 1 + nodes[entity].children@.len(),
        after.take(before.len() - 1) == before.drop_last(),
        forall|j: int|
            0 <= j < nodes[entity].children@.len() ==> #[trigger] after[before.len() - 1 + j] == (
                nodes[entity].children@[j],
                source,
            ),
    ensures
        closed_up_to_stack(nodes, dom.insert(entity), after),
        forall|i: int| 0 <= i < after.len() ==> is_pending(nodes, root, #[trigger] after[i]),
        forall|e: u64| on_stack(before, e) ==> e == entity || on_stack(after, e),
{
    let kept = before.len() - 1;
    assert forall|i: int| 0 <= i < kept implies #[trigger] after[i] == before[i] by {
        assert(after.take(kept)[i] == before.drop_last()[i]);
    }
    assert forall|e: u64| on_stack(before, e) implies e == entity || on_stack(after, e) by {
        let i = choose|i: int| 0 <= i < before.len() && (#[trigger] before[i]).0 == e;
        if i < kept {
            assert(after[i].0 == e);
        }
    }
    assert forall|i: int| 0 <= i < after.len() implies is_pending(
        nodes,
        root,
        #[trigger] after[i],
    ) by {
        if i < kept {
            assert(is_pending(nodes, root, before[i]));
        } else {
            let j = i - kept;
            let child = nodes[entity].children@[j];
            assert(after[kept + j] == (child, source));
            assert(child_at(nodes, entity, j) == child);
            lemma_descent_step(nodes, path, child);
            let longer = path.push(child);
            assert(longer[0] == path[0]);
            assert(is_path_of(nodes, root, after[i], longer));
        }
    }
    assert forall|e: u64, k: int|
        dom.insert(entity).contains(e) && 0 <= k < nodes[e].children@.len() implies dom.insert(
        entity,
    ).contains(#[trigger] child_at(nodes, e, k)) || on_stack(after, child_at(nodes, e, k)) by {
        let child = child_at(nodes, e, k);
        if e == entity {
            assert(after[kept + k].0 == child);
        } else {
            assert(dom.contains(child) || on_stack(before, child));
        }
    }
}

/// The effective layer of every covered entity, or `None` where a child
/// link on a descent leads to an entity that is not on record.
///
/// Inheritance starts at each entity without a parent that has a layer of
/// its own. An entity below it gets its own layer if it has one, or else
/// the layer that applies to its parent. Entities under no such root get no
/// entry.
pub fn checked_inherited_layers<L: Clone>(nodes: &HashMap<u64, SceneNode<L>>) -> (result: Option<
    HashMap<u64, L>,
>)
    ensures
        result is Some <==> links_intact(nodes@),
        result matches Some(layers) ==> is_inheritance(nodes@, layers@),
{
    broadcast use vstd::std_specs::hash::group_hash_axioms;

    let ids = entity_ids(nodes);
    let mut layers: HashMap<u64, L> = HashMap::new();
    for i in 0..ids.len()
        invariant
            ids@.to_set() == nodes@.dom(),
            closed_under_children(nodes@, layers@.dom()),
            forall|e: u64|
                layers@.contains_key(e) ==> is_effective_layer(nodes@, e, #[trigger] layers@[e]),
            forall|j: int|
                0 <= j < i && is_layered_root(nodes@, #[trigger] ids@[j]) ==> layers@.contains_key(
                    ids@[j],
                ),
    {
        let entity = ids[i];
        proof {
            assert(ids@.contains(ids@[i as int]));
            assert(ids@.to_set().contains(entity));
        }
        let node = nodes.get(&entity).unwrap();
        if !node.has_parent && node.layer.is_some() {
            let ghost held = layers@;
            if !propagate_layers_impl(entity, nodes, &mut layers) {
                proof {
                    let lost = choose|e: u64|
                        descends_from(nodes@, entity, e) && !nodes@.contains_key(e);
                    assert(covered(nodes@, lost));
                }
                return None;
            }
            proof {
                assert(descends_to(nodes@, seq![entity], entity));
                assert(descends_from(nodes@, entity, entity));
                assert forall|j: int|
                    0 <= j < i && is_layered_root(
                        nodes@,
                        #[trigger] ids@[j],
                    ) implies layers@.contains_key(ids@[j]) by {
                    assert(held.contains_key(ids@[j]));
                }
            }
        }
    }
    proof {
        assert forall|e: u64| covered(nodes@, e) implies layers@.contains_key(e) by {
            let path = choose|path: Seq<u64>| descends_to(nodes@, path, e);
            let root = path[0];
            assert(ids@.to_set().contains(root));
            assert(ids@.contains(root));
            let j = choose|j: int| 0 <= j < ids@.len() && ids@[j] == root;
            assert(is_layered_root(nodes@, ids@[j]));
            lemma_closed_holds_descent(nodes@, layers@.dom(), path);
        }
        assert forall|e: u64| layers@.contains_key(e) implies covered(nodes@, e) by {
            assert(is_effective_layer(nodes@, e, layers@[e]));
        }
    }
    Some(layers)
}

/// The effective layer of every covered entity.
///
/// The scene must hold every entity that a descent reaches, as
/// `checked_inherited_layers` tells.
pub fn inherited_layers<L: Clone>(nodes: &HashMap<u64, SceneNode<L>>) -> (layers: HashMap<u64, L>)
    requires
        links_intact(nodes@),
    ensures
        is_inheritance(nodes@, layers@),
{
    checked_inherited_layers(nodes).unwrap()
}

} // verus!
