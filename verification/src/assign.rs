use crate::depth::{
    lemma_band_is_base, lemma_below_by_parts, sort_key_of, DepthValue, RenderZCoordinate,
    ZIndexSortKey,
};
use crate::layer::{is_base_of, LayerIndex, SpriteLayerOptions};
use crate::sorting::{entity_ids, is_sorted, pair_le, sort_pairs};
use std::collections::HashMap;
use vstd::prelude::*;

verus! {

/// The vertical position of an entity: the one on record, or zero where
/// none is.
pub open spec fn position_of(positions: Map<u64, i64>, entity: u64) -> int {
    if positions.contains_key(entity) {
        positions[entity] as int
    } else {
        0
    }
}

/// `a` is drawn before `b` inside a band: it stands higher, or at the same
/// height with the smaller identity.
pub open spec fn sorts_before(positions: Map<u64, i64>, a: u64, b: u64) -> bool {
    position_of(positions, a) > position_of(positions, b) || (position_of(positions, a)
        == position_of(positions, b) && a < b)
}

/// The entities among `entities` that are drawn before `entity`.
pub open spec fn predecessors(entities: Set<u64>, positions: Map<u64, i64>, entity: u64) -> Set<
    u64,
> {
    entities.filter(|other: u64| sorts_before(positions, other, entity))
}

/// The place of `entity` among `entities` in drawing order, from zero.
pub open spec fn rank_of(entities: Set<u64>, positions: Map<u64, i64>, entity: u64) -> nat {
    predecessors(entities, positions, entity).len()
}

/// The depth of `entity`, whose layer's band starts at `base`, in a frame
/// that covers `entities`.
pub open spec fn depth_of(
    base: int,
    entities: Set<u64>,
    positions: Map<u64, i64>,
    y_sort: bool,
    entity: u64,
) -> DepthValue {
    if y_sort {
        DepthValue { base, rank: rank_of(entities, positions, entity), count: entities.len() }
    } else {
        DepthValue { base, rank: 0, count: 1 }
    }
}

/// The depths as numbers.
pub open spec fn depth_views(depths: Map<u64, RenderZCoordinate>) -> Map<u64, DepthValue> {
    depths.map_values(|z: RenderZCoordinate| z@)
}

/// The depth of every entity of `bases`, which gives the start of the band
/// of each entity's layer.
pub open spec fn depths_of(bases: Map<u64, i32>, positions: Map<u64, i64>, y_sort: bool) -> Map<
    u64,
    DepthValue,
> {
    Map::new(
        |e: u64| bases.contains_key(e),
        |e: u64| depth_of(bases[e] as int, bases.dom(), positions, y_sort, e),
    )
}

/// `depths` gives every entity of `layers` its depth, on a band start that
/// its layer answered.
pub open spec fn is_depth_assignment<L: LayerIndex>(
    layers: Map<u64, L>,
    positions: Map<u64, i64>,
    y_sort: bool,
    depths: Map<u64, DepthValue>,
) -> bool {
    &&& depths.dom() == layers.dom()
    &&& forall|e: u64|
        layers.contains_key(e) ==> is_base_of(layers[e], (#[trigger] depths[e]).base) && depths[e]
            == depth_of(depths[e].base, layers.dom(), positions, y_sort, e)
}

/// The entities of the first `i` pairs.
spec fn entities_before(s: Seq<(i64, u64)>, i: int) -> Set<u64> {
    Set::new(|e: u64| exists|j: int| 0 <= j < i && (#[trigger] s[j]).1 == e)
}

/// Each pair holds an entity and the key of its position.
spec fn keyed_by_position(s: Seq<(i64, u64)>, positions: Map<u64, i64>) -> bool {
    forall|j: int|
        0 <= j < s.len() ==> (#[trigger] s[j]).0 == sort_key_of(position_of(positions, s[j].1))
}

/// No entity stands in two pairs.
spec fn distinct_entities(s: Seq<(i64, u64)>) -> bool {
    forall|j: int, k: int| 0 <= j < k < s.len() ==> (#[trigger] s[j]).1 != (#[trigger] s[k]).1
}

proof fn lemma_entities_before_len(s: Seq<(i64, u64)>, i: int)
    requires
        0 <= i <= s.len(),
        distinct_entities(s),
    ensures
        entities_before(s, i).finite(),
        entities_before(s, i).len() == i,
    decreases i,
{
    if i == 0 {
        assert(entities_before(s, 0) =~= Set::<u64>::empty());
    } else {
        lemma_entities_before_len(s, i - 1);
        let prev = entities_before(s, i - 1);
        let e = s[i - 1].1;
        assert(!prev.contains(e));
        assert forall|x: u64| entities_before(s, i).contains(x) == prev.insert(e).contains(
            x,
        ) by {
            if entities_before(s, i).contains(x) {
                let j = choose|j: int| 0 <= j < i && (#[trigger] s[j]).1 == x;
                if j < i - 1 {
                    assert(prev.contains(x));
                }
            }
            if prev.contains(x) {
                let j = choose|j: int| 0 <= j < i - 1 && (#[trigger] s[j]).1 == x;
                assert(0 <= j < i && s[j].1 == x);
            }
            if x == e {
                assert(0 <= i - 1 < i && s[i - 1].1 == x);
            }
        }
        assert(entities_before(s, i) =~= prev.insert(e));
    }
}

/// In a sorted run of pairs keyed by position, a pair's index is the rank of
/// its entity.
proof fn lemma_index_is_rank(
    s: Seq<(i64, u64)>,
    entities: Set<u64>,
    positions: Map<u64, i64>,
    i: int,
)
    requires
        0 <= i < s.len(),
        is_sorted(s),
        distinct_entities(s),
        keyed_by_position(s, positions),
        entities == entities_before(s, s.len() as int),
    ensures
        rank_of(entities, positions, s[i].1) == i,
{
    let e = s[i].1;
    let before = predecessors(entities, positions, e);
    assert forall|x: u64| before.contains(x) == entities_before(s, i).contains(x) by {
        if before.contains(x) {
            let j = choose|j: int| 0 <= j < s.len() && (#[trigger] s[j]).1 == x;
            if j >= i {
                assert(pair_le(s[i], s[j]));
            }
            assert(0 <= j < i && s[j].1 == x);
        }
        if entities_before(s, i).contains(x) {
            let j = choose|j: int| 0 <= j < i && (#[trigger] s[j]).1 == x;
            assert(0 <= j < s.len() && s[j].1 == x);
            assert(pair_le(s[j], s[i]));
            assert(s[j].1 != s[i].1);
        }
    }
    assert(before =~= entities_before(s, i));
    lemma_entities_before_len(s, i);
}

/// What sorting keeps: the sorted pairs are still keyed by position, hold
/// each entity once, and hold exactly the entities that were there.
proof fn lemma_sorted_pairs(
    unsorted: Seq<(i64, u64)>,
    sorted: Seq<(i64, u64)>,
    ids: Seq<u64>,
    positions: Map<u64, i64>,
)
    requires
        ids.no_duplicates(),
        unsorted.len() == ids.len(),
        forall|j: int|
            0 <= j < ids.len() ==> #[trigger] unsorted[j] == (
                sort_key_of(position_of(positions, ids[j])) as i64,
                ids[j],
            ),
        sorted.to_multiset() == unsorted.to_multiset(),
    ensures
        sorted.len() == ids.len(),
        keyed_by_position(sorted, positions),
        distinct_entities(sorted),
        entities_before(sorted, sorted.len() as int) == ids.to_set(),
{
    broadcast use vstd::seq_lib::group_to_multiset_ensures;

    assert(sorted.len() == unsorted.len()) by {
        unsorted.to_multiset_ensures();
        sorted.to_multiset_ensures();
    }
    assert(unsorted.no_duplicates());
    unsorted.lemma_multiset_has_no_duplicates();
    sorted.lemma_multiset_has_no_duplicates_conv();
    assert forall|j: int| 0 <= j < sorted.len() implies unsorted.contains(#[trigger] sorted[j]) by {
        assert(sorted.contains(sorted[j]));
        assert(sorted.to_multiset().count(sorted[j]) > 0);
    }
    assert forall|j: int| 0 <= j < sorted.len() implies (#[trigger] sorted[j]).0 == sort_key_of(
        position_of(positions, sorted[j].1),
    ) by {
        assert(unsorted.contains(sorted[j]));
        let k = choose|k: int| 0 <= k < unsorted.len() && unsorted[k] == sorted[j];
        assert(unsorted[k] == (sort_key_of(position_of(positions, ids[k])) as i64, ids[k]));
    }
    assert forall|j: int, k: int| 0 <= j < k < sorted.len() implies (#[trigger] sorted[j]).1 != (
    #[trigger] sorted[k]).1 by {
        if sorted[j].1 == sorted[k].1 {
            assert(sorted[j].0 == sorted[k].0);
            assert(sorted[j] == sorted[k]);
        }
    }
    let all = entities_before(sorted, sorted.len() as int);
    assert forall|x: u64| all.contains(x) == ids.to_set().contains(x) by {
        if all.contains(x) {
            let j = choose|j: int| 0 <= j < sorted.len() && (#[trigger] sorted[j]).1 == x;
            assert(unsorted.contains(sorted[j]));
            let k = choose|k: int| 0 <= k < unsorted.len() && unsorted[k] == sorted[j];
            assert(ids[k] == x);
            assert(ids.contains(x));
        }
        if ids.to_set().contains(x) {
            assert(ids.contains(x));
            let k = choose|k: int| 0 <= k < ids.len() && ids[k] == x;
            assert(unsorted.contains(unsorted[k]));
            assert(unsorted.to_multiset().count(unsorted[k]) > 0);
            assert(sorted.contains(unsorted[k]));
            let j = choose|j: int| 0 <= j < sorted.len() && sorted[j] == unsorted[k];
            assert(sorted[j].1 == x);
        }
    }
    assert(all =~= ids.to_set());
}

/// The rank of an entity is smaller than the number of entities.
pub proof fn lemma_rank_below_count(entities: Set<u64>, positions: Map<u64, i64>, entity: u64)
    requires
        entities.finite(),
        entities.contains(entity),
    ensures
        rank_of(entities, positions, entity) < entities.len(),
{
    let before = predecessors(entities, positions, entity);
    assert(before.subset_of(entities.remove(entity)));
    vstd::set_lib::lemma_len_subset(before, entities.remove(entity));
}

/// An entity that is drawn before another has the smaller rank.
pub proof fn lemma_rank_follows_order(
    entities: Set<u64>,
    positions: Map<u64, i64>,
    a: u64,
    b: u64,
)
    requires
        entities.finite(),
        entities.contains(a),
        sorts_before(positions, a, b),
    ensures
        rank_of(entities, positions, a) < rank_of(entities, positions, b),
{
    let before_a = predecessors(entities, positions, a);
    let before_b = predecessors(entities, positions, b);
    assert(before_a.subset_of(before_b));
    assert(before_b.subset_of(entities));
    vstd::set_lib::lemma_set_subset_finite(entities, before_b);
    before_a.lemma_subset_not_in_lt(before_b, a);
}

/// Layers keep their order: an entity on a layer with the lower band start
/// has the strictly smaller depth, wherever the two entities stand.
pub proof fn lemma_layer_monotonicity(
    base_a: int,
    base_b: int,
    entities: Set<u64>,
    positions: Map<u64, i64>,
    y_sort: bool,
    a: u64,
    b: u64,
)
    requires
        entities.finite(),
        entities.contains(a),
        entities.contains(b),
        base_a < base_b,
    ensures
        depth_of(base_a, entities, positions, y_sort, a).below(
            depth_of(base_b, entities, positions, y_sort, b),
        ),
{
    lemma_rank_below_count(entities, positions, a);
    lemma_rank_below_count(entities, positions, b);
    lemma_below_by_parts(
        depth_of(base_a, entities, positions, y_sort, a),
        depth_of(base_b, entities, positions, y_sort, b),
    );
}

/// With ordering by position, of two entities on layers with one band start
/// the one that stands higher has the strictly smaller depth; no two
/// entities of one band have the same depth.
pub proof fn lemma_within_layer_ordering(
    base: int,
    entities: Set<u64>,
    positions: Map<u64, i64>,
    a: u64,
    b: u64,
)
    requires
        entities.finite(),
        entities.contains(a),
        entities.contains(b),
    ensures
        position_of(positions, a) > position_of(positions, b) ==> depth_of(
            base,
            entities,
            positions,
            true,
            a,
        ).below(depth_of(base, entities, positions, true, b)),
        a != b ==> !depth_of(base, entities, positions, true, a).same_depth(
            depth_of(base, entities, positions, true, b),
        ),
{
    let da = depth_of(base, entities, positions, true, a);
    let db = depth_of(base, entities, positions, true, b);
    let n = entities.len() as int;
    lemma_rank_below_count(entities, positions, a);
    lemma_rank_below_count(entities, positions, b);
    lemma_below_by_parts(da, db);
    if sorts_before(positions, a, b) {
        lemma_rank_follows_order(entities, positions, a, b);
        assert(da.rank * n < db.rank * n) by (nonlinear_arith)
            requires
                da.rank < db.rank,
                n > 0,
        ;
    } else if a != b {
        assert(sorts_before(positions, b, a));
        lemma_rank_follows_order(entities, positions, b, a);
        assert(db.rank * n < da.rank * n) by (nonlinear_arith)
            requires
                db.rank < da.rank,
                n > 0,
        ;
    }
}

/// Every depth lies in the band of its layer: at or above the band's start
/// and below the start plus one.
pub proof fn lemma_offset_bound(
    base: int,
    entities: Set<u64>,
    positions: Map<u64, i64>,
    y_sort: bool,
    entity: u64,
)
    requires
        entities.finite(),
        entities.contains(entity),
    ensures
        depth_of(base, entities, positions, y_sort, entity).well_formed(),
        depth_of(base, entities, positions, y_sort, entity).in_band(base),
{
    lemma_rank_below_count(entities, positions, entity);
    lemma_band_is_base(depth_of(base, entities, positions, y_sort, entity), base);
}

/// Without ordering by position the depth is the band's start itself, so
/// entities on layers with one band start have one depth.
pub proof fn lemma_disabled_mode_collapse(
    base: int,
    entities: Set<u64>,
    positions: Map<u64, i64>,
    a: u64,
    b: u64,
)
    ensures
        depth_of(base, entities, positions, false, a) == depth_of(
            base,
            entities,
            positions,
            false,
            b,
        ),
        depth_of(base, entities, positions, false, a).numerator() == base * depth_of(
            base,
            entities,
            positions,
            false,
            a,
        ).count,
{
}

/// The position on record for `entity`, or zero.
fn position_or_zero(positions: &HashMap<u64, i64>, entity: u64) -> (y: i64)
    ensures
        y == position_of(positions@, entity),
{
    broadcast use vstd::std_specs::hash::group_hash_axioms;

    match positions.get(&entity) {
        Some(y) => *y,
        None => 0,
    }
}

/// Assigns a depth to every entity of `bases`, which gives the start of the
/// band of each entity's layer.
///
/// With `y_sort`, the entities are put in one order, higher positions first
/// and equal positions by identity, and the entity at place `i` of `n` gets
/// the fraction `i / n`. Without it every entity gets the start of its band.
/// An entity without a position on record counts as standing at zero.
pub fn assign_depths(
    bases: &HashMap<u64, i32>,
    positions: &HashMap<u64, i64>,
    options: &SpriteLayerOptions,
) -> (depths: HashMap<u64, RenderZCoordinate>)
    ensures
        depth_views(depths@) == depths_of(bases@, positions@, options.y_sort),
{
    broadcast use vstd::std_specs::hash::group_hash_axioms;

    let ids = entity_ids(bases);
    let n = ids.len();
    let mut depths: HashMap<u64, RenderZCoordinate> = HashMap::new();
    if options.y_sort {
        let mut pairs: Vec<(i64, u64)> = Vec::new();
        for i in 0..n
            invariant
                n == ids@.len(),
                pairs@.len() == i,
                forall|j: int|
                    0 <= j < i ==> #[trigger] pairs@[j] == (
                        sort_key_of(position_of(positions@, ids@[j])) as i64,
                        ids@[j],
                    ),
        {
            let entity = ids[i];
            let key = ZIndexSortKey::new(position_or_zero(positions, entity));
            pairs.push((key.value(), entity));
        }
        let ghost unsorted = pairs@;
        sort_pairs(&mut pairs, options.parallel_y_sort);
        proof {
            lemma_sorted_pairs(unsorted, pairs@, ids@, positions@);
        }
        for i in 0..n
            invariant
                n == pairs@.len(),
                n == bases@.dom().len(),
                is_sorted(pairs@),
                distinct_entities(pairs@),
                keyed_by_position(pairs@, positions@),
                entities_before(pairs@, n as int) == bases@.dom(),
                depths@.dom() == entities_before(pairs@, i as int),
                forall|e: u64|
                    depths@.contains_key(e) ==> (#[trigger] depths@[e])@ == depth_of(
                        bases@[e] as int,
                        bases@.dom(),
                        positions@,
                        true,
                        e,
                    ),
        {
            let entity = pairs[i].1;
            proof {
                assert(entities_before(pairs@, n as int).contains(pairs@[i as int].1));
                lemma_index_is_rank(pairs@, bases@.dom(), positions@, i as int);
            }
            let base = *bases.get(&entity).unwrap();
            let ghost before = depths@;
            depths.insert(entity, RenderZCoordinate::new(base, i, n));
            proof {
                assert forall|x: u64|
                    depths@.dom().contains(x) == entities_before(pairs@, i + 1).contains(x) by {
                    if entities_before(pairs@, i + 1).contains(x) {
                        let j = choose|j: int| 0 <= j < i + 1 && (#[trigger] pairs@[j]).1 == x;
                        if j < i {
                            assert(entities_before(pairs@, i as int).contains(x));
                        }
                    }
                    if before.dom().contains(x) {
                        let j = choose|j: int| 0 <= j < i && (#[trigger] pairs@[j]).1 == x;
                        assert(0 <= j < i + 1 && pairs@[j].1 == x);
                    }
                    if x == entity {
                        assert(0 <= i < i + 1 && pairs@[i as int].1 == x);
                    }
                }
                assert(depths@.dom() =~= entities_before(pairs@, i + 1));
            }
        }
    } else {
        for i in 0..n
            invariant
                n == ids@.len(),
                ids@.to_set() == bases@.dom(),
                depths@.dom() == ids@.take(i as int).to_set(),
                forall|e: u64|
                    depths@.contains_key(e) ==> (#[trigger] depths@[e])@ == depth_of(
                        bases@[e] as int,
                        bases@.dom(),
                        positions@,
                        false,
                        e,
                    ),
        {
            let entity = ids[i];
            proof {
                assert(ids@.contains(ids@[i as int]));
                assert(ids@.to_set().contains(entity));
            }
            let base = *bases.get(&entity).unwrap();
            depths.insert(entity, RenderZCoordinate::at_base(base));
            proof {
                assert(ids@.take(i + 1) =~= ids@.take(i as int).push(entity));
                ids@.take(i as int).lemma_push_to_set_commute(entity);
            }
        }
        proof {
            assert(ids@.take(n as int) =~= ids@);
        }
    }
    proof {
        assert(depth_views(depths@) =~= depths_of(bases@, positions@, options.y_sort));
    }
    depths
}

/// Assigns a depth to every entity of `layers`, the effective layer of each
/// covered entity: `assign_depths` on the starts of the layers' bands, each
/// asked of the layer once.
pub fn compute_render_z_coordinates<L: LayerIndex>(
    layers: &HashMap<u64, L>,
    positions: &HashMap<u64, i64>,
    options: &SpriteLayerOptions,
) -> (depths: HashMap<u64, RenderZCoordinate>)
    ensures
        is_depth_assignment(layers@, positions@, options.y_sort, depth_views(depths@)),
{
    broadcast use vstd::std_specs::hash::group_hash_axioms;

    let ids = entity_ids(layers);
    let mut bases: HashMap<u64, i32> = HashMap::new();
    for i in 0..ids.len()
        invariant
            ids@.to_set() == layers@.dom(),
            bases@.dom() == ids@.take(i as int).to_set(),
            forall|e: u64|
                bases@.contains_key(e) ==> layers@.contains_key(e) && is_base_of(
                    layers@[e],
                    #[trigger] bases@[e] as int,
                ),
    {
        let entity = ids[i];
        proof {
            assert(ids@.contains(ids@[i as int]));
            assert(ids@.to_set().contains(entity));
        }
        let layer = layers.get(&entity).unwrap();
        let base = layer.as_z_coordinate();
        bases.insert(entity, base);
        proof {
            assert(ids@.take(i + 1) =~= ids@.take(i as int).push(entity));
            ids@.take(i as int).lemma_push_to_set_commute(entity);
        }
    }
    proof {
        assert(ids@.take(ids@.len() as int) =~= ids@);
    }
    let depths = assign_depths(&bases, positions, options);
    proof {
        let views = depth_views(depths@);
        assert(views.dom() =~= layers@.dom());
        assert forall|e: u64| layers@.contains_key(e) implies is_base_of(
            layers@[e],
            (#[trigger] views[e]).base,
        ) && views[e] == depth_of(views[e].base, layers@.dom(), positions@, options.y_sort, e) by {
            assert(bases@.contains_key(e));
            assert(is_base_of(layers@[e], bases@[e] as int));
        }
    }
    depths
}

} // verus!
