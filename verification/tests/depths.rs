use extol_sprite_layer::{
    assign_depths, compute_render_z_coordinates, LayerIndex, RenderZCoordinate,
    SpriteLayerOptions, ZIndexSortKey,
};
use std::collections::HashMap;

fn parts(z: &RenderZCoordinate) -> (i32, usize, usize) {
    (z.base(), z.rank(), z.count())
}

#[derive(Clone, Debug, PartialEq)]
struct Named(String, i32);

impl LayerIndex for Named {
    fn as_z_coordinate(&self) -> i32 {
        self.1
    }
}

#[test]
fn higher_positions_come_first() {
    let bases: HashMap<u64, i32> = [(1, 0), (2, 0), (3, 5)].into_iter().collect();
    let positions: HashMap<u64, i64> = [(1, -10), (2, 30), (3, 7)].into_iter().collect();
    for parallel in [false, true] {
        let options = SpriteLayerOptions { y_sort: true, parallel_y_sort: parallel };
        let depths = assign_depths(&bases, &positions, &options);
        assert_eq!(depths.len(), 3);
        assert_eq!(parts(&depths[&2]), (0, 0, 3));
        assert_eq!(parts(&depths[&3]), (5, 1, 3));
        assert_eq!(parts(&depths[&1]), (0, 2, 3));
    }
}

#[test]
fn sorting_reorders_many_entities() {
    let n: u64 = 5000;
    let bases: HashMap<u64, i32> = (0..n).map(|e| (e, (e % 3) as i32)).collect();
    // the position grows with the identity, so the order is the reverse
    let positions: HashMap<u64, i64> = (0..n).map(|e| (e, e as i64 * 2 - 3000)).collect();
    for parallel in [false, true] {
        let options = SpriteLayerOptions { y_sort: true, parallel_y_sort: parallel };
        let depths = assign_depths(&bases, &positions, &options);
        assert_eq!(depths.len(), n as usize);
        for e in 0..n {
            assert_eq!(parts(&depths[&e]), ((e % 3) as i32, (n - 1 - e) as usize, n as usize));
        }
    }
}

#[test]
fn missing_position_counts_as_zero() {
    let bases: HashMap<u64, i32> = [(10, 1), (11, 1), (12, 1)].into_iter().collect();
    let positions: HashMap<u64, i64> = [(10, 1), (12, -1)].into_iter().collect();
    let depths = assign_depths(&bases, &positions, &SpriteLayerOptions::default());
    assert_eq!(parts(&depths[&10]), (1, 0, 3));
    assert_eq!(parts(&depths[&11]), (1, 1, 3));
    assert_eq!(parts(&depths[&12]), (1, 2, 3));
}

#[test]
fn equal_positions_are_ordered_by_identity() {
    let bases: HashMap<u64, i32> = [(7, 0), (3, 0), (5, 0), (4, 0)].into_iter().collect();
    let positions: HashMap<u64, i64> = [(7, 2), (3, 2), (5, 2), (4, 9)].into_iter().collect();
    let depths = assign_depths(&bases, &positions, &SpriteLayerOptions::default());
    assert_eq!(parts(&depths[&4]), (0, 0, 4));
    assert_eq!(parts(&depths[&3]), (0, 1, 4));
    assert_eq!(parts(&depths[&5]), (0, 2, 4));
    assert_eq!(parts(&depths[&7]), (0, 3, 4));
}

#[test]
fn extreme_positions_are_ordered() {
    let bases: HashMap<u64, i32> = [(1, 0), (2, 0), (3, 0)].into_iter().collect();
    let positions: HashMap<u64, i64> = [(1, i64::MIN), (2, i64::MAX), (3, 0)].into_iter().collect();
    let depths = assign_depths(&bases, &positions, &SpriteLayerOptions::default());
    assert_eq!(depths[&2].rank(), 0);
    assert_eq!(depths[&3].rank(), 1);
    assert_eq!(depths[&1].rank(), 2);
}

#[test]
fn disabled_sorting_ignores_positions() {
    let bases: HashMap<u64, i32> = [(1, -4), (2, 9)].into_iter().collect();
    let positions: HashMap<u64, i64> = [(1, 100), (2, -100)].into_iter().collect();
    let options = SpriteLayerOptions { y_sort: false, parallel_y_sort: true };
    let depths = assign_depths(&bases, &positions, &options);
    assert_eq!(parts(&depths[&1]), (-4, 0, 1));
    assert_eq!(parts(&depths[&2]), (9, 0, 1));
}

#[test]
fn no_entities_no_depths() {
    let bases: HashMap<u64, i32> = HashMap::new();
    let positions: HashMap<u64, i64> = [(1, 100)].into_iter().collect();
    assert!(assign_depths(&bases, &positions, &SpriteLayerOptions::default()).is_empty());
}

#[test]
fn single_entity_gets_the_band_start() {
    let bases: HashMap<u64, i32> = [(42, 3)].into_iter().collect();
    let depths = assign_depths(&bases, &HashMap::new(), &SpriteLayerOptions::default());
    assert_eq!(parts(&depths[&42]), (3, 0, 1));
}

#[test]
fn layers_are_asked_for_their_band() {
    let layers: HashMap<u64, Named> = [
        (1, Named("ground".to_string(), 0)),
        (2, Named("sky".to_string(), 20)),
        (3, Named("ground".to_string(), 0)),
    ]
    .into_iter()
    .collect();
    let positions: HashMap<u64, i64> = [(1, 5), (2, 6), (3, 7)].into_iter().collect();
    let depths = compute_render_z_coordinates(&layers, &positions, &SpriteLayerOptions::default());
    assert_eq!(parts(&depths[&3]), (0, 0, 3));
    assert_eq!(parts(&depths[&2]), (20, 1, 3));
    assert_eq!(parts(&depths[&1]), (0, 2, 3));
    let flat = compute_render_z_coordinates(
        &layers,
        &positions,
        &SpriteLayerOptions { y_sort: false, parallel_y_sort: false },
    );
    assert_eq!(parts(&flat[&2]), (20, 0, 1));
}

#[test]
fn sort_key_runs_against_position() {
    assert!(ZIndexSortKey::new(5).value() < ZIndexSortKey::new(4).value());
    assert!(ZIndexSortKey::new(5) < ZIndexSortKey::new(4));
    assert_eq!(ZIndexSortKey::new(3), ZIndexSortKey::new(3));
    assert_eq!(ZIndexSortKey::new(0).value(), -1);
    assert_eq!(ZIndexSortKey::new(i64::MAX).value(), i64::MIN);
    assert_eq!(ZIndexSortKey::new(i64::MIN).value(), i64::MAX);
}

#[test]
fn depths_compare_as_numbers() {
    let third = RenderZCoordinate::new(1, 1, 3);
    let half = RenderZCoordinate::new(1, 1, 2);
    let two_quarters = RenderZCoordinate::new(1, 2, 4);
    assert!(third < half);
    assert!(half > third);
    assert!(third.is_below(&half));
    assert!(!half.is_below(&two_quarters));
    assert_eq!(half, two_quarters);
    assert!(half.is_same_depth(&two_quarters));
    assert_ne!(third, half);
    assert!(RenderZCoordinate::new(-1, 9, 10) < RenderZCoordinate::at_base(0));
    assert!(RenderZCoordinate::new(0, usize::MAX - 1, usize::MAX) < RenderZCoordinate::at_base(1));
    assert!(
        RenderZCoordinate::new(0, usize::MAX - 2, usize::MAX - 1)
            < RenderZCoordinate::new(0, usize::MAX - 1, usize::MAX)
    );
    assert_eq!(parts(&RenderZCoordinate::at_base(7)), (7, 0, 1));
}

#[test]
fn options_default_to_sorting() {
    let options = SpriteLayerOptions::default();
    assert!(options.y_sort);
    assert!(!options.parallel_y_sort);
}
