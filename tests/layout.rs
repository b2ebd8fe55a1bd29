use reralcity::layout::{
    block_count, city_plan, decode_index, duplicate_count, encode_index, floor_sqrt_u64,
    perimeter_cell, place, Placement,
};

#[test]
fn floor_sqrt_values() {
    assert_eq!(floor_sqrt_u64(0), 0);
    assert_eq!(floor_sqrt_u64(1), 1);
    assert_eq!(floor_sqrt_u64(3), 1);
    assert_eq!(floor_sqrt_u64(4), 2);
    assert_eq!(floor_sqrt_u64(15), 3);
    assert_eq!(floor_sqrt_u64(16), 4);
    assert_eq!(floor_sqrt_u64(1_000_000), 1000);
    assert_eq!(floor_sqrt_u64(u64::MAX), 4_294_967_295);
}

#[test]
fn decode_first_rings() {
    assert_eq!(decode_index(0), (1, 0));
    assert_eq!(decode_index(7), (1, 7));
    assert_eq!(decode_index(8), (2, 0));
    assert_eq!(decode_index(23), (2, 15));
    assert_eq!(decode_index(24), (3, 0));
    assert_eq!(decode_index(47), (3, 23));
    assert_eq!(decode_index(48), (4, 0));
}

#[test]
fn decode_largest_index() {
    let (layer, offset) = decode_index(u64::MAX - 1);
    assert!(layer >= 1);
    assert!(offset < 8 * layer);
    assert_eq!(4 * layer * (layer - 1) + offset, u64::MAX - 1);
}

#[test]
fn encode_then_decode_round_trip() {
    for layer in 1u64..40 {
        for offset in 0..8 * layer {
            let i = encode_index(layer, offset);
            assert_eq!(i, 4 * layer * (layer - 1) + offset);
            assert_eq!(decode_index(i), (layer, offset));
        }
    }
}

#[test]
fn decode_then_encode_round_trip() {
    for i in 0u64..20_000 {
        let (layer, offset) = decode_index(i);
        assert_eq!(encode_index(layer, offset), i);
    }
}

#[test]
fn first_ring_walk() {
    let cells: Vec<(i64, i64)> = (0..8).map(|o| perimeter_cell(1, o)).collect();
    assert_eq!(
        cells,
        vec![(1, -1), (1, 0), (1, 1), (0, 1), (-1, 1), (-1, 0), (-1, -1), (0, -1)]
    );
}

#[test]
fn ring_walk_corners() {
    for layer in 1u64..20 {
        let l = layer as i64;
        assert_eq!(perimeter_cell(layer, 0), (l, -l));
        assert_eq!(perimeter_cell(layer, 2 * layer), (l, l));
        assert_eq!(perimeter_cell(layer, 4 * layer), (-l, l));
        assert_eq!(perimeter_cell(layer, 6 * layer), (-l, -l));
    }
}

#[test]
fn ring_walk_is_continuous_without_repeats() {
    for layer in 1u64..20 {
        let l = layer as i64;
        let cells: Vec<(i64, i64)> = (0..8 * layer).map(|o| perimeter_cell(layer, o)).collect();
        for (k, c) in cells.iter().enumerate() {
            assert_eq!(c.0.abs().max(c.1.abs()), l);
            let next = cells[(k + 1) % cells.len()];
            assert_eq!((c.0 - next.0).abs() + (c.1 - next.1).abs(), 1);
            for d in cells.iter().skip(k + 1) {
                assert_ne!(c, d);
            }
        }
    }
}

#[test]
fn each_ring_gets_eight_per_layer() {
    let layers: u64 = 6;
    let total = duplicate_count(layers);
    assert_eq!(total, 4 * 6 * 5);
    let mut per_layer = vec![0u64; layers as usize];
    for i in 0..total {
        let p = place(i);
        assert!(p.layer >= 1 && p.layer < layers);
        per_layer[p.layer as usize] += 1;
    }
    for l in 1..layers {
        assert_eq!(per_layer[l as usize], 8 * l);
    }
}

#[test]
fn place_matches_decode_and_walk() {
    assert_eq!(place(0), Placement { layer: 1, x: 1, y: -1 });
    assert_eq!(place(2), Placement { layer: 1, x: 1, y: 1 });
    assert_eq!(place(9), Placement { layer: 2, x: 2, y: -1 });
    assert_eq!(place(23), Placement { layer: 2, x: 1, y: -2 });
}

#[test]
fn block_counts() {
    assert_eq!(block_count(1), 1);
    assert_eq!(block_count(2), 9);
    assert_eq!(block_count(3), 25);
    assert_eq!(block_count(10), 361);
    for l in 1u64..100 {
        assert_eq!(block_count(l), 1 + duplicate_count(l));
    }
}

#[test]
fn city_plan_single_layer() {
    let plan = city_plan(1);
    assert_eq!(plan, vec![Placement { layer: 0, x: 0, y: 0 }]);
}

#[test]
fn city_plan_block_count_per_layers() {
    for layers in 1u64..12 {
        let plan = city_plan(layers);
        assert_eq!(plan.len() as u64, (2 * layers - 1) * (2 * layers - 1));
        assert_eq!(plan[0], Placement { layer: 0, x: 0, y: 0 });
        for (i, p) in plan.iter().skip(1).enumerate() {
            assert_eq!(*p, place(i as u64));
        }
    }
}

#[test]
fn city_plan_covers_the_square() {
    let layers: u64 = 4;
    let plan = city_plan(layers);
    let l = layers as i64 - 1;
    for x in -l..=l {
        for y in -l..=l {
            let hits = plan.iter().filter(|p| p.x == x && p.y == y).count();
            assert_eq!(hits, 1);
        }
    }
}
