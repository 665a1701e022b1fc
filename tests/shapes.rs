use kluring::bag::ShapeBag;
use kluring::shape::{orient_tiles, Permutation, Shape, ShapePermutation, PERMUTATIONS};
use kluring::tile::{GlobalPos, CHUNK_SIZE};

fn pos(x: i32, y: i32) -> GlobalPos {
    GlobalPos { x, y }
}

#[test]
fn permutation_from_index_splits_rotation_and_flip() {
    for i in 0..PERMUTATIONS {
        let p = Permutation::from_index(i);
        assert_eq!(p.rotation, i % 4);
        assert_eq!(p.flipped, i >= 4);
    }
}

#[test]
fn mask_is_read_row_by_row() {
    let s = Shape::from_string(3, " X\nXX\n\tX");
    assert_eq!(s.index, 3);
    assert_eq!(s.tiles, vec![pos(1, 0), pos(0, 1), pos(1, 1), pos(1, 2)]);
}

#[test]
fn catalog_first_shape_offsets() {
    let bag = ShapeBag::load(1);
    let p = ShapePermutation { index: 0, permutation: Permutation { rotation: 0, flipped: false } };
    assert_eq!(
        bag.iter_pos(&p),
        vec![pos(0, 0), pos(0, 1), pos(0, 2), pos(0, 3), pos(1, 3), pos(0, 4), pos(0, 5), pos(1, 5)]
    );
}

#[test]
fn quarter_turn_is_counter_clockwise() {
    let tiles = vec![pos(1, 0), pos(2, 3)];
    let r1 = orient_tiles(&tiles, Permutation { rotation: 1, flipped: false });
    assert_eq!(r1, vec![pos(0, 1), pos(-3, 2)]);
    let r2 = orient_tiles(&tiles, Permutation { rotation: 2, flipped: false });
    assert_eq!(r2, vec![pos(-1, 0), pos(-2, -3)]);
    let r3 = orient_tiles(&tiles, Permutation { rotation: 3, flipped: false });
    assert_eq!(r3, vec![pos(0, -1), pos(3, -2)]);
}

#[test]
fn flip_mirrors_after_rotation() {
    let tiles = vec![pos(1, 0), pos(2, 3)];
    let r = orient_tiles(&tiles, Permutation { rotation: 1, flipped: true });
    assert_eq!(r, vec![pos(0, 1), pos(3, 2)]);
}

#[test]
fn rotation_then_remaining_turns_restores_every_shape() {
    let bag = ShapeBag::load(1);
    for index in 0..bag.len() {
        let upright = ShapePermutation { index, permutation: Permutation { rotation: 0, flipped: false } };
        let unturned = bag.iter_pos(&upright);
        for r in 0..4u8 {
            let turned = bag.iter_pos(&ShapePermutation {
                index,
                permutation: Permutation { rotation: r, flipped: false },
            });
            let back = orient_tiles(&turned, Permutation { rotation: (4 - r) % 4, flipped: false });
            assert_eq!(back, unturned);
        }
    }
}

#[test]
fn double_flip_restores_every_shape() {
    let bag = ShapeBag::load(1);
    for index in 0..bag.len() {
        let upright = ShapePermutation { index, permutation: Permutation { rotation: 0, flipped: false } };
        let unturned = bag.iter_pos(&upright);
        let flip = Permutation { rotation: 0, flipped: true };
        let once = orient_tiles(&unturned, flip);
        assert_ne!(once, unturned);
        assert_eq!(orient_tiles(&once, flip), unturned);
    }
}

#[test]
fn bag_reset_sets_every_count() {
    let mut bag = ShapeBag::load(1);
    assert_eq!(bag.len(), 6);
    bag.reset(7);
    for i in 0..bag.len() {
        assert_eq!(bag.remaining(i), 7);
    }
    bag.reset(0);
    for i in 0..bag.len() {
        assert_eq!(bag.remaining(i), 0);
    }
}

#[test]
fn try_pop_stops_at_zero() {
    let mut bag = ShapeBag::load(2);
    assert!(bag.try_pop(4));
    assert_eq!(bag.remaining(4), 1);
    assert!(bag.try_pop(4));
    assert_eq!(bag.remaining(4), 0);
    assert!(!bag.try_pop(4));
    assert_eq!(bag.remaining(4), 0);
    assert_eq!(bag.remaining(3), 2);
}

#[test]
fn depleted_shape_is_not_available() {
    let mut bag = ShapeBag::load(1);
    assert_eq!(bag.iter_available(), vec![0, 1, 2, 3, 4, 5]);
    assert!(bag.try_pop(2));
    assert_eq!(bag.iter_available(), vec![0, 1, 3, 4, 5]);
    bag.reset(0);
    assert_eq!(bag.iter_available(), Vec::<usize>::new());
}

#[test]
fn draw_selects_shape_modulo_catalog() {
    let mut bag = ShapeBag::load(1);
    let p = bag.permutation_from_draw(13, true, 7).unwrap();
    assert_eq!(p.index, 1);
    assert_eq!(p.permutation, Permutation { rotation: 3, flipped: true });
    assert!(bag.try_pop(1));
    assert_eq!(bag.permutation_from_draw(13, true, 7), None);
    assert_eq!(bag.permutation_from_draw(7, false, 2).map(|p| p.index), None);
    assert_eq!(bag.permutation_from_draw(6, false, 2).map(|p| p.index), Some(0));
}

#[test]
fn random_draw_names_an_available_shape() {
    let mut bag = ShapeBag::load(1);
    for i in 0..5 {
        assert!(bag.try_pop(i));
    }
    for _ in 0..50 {
        if let Some(p) = bag.get_random_permutation() {
            assert_eq!(p.index, 5);
            assert!(p.permutation.rotation < 4);
        }
    }
}

#[test]
fn bag_from_shapes_checks_indices() {
    let good = vec![Shape::from_string(0, "X"), Shape::from_string(1, "XX")];
    let bag = ShapeBag::with_shapes(good, 4).unwrap();
    assert_eq!(bag.len(), 2);
    assert_eq!(bag.remaining(1), 4);
    let bad = vec![Shape::from_string(1, "X")];
    assert!(ShapeBag::with_shapes(bad, 4).is_none());
    assert!(ShapeBag::with_shapes(Vec::new(), 4).is_none());
    let extreme = vec![Shape { index: 0, tiles: vec![GlobalPos { x: i32::MIN, y: 0 }] }];
    assert!(ShapeBag::with_shapes(extreme, 4).is_none());
}

#[test]
fn chunk_position_is_euclidean() {
    let size = CHUNK_SIZE as i32;
    assert_eq!(pos(70, 5).to_chunk_pos(), ((1, 0), (6, 5)));
    assert_eq!(pos(-1, -64).to_chunk_pos(), ((-1, -1), (63, 0)));
    assert_eq!(pos(-65, 63).to_chunk_pos(), ((-2, 0), (63, 63)));
    assert_eq!(GlobalPos::from_chunk_tile((-2, 0), (63, 63)), pos(-65, 63));
    assert_eq!(GlobalPos::from_chunk_tile((1, -1), (0, 1)), pos(size, 1 - size));
}

#[test]
fn cell_arithmetic() {
    assert_eq!(pos(3, -2).add(pos(-5, 7)), pos(-2, 5));
    assert_eq!(pos(3, -2).sub(pos(-5, 7)), pos(8, -9));
}
