use kluring::bag::ShapeBag;
use kluring::board::{iter_moore, key, BoardState, Bounds, PlaceShapeEvent, BLOCKED, SEED_X, SEED_Y, WORLD_LIMIT};
use kluring::scoring::distance_score;
use kluring::shape::{Permutation, Shape, ShapePermutation};
use kluring::tile::GlobalPos;
use kluring::ui::{restock_count, statewidget_render, InputFieldsState};

fn pos(x: i32, y: i32) -> GlobalPos {
    GlobalPos { x, y }
}

fn seed() -> GlobalPos {
    pos(SEED_X, SEED_Y)
}

fn cells_of(bag: &ShapeBag, ev: &PlaceShapeEvent) -> Vec<GlobalPos> {
    bag.iter_pos(&ev.permutation).into_iter().map(|p| p.add(ev.pos)).collect()
}

fn total_count(bag: &ShapeBag) -> u32 {
    (0..bag.len()).map(|i| bag.remaining(i) as u32).sum()
}

fn single_cell_bag(count: u16) -> ShapeBag {
    ShapeBag::with_shapes(vec![Shape::from_string(0, "X")], count).unwrap()
}

#[test]
fn bounds_grow_to_hold_cells() {
    let mut b = Bounds::new();
    assert!(b.is_default());
    b.expand(&pos(3, -2));
    assert!(!b.is_default());
    assert_eq!((b.min_x, b.min_y, b.max_x, b.max_y), (3, -2, 3, -2));
    assert_eq!((b.width(), b.height()), (1, 1));
    b.expand(&pos(-1, 4));
    assert_eq!((b.min_x, b.min_y, b.max_x, b.max_y), (-1, -2, 3, 4));
    assert_eq!((b.width(), b.height()), (5, 7));
}

#[test]
fn neighbours_are_right_up_left_down() {
    assert_eq!(iter_moore(pos(2, 5)), vec![pos(3, 5), pos(2, 6), pos(1, 5), pos(2, 4)]);
}

#[test]
fn distance_score_rounds_half_up() {
    assert_eq!(distance_score(0, 2), 10);
    assert_eq!(distance_score(1, 1), 0);
    assert_eq!(distance_score(4, 16), 5);
    assert_eq!(distance_score(9, 16), 3);
    assert_eq!(distance_score(100, 1), -90);
    assert_eq!(distance_score(2, 8), 5);
}

#[test]
fn first_tick_places_one_shape_on_the_seed() {
    let mut state = BoardState::new();
    let mut bag = ShapeBag::load(1);
    let ev = state.step(&mut bag).expect("a shape is placed on an empty plane");
    assert_eq!(ev.pos, seed());
    assert_eq!(total_count(&bag), 5);
    assert_eq!(bag.remaining(ev.permutation.index), 0);
    for c in cells_of(&bag, &ev) {
        assert!(state.is_taken(&c));
    }
    assert!(!state.bounds().is_default());
}

#[test]
fn single_cell_frontier_is_its_four_neighbours() {
    let mut state = BoardState::new();
    let mut bag = single_cell_bag(1);
    let ev = state.step(&mut bag).unwrap();
    assert_eq!(cells_of(&bag, &ev), vec![pos(0, 0)]);
    assert!(state.is_taken(&pos(0, 0)));
    let tiles = state.border_tiles();
    let mut cells: Vec<(i32, i32)> = tiles.iter().map(|b| (b.global_pos.x, b.global_pos.y)).collect();
    cells.sort();
    assert_eq!(cells, vec![(-1, 0), (0, -1), (0, 1), (1, 0)]);
    for b in tiles {
        assert_eq!(b.adjacency_score, 1);
        assert_eq!(state.value_at(&b.global_pos), Some(b.score()));
    }
}

#[test]
fn single_cell_scores_against_unit_bounds() {
    let mut state = BoardState::new();
    let mut bag = single_cell_bag(1);
    state.step(&mut bag).unwrap();
    for b in state.border_tiles() {
        assert_eq!(b.distance_score, 3);
        assert_eq!(b.score(), 4);
    }
}

#[test]
fn depleted_shape_is_never_placed() {
    let mut state = BoardState::new();
    let mut bag = ShapeBag::load(3);
    assert!(bag.try_pop(2));
    assert!(bag.try_pop(2));
    assert!(bag.try_pop(2));
    let mut placed = 0;
    for _ in 0..40 {
        if let Some(ev) = state.step(&mut bag) {
            assert_ne!(ev.permutation.index, 2);
            placed += 1;
        }
        assert!(!bag.iter_available().contains(&2));
    }
    assert!(placed > 0);
    assert_eq!(bag.remaining(2), 0);
}

#[test]
fn restart_clears_the_plane() {
    let mut state = BoardState::new();
    let mut bag = ShapeBag::load(2);
    for _ in 0..6 {
        state.step(&mut bag);
    }
    assert!(!state.is_empty());
    state.reset(&mut bag, 5);
    assert!(state.is_empty());
    assert!(state.border_tiles().is_empty());
    assert!(state.bounds().is_default());
    assert_eq!(state.attempts(), 0);
    assert!(!state.is_taken(&seed()));
    for i in 0..bag.len() {
        assert_eq!(bag.remaining(i), 5);
    }
}

#[test]
fn overlapping_placement_gets_no_score() {
    let mut state = BoardState::new();
    let mut bag = single_cell_bag(2);
    state.step(&mut bag).unwrap();
    let right = pos(1, 0);
    let right_score = state.value_at(&right).unwrap();
    assert_eq!(state.get_placement_score(&pos(0, 0), &vec![pos(0, 0), pos(1, 0)]), None);
    assert_eq!(state.get_placement_score(&pos(1, 0), &vec![pos(-1, 0), pos(0, 0)]), None);
    assert_eq!(state.get_placement_score(&right, &vec![pos(0, 0)]), Some(right_score as i128));
    assert_eq!(state.get_placement_score(&pos(5, 5), &vec![pos(0, 0)]), Some(0));
    let (best, count) = state.search(&bag);
    let (score, ev) = best.unwrap();
    assert_eq!(count, 4);
    assert_eq!(score, 4);
    assert!(!state.is_taken(&ev.pos));
    assert_ne!(ev.pos, pos(0, 0));
}

#[test]
fn committed_cells_were_free_and_become_taken() {
    let mut state = BoardState::new();
    let mut bag = ShapeBag::load(2);
    let mut placed = 0;
    for _ in 0..8 {
        if let Some(ev) = state.find_best_shape(&bag) {
            let cells = cells_of(&bag, &ev);
            for c in &cells {
                assert!(!state.is_taken(c));
            }
            state.place_shape(&mut bag, &ev);
            for c in &cells {
                assert!(state.is_taken(c));
                assert_eq!(state.value_at(c), Some(BLOCKED));
            }
            placed += 1;
        }
        state.update_boundary_score();
    }
    assert!(placed > 0);
}

#[test]
fn bounds_never_shrink_over_ticks() {
    let mut state = BoardState::new();
    let mut bag = ShapeBag::load(3);
    let mut prev = state.bounds();
    for _ in 0..12 {
        state.step(&mut bag);
        let now = state.bounds();
        if !prev.is_default() {
            assert!(now.min_x <= prev.min_x && now.min_y <= prev.min_y);
            assert!(now.max_x >= prev.max_x && now.max_y >= prev.max_y);
        }
        prev = now;
    }
}

#[test]
fn frontier_scores_stay_in_range() {
    let mut state = BoardState::new();
    let mut bag = ShapeBag::load(3);
    for _ in 0..10 {
        state.step(&mut bag);
        for b in state.border_tiles() {
            assert!(b.adjacency_score >= 0 && b.adjacency_score <= 4);
            assert!(b.distance_score <= 10);
            assert!(!state.is_taken(&b.global_pos));
            let taken = iter_moore(b.global_pos).iter().filter(|n| state.is_taken(n)).count();
            assert_eq!(b.adjacency_score, taken as i64);
            assert!(taken >= 1);
        }
    }
}

#[test]
fn search_stalls_when_bag_is_empty() {
    let mut state = BoardState::new();
    let mut bag = single_cell_bag(1);
    state.step(&mut bag).unwrap();
    assert_eq!(state.step(&mut bag), None);
    assert_eq!(state.border_tiles().len(), 4);
}

#[test]
fn bootstrap_uses_the_drawn_orientation() {
    let mut state = BoardState::new();
    let bag = ShapeBag::load(1);
    let p = ShapePermutation { index: 3, permutation: Permutation { rotation: 2, flipped: true } };
    assert_eq!(state.find_best_shape_from(&bag, Some(p)), Some(PlaceShapeEvent { permutation: p, pos: seed() }));
    assert_eq!(state.find_best_shape_from(&bag, None), None);
    let out_of_range = ShapePermutation { index: 9, permutation: Permutation { rotation: 0, flipped: false } };
    assert_eq!(state.find_best_shape_from(&bag, Some(out_of_range)), None);
    assert_eq!(state.attempts(), 0);
}

#[test]
fn restock_count_reads_first_field() {
    let field = |n: &str| InputFieldsState { n: n.to_string(), value2: String::new() };
    assert_eq!(restock_count(&Vec::new()), 1);
    assert_eq!(restock_count(&vec![field("42")]), 42);
    assert_eq!(restock_count(&vec![field("+7")]), 7);
    assert_eq!(restock_count(&vec![field("007")]), 7);
    assert_eq!(restock_count(&vec![field("")]), 1);
    assert_eq!(restock_count(&vec![field("abc")]), 1);
    assert_eq!(restock_count(&vec![field("-3")]), 1);
    assert_eq!(restock_count(&vec![field(" 5")]), 1);
    assert_eq!(restock_count(&vec![field("65535")]), 65535);
    assert_eq!(restock_count(&vec![field("65536")]), 1);
    assert_eq!(restock_count(&vec![field("9"), field("4")]), 9);
}

#[test]
fn status_line_shows_bounds_and_attempts() {
    let mut state = BoardState::new();
    let mut bag = single_cell_bag(3);
    let empty = statewidget_render(&state);
    assert_eq!((empty.area_x, empty.area_y, empty.attempts), (0, 0, 0));
    state.step(&mut bag).unwrap();
    state.step(&mut bag).unwrap();
    let w = statewidget_render(&state);
    assert_eq!(w.area_x * w.area_y, 2);
    assert_eq!(w.attempts, 4);
}

#[test]
fn restart_reads_count_from_input() {
    let mut state = BoardState::new();
    let mut bag = ShapeBag::load(1);
    state.step(&mut bag).unwrap();
    let fields = vec![InputFieldsState { n: "12".to_string(), value2: "x".to_string() }];
    state.restart(&mut bag, &fields);
    assert!(state.is_empty());
    assert!(state.border_tiles().is_empty());
    for i in 0..bag.len() {
        assert_eq!(bag.remaining(i), 12);
    }
    let bad = vec![InputFieldsState { n: "twelve".to_string(), value2: String::new() }];
    state.restart(&mut bag, &bad);
    for i in 0..bag.len() {
        assert_eq!(bag.remaining(i), 1);
    }
}

#[test]
fn placement_leaving_the_world_does_not_fit() {
    let state = BoardState::new();
    assert_eq!(state.get_placement_score(&pos(WORLD_LIMIT, 0), &vec![pos(0, 0)]), Some(0));
    assert_eq!(state.get_placement_score(&pos(WORLD_LIMIT, 0), &vec![pos(0, 0), pos(1, 0)]), None);
    assert_eq!(state.get_placement_score(&pos(0, -WORLD_LIMIT), &vec![pos(0, -1)]), None);
    assert_eq!(state.get_placement_score(&pos(i32::MAX, 0), &vec![pos(i32::MIN + 1, 0)]), Some(0));
}

#[test]
fn field_keys_are_distinct_per_cell() {
    assert_eq!(key(pos(0, 0)), 2147483648);
    assert_eq!(key(pos(1, 0)), 4294967296 + 2147483648);
    assert_eq!(key(pos(i32::MIN, i32::MIN)), i64::MIN);
    assert_eq!(key(pos(i32::MAX, i32::MAX)), i64::MAX);
    assert_ne!(key(pos(-1, 5)), key(pos(5, -1)));
}

#[test]
fn commit_leaves_field_outside_footprint_alone() {
    let mut state = BoardState::new();
    let mut bag = single_cell_bag(2);
    let ev = state.find_best_shape(&bag).unwrap();
    state.place_shape(&mut bag, &ev);
    assert_eq!(state.value_at(&pos(0, 0)), Some(BLOCKED));
    for n in iter_moore(pos(0, 0)) {
        assert_eq!(state.value_at(&n), None);
    }
    assert_eq!(state.border_tiles().len(), 4);
    for b in state.border_tiles() {
        assert_eq!((b.adjacency_score, b.distance_score), (0, 0));
    }
    state.update_boundary_score();
    for n in iter_moore(pos(0, 0)) {
        assert_eq!(state.value_at(&n), Some(4));
    }
}

#[test]
fn unscored_frontier_is_not_duplicated() {
    let mut state = BoardState::new();
    let mut bag = single_cell_bag(2);
    let first = state.find_best_shape(&bag).unwrap();
    state.place_shape(&mut bag, &first);
    let second = PlaceShapeEvent { permutation: first.permutation, pos: pos(1, 0) };
    state.place_shape(&mut bag, &second);
    let mut cells: Vec<(i32, i32)> =
        state.border_tiles().iter().map(|b| (b.global_pos.x, b.global_pos.y)).collect();
    cells.sort();
    assert_eq!(cells, vec![(-1, 0), (0, -1), (0, 1), (1, -1), (1, 1), (2, 0)]);
    assert_eq!(state.value_at(&pos(2, 0)), None);
}
