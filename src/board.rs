//! The state of the plane: which cells are taken, the scores of the free
//! cells around them, the frontier, and the bounding rectangle.

use vstd::prelude::*;
use std::collections::HashMap;
use crate::tile::{GlobalPos, BorderTile, pos_at, pos_add};
use crate::shape::{Permutation, ShapePermutation, orient};
use crate::bag::{ShapeBag, available_indices, lists_available};
use crate::scoring::{distance_score, is_distance_score};
use crate::ui::{InputFieldsState, restock_count, restock_value};

verus! {

/// Field value of a cell that a shape covers.
pub const BLOCKED: i64 = i64::MIN;

/// Largest absolute coordinate that a placed cell may have. It keeps every
/// neighbour and anchor computation inside `i32`.
pub const WORLD_LIMIT: i32 = 1073741824;

/// Column of the seed cell: the first shape is put there, and distances
/// are measured from it.
pub const SEED_X: i32 = 0;

/// Row of the seed cell.
pub const SEED_Y: i32 = 0;

/// Bound on the magnitude of any distance score.
pub const SCORE_LIMIT: i64 = 1099511627776;

/// A cell that a shape may cover.
pub open spec fn in_world(c: GlobalPos) -> bool {
    -WORLD_LIMIT <= c.x <= WORLD_LIMIT && -WORLD_LIMIT <= c.y <= WORLD_LIMIT
}

/// A rectangle that lies in the world.
pub open spec fn within_world(b: Bounds) -> bool {
    -WORLD_LIMIT <= b.min_x && b.max_x <= WORLD_LIMIT && -WORLD_LIMIT <= b.min_y && b.max_y
        <= WORLD_LIMIT
}

/// Squared distance from the seed cell to `c`.
pub open spec fn dist_sq(c: GlobalPos) -> int {
    (c.x - SEED_X) * (c.x - SEED_X) + (c.y - SEED_Y) * (c.y - SEED_Y)
}

/// Squared diagonal of a proper rectangle.
pub open spec fn diag_sq(b: Bounds) -> int {
    let w = b.max_x - b.min_x + 1;
    let h = b.max_y - b.min_y + 1;
    w * w + h * h
}

/// How many of the four neighbours of `c` a shape covers in `field`.
pub open spec fn adjacency_count(field: Map<GlobalPos, i64>, c: GlobalPos) -> int {
    let n = neighbours(c);
    (if occupied(field, n[0]) { 1int } else { 0 }) + (if occupied(field, n[1]) { 1int } else { 0 })
        + (if occupied(field, n[2]) { 1int } else { 0 }) + (if occupied(field, n[3]) { 1int } else { 0 })
}

/// A cell at most one step outside the world: a neighbour of a placed cell.
pub open spec fn near_world(c: GlobalPos) -> bool {
    -WORLD_LIMIT - 1 <= c.x <= WORLD_LIMIT + 1 && -WORLD_LIMIT - 1 <= c.y <= WORLD_LIMIT + 1
}

/// The four orthogonal neighbours of `c`: right, up, left, down.
pub open spec fn neighbours(c: GlobalPos) -> Seq<GlobalPos> {
    seq![
        pos_at(c.x + 1, c.y as int),
        pos_at(c.x as int, c.y + 1),
        pos_at(c.x - 1, c.y as int),
        pos_at(c.x as int, c.y - 1),
    ]
}

/// Whether `a` and `b` share an edge.
pub open spec fn adjacent(a: GlobalPos, b: GlobalPos) -> bool {
    (a.x == b.x && (a.y - b.y == 1 || b.y - a.y == 1))
    || (a.y == b.y && (a.x - b.x == 1 || b.x - a.x == 1))
}

/// The smallest rectangle holding every placed cell; while no cell is
/// placed, minima sit at `i32::MAX` and maxima at `i32::MIN`.
#[derive(Clone, Copy, Debug, PartialEq, Eq, Structural)]
pub struct Bounds {
    pub min_x: i32,
    pub min_y: i32,
    pub max_x: i32,
    pub max_y: i32,
}

impl Bounds {
    /// Either still empty or a proper rectangle.
    pub open spec fn wf(&self) -> bool {
        self.is_empty() || (self.min_x <= self.max_x && self.min_y <= self.max_y)
    }

    /// The empty rectangle.
    pub open spec fn is_empty(&self) -> bool {
        self.min_x == i32::MAX && self.max_x == i32::MIN && self.min_y == i32::MAX && self.max_y
            == i32::MIN
    }

    /// Whether the rectangle holds `c`.
    pub open spec fn covers(&self, c: GlobalPos) -> bool {
        self.min_x <= c.x <= self.max_x && self.min_y <= c.y <= self.max_y
    }

    /// Whether this rectangle holds `other` as a set of cells.
    pub open spec fn holds(&self, other: Bounds) -> bool {
        self.min_x <= other.min_x && other.max_x <= self.max_x && self.min_y <= other.min_y
            && other.max_y <= self.max_y
    }

    /// The empty rectangle.
    pub fn new() -> (r: Bounds)
        ensures
            r.is_empty(),
            r.wf(),
    {
        Bounds { min_x: i32::MAX, max_x: i32::MIN, min_y: i32::MAX, max_y: i32::MIN }
    }

    /// Whether no cell has been added yet.
    pub fn is_default(&self) -> (r: bool)
        ensures
            r == self.is_empty(),
    {
        self.min_x == i32::MAX && self.max_x == i32::MIN && self.min_y == i32::MAX && self.max_y
            == i32::MIN
    }

    /// Number of columns covered.
    pub fn width(&self) -> (r: i64)
        requires
            self.min_x <= self.max_x,
        ensures
            r == self.max_x - self.min_x + 1,
            r >= 1,
    {
        self.max_x as i64 - self.min_x as i64 + 1
    }

    /// Number of rows covered.
    pub fn height(&self) -> (r: i64)
        requires
            self.min_y <= self.max_y,
        ensures
            r == self.max_y - self.min_y + 1,
            r >= 1,
    {
        self.max_y as i64 - self.min_y as i64 + 1
    }

    /// Grows the rectangle just enough to hold `global_pos`.
    pub fn expand(&mut self, global_pos: &GlobalPos)
        requires
            old(self).wf(),
        ensures
            final(self).wf(),
            !final(self).is_empty(),
            final(self).holds(*old(self)),
            final(self).covers(*global_pos),
            final(self).min_x == if global_pos.x < old(self).min_x { global_pos.x } else { old(self).min_x },
            final(self).max_x == if global_pos.x > old(self).max_x { global_pos.x } else { old(self).max_x },
            final(self).min_y == if global_pos.y < old(self).min_y { global_pos.y } else { old(self).min_y },
            final(self).max_y == if global_pos.y > old(self).max_y { global_pos.y } else { old(self).max_y },
    {
        if global_pos.x > self.max_x {
            self.max_x = global_pos.x;
        }
        if global_pos.y > self.max_y {
            self.max_y = global_pos.y;
        }
        if global_pos.x < self.min_x {
            self.min_x = global_pos.x;
        }
        if global_pos.y < self.min_y {
            self.min_y = global_pos.y;
        }
    }
}

/// The key under which the field stores cell `c`.
pub open spec fn key_of(c: GlobalPos) -> i64 {
    (c.x * 4294967296 + (c.y + 2147483648)) as i64
}

/// Distinct cells have distinct keys.
pub proof fn lemma_key_injective(a: GlobalPos, b: GlobalPos)
    ensures
        key_of(a) == key_of(b) ==> a == b,
{
}

/// Every key is the key of some cell.
pub proof fn lemma_key_decode(k: i64) -> (c: GlobalPos)
    ensures
        key_of(c) == k,
{
    let x = k as int / 4294967296;
    let y = k as int % 4294967296 - 2147483648;
    pos_at(x, y)
}

/// The field key of `c`.
pub fn key(c: GlobalPos) -> (r: i64)
    ensures
        r == key_of(c),
{
    c.x as i64 * 4294967296 + (c.y as i64 + 2147483648)
}


/// A cell that a shape covers in `field`.
pub open spec fn occupied(field: Map<GlobalPos, i64>, c: GlobalPos) -> bool {
    field.contains_key(c) && field[c] == BLOCKED
}

/// Whether some cell of `cells` shares an edge with `c`.
pub open spec fn touches(cells: Seq<GlobalPos>, c: GlobalPos) -> bool {
    exists|i: int| 0 <= i < cells.len() && adjacent(#[trigger] cells[i], c)
}

/// The positions of a list of frontier cells.
pub open spec fn positions(tiles: Seq<BorderTile>) -> Seq<GlobalPos> {
    tiles.map_values(|b: BorderTile| b.global_pos)
}

/// The rectangle `b` grown just enough to hold `c`.
pub open spec fn expand_spec(b: Bounds, c: GlobalPos) -> Bounds {
    Bounds {
        min_x: if c.x < b.min_x { c.x } else { b.min_x },
        max_x: if c.x > b.max_x { c.x } else { b.max_x },
        min_y: if c.y < b.min_y { c.y } else { b.min_y },
        max_y: if c.y > b.max_y { c.y } else { b.max_y },
    }
}

/// The rectangle `b` grown by each of `cells` in turn.
pub open spec fn expand_all(b: Bounds, cells: Seq<GlobalPos>) -> Bounds
    decreases cells.len(),
{
    if cells.len() == 0 {
        b
    } else {
        expand_spec(expand_all(b, cells.drop_last()), cells.last())
    }
}

/// Whether `p + anchor` lies in the world, computed without wrapping.
pub open spec fn lands(p: GlobalPos, anchor: GlobalPos) -> bool {
    -WORLD_LIMIT <= p.x + anchor.x <= WORLD_LIMIT && -WORLD_LIMIT <= p.y + anchor.y <= WORLD_LIMIT
}

/// The cells that `offsets` cover when their origin is put on `anchor`.
pub open spec fn anchored(offsets: Seq<GlobalPos>, anchor: GlobalPos) -> Seq<GlobalPos> {
    offsets.map_values(|p: GlobalPos| pos_add(p, anchor))
}

/// Whether `offsets` put on `anchor` stay in the world and cover only
/// cells that no shape covers in `field`.
pub open spec fn fits(field: Map<GlobalPos, i64>, offsets: Seq<GlobalPos>, anchor: GlobalPos) -> bool {
    &&& forall|i: int| 0 <= i < offsets.len() ==> lands(#[trigger] offsets[i], anchor)
    &&& forall|i: int| 0 <= i < offsets.len() ==> !occupied(field, pos_add(#[trigger] offsets[i], anchor))
}

/// The offsets of the shape and orientation that `p` names.
pub open spec fn shape_offsets(bag: ShapeBag, p: ShapePermutation) -> Seq<GlobalPos> {
    orient(bag.shapes()[p.index as int].tiles@, p.permutation)
}

/// The field once `cells` are covered: they become `BLOCKED`, and every
/// other cell keeps what it had.
pub open spec fn committed(field: Map<GlobalPos, i64>, cells: Seq<GlobalPos>) -> Map<GlobalPos, i64> {
    Map::new(
        |c: GlobalPos| field.contains_key(c) || cells.contains(c),
        |c: GlobalPos| if cells.contains(c) { BLOCKED } else { field[c] },
    )
}

/// What a cell adds to the score of a placement covering it: its field
/// value, or zero if the field does not know it.
pub open spec fn cell_value(field: Map<GlobalPos, i64>, c: GlobalPos) -> int {
    if field.contains_key(c) {
        field[c] as int
    } else {
        0
    }
}

/// The score of putting `offsets` on `anchor`: the sum of the values of
/// the covered cells.
pub open spec fn placement_score(field: Map<GlobalPos, i64>, offsets: Seq<GlobalPos>, anchor: GlobalPos) -> int
    decreases offsets.len(),
{
    if offsets.len() == 0 {
        0
    } else {
        placement_score(field, offsets.drop_last(), anchor) + cell_value(
            field,
            pos_add(offsets.last(), anchor),
        )
    }
}

/// A shape, in an orientation, put on an anchor cell.
#[derive(Clone, Copy, Debug, PartialEq, Eq, Structural)]
pub struct PlaceShapeEvent {
    pub permutation: ShapePermutation,
    pub pos: GlobalPos,
}

/// The cells that `event` covers.
pub open spec fn event_cells(bag: ShapeBag, event: PlaceShapeEvent) -> Seq<GlobalPos> {
    anchored(shape_offsets(bag, event.permutation), event.pos)
}

proof fn lemma_push_contains<T>(s: Seq<T>, x: T, d: T)
    ensures
        s.push(x).contains(d) <==> s.contains(d) || d == x,
{
    if s.contains(d) {
        let k = choose|k: int| 0 <= k < s.len() && s[k] == d;
        assert(s.push(x)[k] == d);
    }
    if d == x {
        assert(s.push(x)[s.len() as int] == d);
    }
    if s.push(x).contains(d) {
        let k = choose|k: int| 0 <= k < s.push(x).len() && s.push(x)[k] == d;
        if k < s.len() {
            assert(s[k] == d);
        }
    }
}

/// The orientation that the search tries: not rotated, not flipped.
pub open spec fn upright() -> Permutation {
    Permutation { rotation: 0, flipped: false }
}

/// The offsets of shape `s` in the upright orientation.
pub open spec fn upright_offsets(bag: ShapeBag, s: usize) -> Seq<GlobalPos> {
    shape_offsets(bag, ShapePermutation { index: s, permutation: upright() })
}

/// Whether the search weighs `event` and may choose it: an upright shape
/// that is still in the bag, anchored so that one of its cells lies on a
/// frontier cell, with every cell in the world and free.
pub open spec fn is_candidate(state: BoardState, bag: ShapeBag, event: PlaceShapeEvent) -> bool {
    let offsets = shape_offsets(bag, event.permutation);
    &&& event.permutation.index < bag.shapes().len()
    &&& bag.counts()[event.permutation.index as int] > 0
    &&& event.permutation.permutation == upright()
    &&& exists|t: int| 0 <= t < offsets.len() && state.on_frontier(pos_add(#[trigger] offsets[t], event.pos))
    &&& fits(state.field(), offsets, event.pos)
}

/// The score of a placement in `state`.
pub open spec fn event_score(state: BoardState, bag: ShapeBag, event: PlaceShapeEvent) -> int {
    placement_score(state.field(), shape_offsets(bag, event.permutation), event.pos)
}

/// The anchor that puts offset `t` on cell `f`, if it is a cell.
pub open spec fn anchor_fits(f: GlobalPos, t: GlobalPos) -> bool {
    crate::tile::fits_i32(f.x - t.x) && crate::tile::fits_i32(f.y - t.y)
}

/// The upright placement of shape `s` that puts its offset `t` on `f`.
pub open spec fn aligned(s: usize, f: GlobalPos, t: GlobalPos) -> PlaceShapeEvent {
    PlaceShapeEvent {
        permutation: ShapePermutation { index: s, permutation: upright() },
        pos: pos_at(f.x - t.x, f.y - t.y),
    }
}

/// Whether the placement that aligns offset `tt` of the `aa`-th available
/// shape with the `ff`-th frontier cell scores no more than `best`, if it
/// fits at all.
pub open spec fn covered(
    state: BoardState,
    bag: ShapeBag,
    best: Option<(i128, PlaceShapeEvent)>,
    avail: Seq<usize>,
    front: Seq<GlobalPos>,
    aa: int,
    ff: int,
    tt: int,
) -> bool {
    let s = avail[aa];
    let t = upright_offsets(bag, s)[tt];
    let ev = aligned(s, front[ff], t);
    anchor_fits(front[ff], t) && fits(state.field(), upright_offsets(bag, s), ev.pos) ==> (
    best matches Some(b) && event_score(state, bag, ev) <= b.0)
}

/// How many placements the search weighs: for each available shape, one
/// per frontier cell and offset.
pub open spec fn tries(bag: ShapeBag, avail: Seq<usize>, frontier_len: int) -> int
    decreases avail.len(),
{
    if avail.len() == 0 {
        0
    } else {
        tries(bag, avail.drop_last(), frontier_len) + frontier_len * bag.shapes()[avail.last() as int].tiles@.len()
    }
}

/// `v`, capped at `usize::MAX`.
pub open spec fn saturated(v: int) -> int {
    if v > usize::MAX {
        usize::MAX as int
    } else {
        v
    }
}

/// The seed cell.
pub open spec fn seed_pos() -> GlobalPos {
    GlobalPos { x: SEED_X, y: SEED_Y }
}

/// The first placement on an empty plane, given the orientation drawn: the
/// drawn shape on the seed cell, if it is a shape still in the bag that fits
/// there.
pub open spec fn bootstrap(bag: ShapeBag, drawn: Option<ShapePermutation>) -> Option<PlaceShapeEvent> {
    match drawn {
        Some(p) => if p.index < bag.shapes().len() && bag.counts()[p.index as int] > 0 && fits(
            Map::empty(),
            shape_offsets(bag, p),
            seed_pos(),
        ) {
            Some(PlaceShapeEvent { permutation: p, pos: seed_pos() })
        } else {
            None
        },
        None => None,
    }
}

/// Whether every orientation of every shape of `bag` fits on the seed cell
/// of an empty plane.
pub open spec fn all_fit_at_seed(bag: ShapeBag) -> bool {
    forall|p: ShapePermutation| p.index < bag.shapes().len() ==> fits(
        Map::empty(),
        #[trigger] shape_offsets(bag, p),
        seed_pos(),
    )
}

/// Shapes whose offsets stay within 64 of the origin fit on the seed cell
/// in every orientation.
pub proof fn lemma_compact_fits_at_seed(bag: ShapeBag)
    requires
        bag.wf(),
        bag.compact(),
    ensures
        all_fit_at_seed(bag),
{
    assert forall|p: ShapePermutation| p.index < bag.shapes().len() implies fits(
        Map::empty(),
        #[trigger] shape_offsets(bag, p),
        seed_pos(),
    ) by {
        let tiles = bag.shapes()[p.index as int].tiles@;
        let offs = shape_offsets(bag, p);
        assert forall|k: int| 0 <= k < offs.len() implies lands(#[trigger] offs[k], seed_pos()) by {
            assert(0 <= tiles[k].x <= 64 && 0 <= tiles[k].y <= 64);
        }
    }
}

/// A cell whose four neighbours have `i32` coordinates.
pub open spec fn has_neighbours(c: GlobalPos) -> bool {
    i32::MIN < c.x < i32::MAX && i32::MIN < c.y < i32::MAX
}

/// A neighbour of `a` is adjacent to it, and each cell adjacent to `a` is
/// one of its neighbours.
pub proof fn lemma_neighbours(a: GlobalPos, c: GlobalPos)
    requires
        has_neighbours(a),
    ensures
        adjacent(a, c) <==> neighbours(a).contains(c),
{
    let n = neighbours(a);
    if adjacent(a, c) {
        if c.x == a.x + 1 {
            assert(n[0] == c);
        } else if c.y == a.y + 1 {
            assert(n[1] == c);
        } else if c.x == a.x - 1 {
            assert(n[2] == c);
        } else {
            assert(n[3] == c);
        }
    }
}

proof fn lemma_expand_all_in_world(b: Bounds, cells: Seq<GlobalPos>)
    requires
        b.is_empty() || within_world(b),
        forall|i: int| 0 <= i < cells.len() ==> in_world(#[trigger] cells[i]),
    ensures
        expand_all(b, cells).is_empty() || within_world(expand_all(b, cells)),
    decreases cells.len(),
{
    if cells.len() > 0 {
        let prefix = cells.drop_last();
        assert forall|i: int| 0 <= i < prefix.len() implies in_world(#[trigger] prefix[i]) by {
            assert(prefix[i] == cells[i]);
        }
        lemma_expand_all_in_world(b, prefix);
        assert(in_world(cells[cells.len() - 1]));
    }
}

proof fn lemma_expand_all(b: Bounds, cells: Seq<GlobalPos>)
    requires
        b.wf(),
    ensures
        expand_all(b, cells).wf(),
        expand_all(b, cells).holds(b),
        cells.len() > 0 ==> !expand_all(b, cells).is_empty(),
        forall|i: int| 0 <= i < cells.len() ==> expand_all(b, cells).covers(#[trigger] cells[i]),
        forall|c: GlobalPos| b.covers(c) ==> expand_all(b, cells).covers(c),
    decreases cells.len(),
{
    if cells.len() > 0 {
        lemma_expand_all(b, cells.drop_last());
        let r = expand_all(b, cells);
        assert forall|i: int| 0 <= i < cells.len() implies r.covers(#[trigger] cells[i]) by {
            if i < cells.len() - 1 {
                assert(cells.drop_last()[i] == cells[i]);
            }
        }
    }
}

/// The four neighbours of `pos`: right, up, left, down.
pub fn iter_moore(pos: GlobalPos) -> (r: Vec<GlobalPos>)
    requires
        has_neighbours(pos),
    ensures
        r@ == neighbours(pos),
{
    let mut r: Vec<GlobalPos> = Vec::new();
    r.push(GlobalPos { x: pos.x + 1, y: pos.y });
    r.push(GlobalPos { x: pos.x, y: pos.y + 1 });
    r.push(GlobalPos { x: pos.x - 1, y: pos.y });
    r.push(GlobalPos { x: pos.x, y: pos.y - 1 });
    assert(r@ =~= neighbours(pos));
    r
}

/// Everything the engine knows of the plane.
pub struct BoardState {
    scored_positions: HashMap<i64, i64>,
    border: Vec<BorderTile>,
    bounds: Bounds,
    attempts: usize,
}

impl BoardState {
    /// Each known cell with its value: `BLOCKED` where a shape lies, else
    /// the cell's score.
    pub closed spec fn field(&self) -> Map<GlobalPos, i64> {
        Map::new(
            |c: GlobalPos| self.scored_positions@.contains_key(key_of(c)),
            |c: GlobalPos| self.scored_positions@[key_of(c)],
        )
    }

    /// The frontier cells with their scores.
    pub closed spec fn frontier(&self) -> Seq<BorderTile> {
        self.border@
    }

    /// The rectangle around the placed cells.
    pub closed spec fn bounds_view(&self) -> Bounds {
        self.bounds
    }

    /// How many candidate placements the search has weighed so far.
    pub closed spec fn attempts_view(&self) -> nat {
        self.attempts as nat
    }

    /// Whether `c` is covered by a shape.
    pub open spec fn is_occupied(&self, c: GlobalPos) -> bool {
        occupied(self.field(), c)
    }

    /// Whether `c` is one of the frontier cells.
    pub open spec fn on_frontier(&self, c: GlobalPos) -> bool {
        positions(self.frontier()).contains(c)
    }

    /// The state's invariant: the bookkeeping below, and a frontier that
    /// holds exactly the free cells next to a placed cell.
    pub open spec fn wf(&self) -> bool {
        self.wf_core() && self.surrounded()
    }

    /// Every neighbour of a placed cell is placed or on the frontier, and
    /// every frontier cell lies next to a placed cell.
    pub open spec fn surrounded(&self) -> bool {
        &&& forall|c: GlobalPos, k: int| self.is_occupied(c) && 0 <= k < 4 ==> self.is_occupied(
            #[trigger] neighbours(c)[k],
        ) || self.on_frontier(neighbours(c)[k])
        &&& forall|i: int| 0 <= i < self.frontier().len() ==> self.next_to_placed((#[trigger] self.frontier()[i]).global_pos)
    }

    /// Whether `c` shares an edge with a placed cell.
    pub open spec fn next_to_placed(&self, c: GlobalPos) -> bool {
        exists|d: GlobalPos| self.is_occupied(d) && adjacent(d, c)
    }

    /// Whether the scoring pass has entered every frontier cell into the
    /// field.
    pub open spec fn scored(&self) -> bool {
        forall|i: int| 0 <= i < self.frontier().len() ==> self.field().contains_key(
            (#[trigger] self.frontier()[i]).global_pos,
        )
    }

    /// Placed cells lie in the world and in the bounds; the frontier lists
    /// free cells once each, next to the world, and holds every free cell
    /// the field knows. The field holds the sum of a frontier cell's two
    /// scores once the cell has been scored; until then both are zero.
    pub open spec fn wf_core(&self) -> bool {
        &&& self.bounds_view().wf()
        &&& self.bounds_view().is_empty() || within_world(self.bounds_view())
        &&& forall|c: GlobalPos| #[trigger] self.is_occupied(c) ==> in_world(c) && self.bounds_view().covers(c)
        &&& positions(self.frontier()).no_duplicates()
        &&& forall|i: int| 0 <= i < self.frontier().len() ==> {
            let b = #[trigger] self.frontier()[i];
            &&& !self.is_occupied(b.global_pos)
            &&& self.field().contains_key(b.global_pos) ==> self.field()[b.global_pos] == b.total()
            &&& !self.field().contains_key(b.global_pos) ==> b.adjacency_score == 0
                && b.distance_score == 0
            &&& 0 <= b.adjacency_score <= 4
            &&& -SCORE_LIMIT <= b.distance_score <= 10
            &&& near_world(b.global_pos)
        }
        &&& forall|c: GlobalPos| #[trigger] self.field().contains_key(c) && self.field()[c] != BLOCKED
            ==> self.on_frontier(c)
    }

    /// Whether the field holds nothing, frontier and bounds are empty, and
    /// no attempt is counted.
    pub open spec fn is_cleared(&self) -> bool {
        &&& self.field() == Map::<GlobalPos, i64>::empty()
        &&& self.frontier().len() == 0
        &&& self.bounds_view().is_empty()
        &&& self.attempts_view() == 0
    }

    proof fn lemma_field_insert(&self, new: &Self, c: GlobalPos, v: i64)
        requires
            new.scored_positions@ == self.scored_positions@.insert(key_of(c), v),
        ensures
            new.field() == self.field().insert(c, v),
    {
        assert forall|d: GlobalPos| #[trigger] new.field().contains_key(d) == self.field().insert(
            c,
            v,
        ).contains_key(d) by {
            lemma_key_injective(c, d);
        }
        assert forall|d: GlobalPos| new.field().contains_key(d) implies #[trigger] new.field()[d]
            == self.field().insert(c, v)[d] by {
            lemma_key_injective(c, d);
        }
        assert(new.field() =~= self.field().insert(c, v));
    }

    /// Whether `c` is one of the frontier cells.
    fn has_frontier_cell(&self, c: &GlobalPos) -> (r: bool)
        ensures
            r == self.on_frontier(*c),
    {
        let mut i: usize = 0;
        while i < self.border.len()
            invariant
                i <= self.frontier().len(),
                forall|k: int| 0 <= k < i ==> positions(self.frontier())[k] != *c,
            decreases self.frontier().len() - i,
        {
            if self.border[i].global_pos == *c {
                assert(positions(self.frontier())[i as int] == *c);
                return true;
            }
            i += 1;
        }
        false
    }

    /// Adds `n` to the frontier with both scores zero, unless it is placed
    /// or on the frontier already. The field is left alone.
    fn add_frontier_cell(&mut self, n: GlobalPos)
        requires
            old(self).wf_core(),
            near_world(n),
        ensures
            final(self).wf_core(),
            final(self).field() == old(self).field(),
            final(self).bounds_view() == old(self).bounds_view(),
            final(self).attempts_view() == old(self).attempts_view(),
            old(self).is_occupied(n) || old(self).on_frontier(n) ==> final(self).frontier() == old(
                self,
            ).frontier(),
            !(old(self).is_occupied(n) || old(self).on_frontier(n)) ==> final(self).frontier()
                == old(self).frontier().push(
                BorderTile { adjacency_score: 0, distance_score: 0, global_pos: n },
            ),
    {
        if !self.is_taken(&n) && !self.has_frontier_cell(&n) {
            let ghost before = *self;
            let tile = BorderTile { adjacency_score: 0, distance_score: 0, global_pos: n };
            self.border.push(tile);
            proof {
                assert(self.field() =~= before.field());
                assert(positions(self.frontier()) =~= positions(before.frontier()).push(n));
                assert(!self.field().contains_key(n));
                assert forall|c: GlobalPos| #[trigger] self.field().contains_key(c) && self.field()[c]
                    != BLOCKED implies self.on_frontier(c) by {
                    lemma_push_contains(positions(before.frontier()), n, c);
                    assert(before.on_frontier(c));
                }
                assert forall|c: GlobalPos| #[trigger] self.is_occupied(c) implies in_world(c)
                    && self.bounds_view().covers(c) by {
                    assert(before.is_occupied(c));
                }
                assert forall|k: int| 0 <= k < self.frontier().len() implies {
                    let b = #[trigger] self.frontier()[k];
                    &&& !self.is_occupied(b.global_pos)
                    &&& self.field().contains_key(b.global_pos) ==> self.field()[b.global_pos] == b.total()
                    &&& !self.field().contains_key(b.global_pos) ==> b.adjacency_score == 0
                        && b.distance_score == 0
                    &&& 0 <= b.adjacency_score <= 4
                    &&& -SCORE_LIMIT <= b.distance_score <= 10
                    &&& near_world(b.global_pos)
                } by {
                    if k < before.frontier().len() {
                        assert(self.frontier()[k] == before.frontier()[k]);
                    }
                }
            }
        }
    }

    /// Puts the shape of `event` on the plane: its cells become `BLOCKED`
    /// and leave the frontier, the bounds grow to hold them, each free
    /// neighbour not yet on the frontier joins it with zero scores, and one
    /// unit of the shape leaves the bag. The field changes only on the
    /// covered cells; new frontier cells enter it at the next scoring pass.
    pub fn place_shape(&mut self, bag: &mut ShapeBag, event: &PlaceShapeEvent)
        requires
            old(self).wf(),
            old(bag).wf(),
            event.permutation.index < old(bag).shapes().len(),
            old(bag).counts()[event.permutation.index as int] > 0,
            fits(old(self).field(), shape_offsets(*old(bag), event.permutation), event.pos),
        ensures
            final(self).wf(),
            final(bag).wf(),
            final(bag).shapes() == old(bag).shapes(),
            final(bag).counts() == old(bag).counts().update(
                event.permutation.index as int,
                (old(bag).counts()[event.permutation.index as int] - 1) as u16,
            ),
            final(self).field() == committed(old(self).field(), event_cells(*old(bag), *event)),
            forall|i: int| 0 <= i < event_cells(*old(bag), *event).len() ==> !old(self).is_occupied(
                #[trigger] event_cells(*old(bag), *event)[i],
            ) && final(self).is_occupied(event_cells(*old(bag), *event)[i]),
            final(self).bounds_view().holds(old(self).bounds_view()),
            final(self).bounds_view() == expand_all(
                old(self).bounds_view(),
                event_cells(*old(bag), *event),
            ),
            forall|i: int|
                0 <= i < old(self).frontier().len() && !event_cells(*old(bag), *event).contains(
                    (#[trigger] old(self).frontier()[i]).global_pos,
                ) ==> final(self).frontier().contains(old(self).frontier()[i]),
            forall|j: int|
                0 <= j < final(self).frontier().len() ==> old(self).frontier().contains(
                    #[trigger] final(self).frontier()[j],
                ) || (final(self).frontier()[j].adjacency_score == 0
                    && final(self).frontier()[j].distance_score == 0),
            forall|c: GlobalPos| #[trigger] final(self).on_frontier(c) <==> (old(self).on_frontier(c)
                && !event_cells(*old(bag), *event).contains(c)) || (touches(
                event_cells(*old(bag), *event),
                c,
            ) && !final(self).is_occupied(c)),
            final(self).attempts_view() == old(self).attempts_view(),
    {
        let ghost cells_all = event_cells(*old(bag), *event);
        let ghost f0 = self.field();
        let ghost old_border = self.border@;
        let popped = bag.try_pop(event.permutation.index);
        let offsets = bag.iter_pos(&event.permutation);
        assert(offsets@ == shape_offsets(*old(bag), event.permutation));
        proof {
            lemma_expand_all(self.bounds, Seq::empty());
        }
        // Cover the cells.
        let mut cells: Vec<GlobalPos> = Vec::new();
        let mut i: usize = 0;
        while i < offsets.len()
            invariant
                i <= offsets@.len(),
                offsets@ == shape_offsets(*old(bag), event.permutation),
                fits(f0, offsets@, event.pos),
                cells@ == anchored(offsets@.take(i as int), event.pos),
                self.field() == Map::new(
                    |c: GlobalPos| f0.contains_key(c) || cells@.contains(c),
                    |c: GlobalPos| if cells@.contains(c) { BLOCKED } else { f0[c] },
                ),
                self.bounds == expand_all(old(self).bounds, cells@),
                self.bounds.wf(),
                old(self).bounds.wf(),
                self.border@ == old_border,
                self.attempts == old(self).attempts,
            decreases offsets@.len() - i,
        {
            let p = offsets[i];
            assert(lands(offsets@[i as int], event.pos));
            let c = p.add(event.pos);
            let ghost before = *self;
            let ghost cells_before = cells@;
            self.scored_positions.insert(key(c), BLOCKED);
            proof {
                let after = *self;
                before.lemma_field_insert(&after, c, BLOCKED);
            }
            self.bounds.expand(&c);
            cells.push(c);
            i += 1;
            proof {
                assert(anchored(offsets@.take(i as int), event.pos) =~= cells@);
                assert(cells@.drop_last() =~= cells_before);
                assert forall|d: GlobalPos| #[trigger] cells@.contains(d) <==> cells_before.contains(d) || d == c by {
                    lemma_push_contains(cells_before, c, d);
                }
                assert(self.field() =~= Map::new(
                    |c: GlobalPos| f0.contains_key(c) || cells@.contains(c),
                    |c: GlobalPos| if cells@.contains(c) { BLOCKED } else { f0[c] },
                ));
            }
        }
        assert(offsets@.take(i as int) =~= offsets@);
        assert(cells@ == cells_all);
        let ghost f1 = self.field();
        proof {
            lemma_expand_all(old(self).bounds, cells@);
        }
        // Drop the covered cells from the frontier.
        let mut kept: Vec<BorderTile> = Vec::new();
        let ghost mut idxs: Seq<int> = Seq::empty();
        let mut j: usize = 0;
        while j < self.border.len()
            invariant
                j <= self.border@.len(),
                self.border@ == old_border,
                self.field() == f1,
                idxs.len() == kept@.len(),
                forall|k: int|
                    0 <= k < kept@.len() ==> 0 <= #[trigger] idxs[k] < j && kept@[k] == old_border[idxs[k]]
                        && !occupied(f1, kept@[k].global_pos),
                forall|k1: int, k2: int| 0 <= k1 < k2 < idxs.len() ==> idxs[k1] < idxs[k2],
                forall|jj: int|
                    0 <= jj < j && !occupied(f1, (#[trigger] old_border[jj]).global_pos)
                        ==> kept@.contains(old_border[jj]),
            decreases self.border@.len() - j,
        {
            let b = self.border[j];
            let ghost kept_before = kept@;
            if !self.is_taken(&b.global_pos) {
                kept.push(b);
                proof {
                    idxs = idxs.push(j as int);
                }
            }
            proof {
                assert forall|jj: int|
                    0 <= jj < j + 1 && !occupied(f1, (#[trigger] old_border[jj]).global_pos)
                        implies kept@.contains(old_border[jj]) by {
                    if jj < j {
                        lemma_push_contains(kept_before, b, old_border[jj]);
                    } else {
                        assert(kept@[kept@.len() - 1] == b);
                    }
                }
            }
            j += 1;
        }
        let ghost kept2 = kept@;
        self.border = kept;
        proof {
            assert forall|k1: int, k2: int|
                0 <= k1 < k2 < positions(kept2).len() implies positions(kept2)[k1] != positions(kept2)[k2] by {
                assert(idxs[k1] < idxs[k2]);
                assert(positions(old_border)[idxs[k1]] != positions(old_border)[idxs[k2]]);
            }
            assert forall|c: GlobalPos| #[trigger] self.field().contains_key(c) && self.field()[c]
                != BLOCKED implies self.on_frontier(c) by {
                assert(!cells@.contains(c));
                assert(old(self).on_frontier(c));
                let k = choose|k: int| 0 <= k < positions(old_border).len() && positions(old_border)[k] == c;
                assert(old_border[k].global_pos == c);
                assert(kept2.contains(old_border[k]));
                let m = choose|m: int| 0 <= m < kept2.len() && kept2[m] == old_border[k];
                assert(positions(kept2)[m] == c);
            }
            assert forall|k: int| 0 <= k < kept2.len() implies {
                let b = #[trigger] kept2[k];
                &&& !self.is_occupied(b.global_pos)
                &&& self.field().contains_key(b.global_pos) ==> self.field()[b.global_pos] == b.total()
                &&& !self.field().contains_key(b.global_pos) ==> b.adjacency_score == 0
                    && b.distance_score == 0
                &&& 0 <= b.adjacency_score <= 4
                &&& -SCORE_LIMIT <= b.distance_score <= 10
                &&& near_world(b.global_pos)
            } by {
                assert(old_border[idxs[k]] == kept2[k]);
            }
            assert forall|k: int| 0 <= k < cells@.len() implies in_world(#[trigger] cells@[k]) by {
                assert(lands(offsets@[k], event.pos));
            }
            lemma_expand_all_in_world(old(self).bounds, cells@);
            assert forall|c: GlobalPos| #[trigger] self.is_occupied(c) implies in_world(c)
                && self.bounds_view().covers(c) by {
                if cells@.contains(c) {
                    let k = choose|k: int| 0 <= k < cells@.len() && cells@[k] == c;
                    assert(lands(offsets@[k], event.pos));
                } else {
                    assert(old(self).is_occupied(c));
                }
            }
            assert(self.wf_core());
        }
        // Bring the free neighbours of the covered cells into the frontier.
        let mut i: usize = 0;
        while i < cells.len()
            invariant
                self.wf_core(),
                i <= cells@.len(),
                cells@ == cells_all,
                forall|k: int| 0 <= k < cells@.len() ==> in_world(#[trigger] cells@[k]),
                self.field() == f1,
                forall|ii: int, kk: int| 0 <= ii < i && 0 <= kk < 4 ==> self.is_occupied(
                    #[trigger] neighbours(cells@[ii])[kk],
                ) || self.on_frontier(neighbours(cells@[ii])[kk]),
                self.frontier().len() >= kept2.len(),
                forall|k: int| 0 <= k < kept2.len() ==> #[trigger] self.frontier()[k] == kept2[k],
                forall|k: int| kept2.len() <= k < self.frontier().len() ==> (#[trigger] self.frontier()[k]).adjacency_score == 0
                    && self.frontier()[k].distance_score == 0 && touches(cells@, self.frontier()[k].global_pos),
                self.bounds_view() == expand_all(old(self).bounds_view(), cells_all),
                self.attempts == old(self).attempts,
            decreases cells@.len() - i,
        {
            let c = cells[i];
            let ns = iter_moore(c);
            let mut k: usize = 0;
            while k < 4
                invariant
                    self.wf_core(),
                    i < cells@.len(),
                    c == cells@[i as int],
                    in_world(c),
                    ns@ == neighbours(c),
                    k <= 4,
                    cells@ == cells_all,
                    self.field() == f1,
                    forall|ii: int, kk: int| 0 <= ii < i && 0 <= kk < 4 ==> self.is_occupied(
                        #[trigger] neighbours(cells@[ii])[kk],
                    ) || self.on_frontier(neighbours(cells@[ii])[kk]),
                    forall|kk: int| 0 <= kk < k ==> self.is_occupied(#[trigger] neighbours(c)[kk])
                        || self.on_frontier(neighbours(c)[kk]),
                    self.frontier().len() >= kept2.len(),
                    forall|k: int| 0 <= k < kept2.len() ==> #[trigger] self.frontier()[k] == kept2[k],
                    forall|k: int| kept2.len() <= k < self.frontier().len() ==> (#[trigger] self.frontier()[k]).adjacency_score == 0
                        && self.frontier()[k].distance_score == 0 && touches(cells@, self.frontier()[k].global_pos),
                    self.bounds_view() == expand_all(old(self).bounds_view(), cells_all),
                    self.attempts == old(self).attempts,
                decreases 4 - k,
            {
                let n = ns[k];
                proof {
                    lemma_neighbours(c, n);
                    assert(neighbours(c)[k as int] == n);
                    assert(adjacent(c, n));
                }
                let ghost before = *self;
                self.add_frontier_cell(n);
                proof {
                    assert forall|d: GlobalPos| before.on_frontier(d) implies #[trigger] self.on_frontier(d) by {
                        if self.frontier() != before.frontier() {
                            lemma_push_contains(positions(before.frontier()), n, d);
                            assert(positions(self.frontier()) =~= positions(before.frontier()).push(n));
                        }
                    }
                    if self.frontier() != before.frontier() {
                        assert(positions(self.frontier()) =~= positions(before.frontier()).push(n));
                        assert(positions(self.frontier())[before.frontier().len() as int] == n);
                    }
                    assert forall|k2: int| kept2.len() <= k2 < self.frontier().len() implies (#[trigger] self.frontier()[k2]).adjacency_score == 0
                        && self.frontier()[k2].distance_score == 0 && touches(cells@, self.frontier()[k2].global_pos) by {
                        if k2 < before.frontier().len() {
                            assert(self.frontier()[k2] == before.frontier()[k2]);
                        } else {
                            assert(self.frontier()[k2].global_pos == n);
                            assert(adjacent(cells@[i as int], n));
                        }
                    }
                    assert forall|ii: int, kk: int| 0 <= ii < i && 0 <= kk < 4 implies self.is_occupied(
                        #[trigger] neighbours(cells@[ii])[kk],
                    ) || self.on_frontier(neighbours(cells@[ii])[kk]) by {
                        assert(before.is_occupied(neighbours(cells@[ii])[kk]) || before.on_frontier(neighbours(cells@[ii])[kk]));
                    }
                    assert forall|kk: int| 0 <= kk < k + 1 implies self.is_occupied(#[trigger] neighbours(c)[kk])
                        || self.on_frontier(neighbours(c)[kk]) by {
                        if kk < k {
                            assert(before.is_occupied(neighbours(c)[kk]) || before.on_frontier(neighbours(c)[kk]));
                        }
                    }
                }
                k += 1;
            }
            i += 1;
        }
        proof {
            assert(f1 =~= committed(f0, cells_all));
            assert forall|i2: int| 0 <= i2 < cells_all.len() implies !old(self).is_occupied(
                #[trigger] cells_all[i2],
            ) && self.is_occupied(cells_all[i2]) by {
                assert(cells_all.contains(cells_all[i2]));
            }
            assert forall|i2: int|
                0 <= i2 < old_border.len() && !cells_all.contains((#[trigger] old_border[i2]).global_pos)
                    implies self.frontier().contains(old_border[i2]) by {
                assert(!occupied(f1, old_border[i2].global_pos));
                let m = choose|m: int| 0 <= m < kept2.len() && kept2[m] == old_border[i2];
                assert(self.frontier()[m] == old_border[i2]);
            }
            assert forall|j2: int| 0 <= j2 < self.frontier().len() implies old_border.contains(
                #[trigger] self.frontier()[j2],
            ) || (self.frontier()[j2].adjacency_score == 0 && self.frontier()[j2].distance_score == 0) by {
                if j2 < kept2.len() {
                    assert(old_border[idxs[j2]] == kept2[j2]);
                }
            }
            // The frontier is exactly what the contract says.
            assert forall|c: GlobalPos| #[trigger] self.on_frontier(c) <==> (old(self).on_frontier(c)
                && !cells_all.contains(c)) || (touches(cells_all, c) && !self.is_occupied(c)) by {
                if self.on_frontier(c) {
                    let j = choose|j: int| 0 <= j < positions(self.frontier()).len() && positions(self.frontier())[j] == c;
                    assert(self.frontier()[j].global_pos == c);
                    if j < kept2.len() {
                        assert(old_border[idxs[j]] == kept2[j]);
                        assert(positions(old_border)[idxs[j]] == c);
                        assert(!occupied(f1, c));
                    }
                }
                if old(self).on_frontier(c) && !cells_all.contains(c) {
                    let m = choose|m: int| 0 <= m < positions(old_border).len() && positions(old_border)[m] == c;
                    assert(old_border[m].global_pos == c);
                    assert(!occupied(f1, c));
                    let q = choose|q: int| 0 <= q < kept2.len() && kept2[q] == old_border[m];
                    assert(positions(self.frontier())[q] == c);
                }
                if touches(cells_all, c) && !self.is_occupied(c) {
                    let ii = choose|ii: int| 0 <= ii < cells_all.len() && adjacent(#[trigger] cells_all[ii], c);
                    lemma_neighbours(cells_all[ii], c);
                    let kk = choose|kk: int| 0 <= kk < 4 && neighbours(cells_all[ii])[kk] == c;
                    assert(self.is_occupied(neighbours(cells@[ii])[kk]) || self.on_frontier(neighbours(cells@[ii])[kk]));
                }
            }
            // Every neighbour of a placed cell is placed or on the frontier.
            assert forall|c: GlobalPos, k: int| self.is_occupied(c) && 0 <= k < 4 implies self.is_occupied(
                #[trigger] neighbours(c)[k],
            ) || self.on_frontier(neighbours(c)[k]) by {
                let n = neighbours(c)[k];
                if cells_all.contains(c) {
                    let ii = choose|ii: int| 0 <= ii < cells_all.len() && cells_all[ii] == c;
                    assert(self.is_occupied(neighbours(cells@[ii])[k]) || self.on_frontier(neighbours(cells@[ii])[k]));
                } else {
                    assert(old(self).is_occupied(c));
                    assert(old(self).is_occupied(n) || old(self).on_frontier(n));
                    if !cells_all.contains(n) && old(self).on_frontier(n) {
                        assert(self.on_frontier(n));
                    }
                }
            }
            // Every frontier cell lies next to a placed cell.
            assert forall|j: int| 0 <= j < self.frontier().len() implies self.next_to_placed((#[trigger] self.frontier()[j]).global_pos) by {
                if j < kept2.len() {
                    assert(old_border[idxs[j]] == kept2[j]);
                    let d = choose|d: GlobalPos| old(self).is_occupied(d) && adjacent(d, old_border[idxs[j]].global_pos);
                    assert(self.is_occupied(d));
                } else {
                    let ii = choose|ii: int| 0 <= ii < cells_all.len() && adjacent(#[trigger] cells_all[ii], self.frontier()[j].global_pos);
                    assert(cells_all.contains(cells_all[ii]));
                    assert(self.is_occupied(cells_all[ii]));
                }
            }
            assert(self.wf_core());
            assert(self.surrounded());
        }
    }

    /// Recomputes both scores of every frontier cell and stores their sum
    /// in the field: the adjacency score counts the covered neighbours, the
    /// distance score rates the distance from the seed against the diagonal
    /// of the bounds. While nothing is placed, nothing changes.
    pub fn update_boundary_score(&mut self)
        requires
            old(self).wf(),
        ensures
            final(self).wf(),
            final(self).bounds_view() == old(self).bounds_view(),
            final(self).attempts_view() == old(self).attempts_view(),
            old(self).bounds_view().is_empty() ==> final(self).field() == old(self).field()
                && final(self).frontier() == old(self).frontier(),
            forall|c: GlobalPos| #[trigger] final(self).field().contains_key(c) == (old(self).field().contains_key(c)
                || old(self).on_frontier(c)),
            final(self).scored(),
            forall|c: GlobalPos| #[trigger] final(self).is_occupied(c) == old(self).is_occupied(c),
            final(self).frontier().len() == old(self).frontier().len(),
            forall|i: int| 0 <= i < final(self).frontier().len() ==> (#[trigger] final(self).frontier()[i]).global_pos
                == old(self).frontier()[i].global_pos,
            forall|i: int| 0 <= i < final(self).frontier().len() ==> 0 <= (#[trigger] final(self).frontier()[i]).adjacency_score <= 4,
            !old(self).bounds_view().is_empty() ==> forall|i: int| 0 <= i < final(self).frontier().len() ==> {
                let b = #[trigger] final(self).frontier()[i];
                &&& b.adjacency_score == adjacency_count(old(self).field(), b.global_pos)
                &&& is_distance_score(
                    b.distance_score as int,
                    dist_sq(b.global_pos),
                    diag_sq(old(self).bounds_view()),
                )
            },
    {
        if self.bounds.is_default() {
            proof {
                if self.frontier().len() > 0 {
                    let d = choose|d: GlobalPos| self.is_occupied(d) && adjacent(d, self.frontier()[0].global_pos);
                    assert(self.bounds_view().covers(d));
                }
            }
            return;
        }
        let w = self.bounds.width() as u128;
        let h = self.bounds.height() as u128;
        assert(1 <= w * w <= 0x4000_0001_0000_0001 && 1 <= h * h <= 0x4000_0001_0000_0001) by (nonlinear_arith)
            requires
                1 <= w <= 0x8000_0001,
                1 <= h <= 0x8000_0001,
        ;
        let diag = w * w + h * h;
        let ghost f0 = self.field();
        let mut i: usize = 0;
        while i < self.border.len()
            invariant
                self.wf(),
                !self.bounds_view().is_empty(),
                self.bounds_view() == old(self).bounds_view(),
                self.attempts == old(self).attempts,
                diag == diag_sq(self.bounds_view()),
                1 <= diag < 0x2_0000_0000_0000_0000,
                i <= self.frontier().len(),
                f0 == old(self).field(),
                forall|c: GlobalPos| f0.contains_key(c) ==> #[trigger] self.field().contains_key(c),
                forall|c: GlobalPos| #[trigger] self.field().contains_key(c) ==> f0.contains_key(c)
                    || old(self).on_frontier(c),
                forall|k: int| 0 <= k < i ==> self.field().contains_key((#[trigger] self.frontier()[k]).global_pos),
                positions(self.frontier()) == positions(old(self).frontier()),
                forall|c: GlobalPos| #[trigger] occupied(self.field(), c) == occupied(f0, c),
                self.frontier().len() == old(self).frontier().len(),
                forall|k: int| 0 <= k < self.frontier().len() ==> (#[trigger] self.frontier()[k]).global_pos
                    == old(self).frontier()[k].global_pos,
                forall|k: int| 0 <= k < i ==> {
                    let b = #[trigger] self.frontier()[k];
                    &&& b.adjacency_score == adjacency_count(f0, b.global_pos)
                    &&& is_distance_score(
                        b.distance_score as int,
                        dist_sq(b.global_pos),
                        diag_sq(self.bounds_view()),
                    )
                },
            decreases self.frontier().len() - i,
        {
            let pos = self.border[i].global_pos;
            assert(near_world(self.frontier()[i as int].global_pos));
            let ns = iter_moore(pos);
            let mut adjacency: i64 = 0;
            if self.is_taken(&ns[0]) {
                adjacency += 1;
            }
            if self.is_taken(&ns[1]) {
                adjacency += 1;
            }
            if self.is_taken(&ns[2]) {
                adjacency += 1;
            }
            if self.is_taken(&ns[3]) {
                adjacency += 1;
            }
            assert(adjacency == adjacency_count(f0, pos));
            let dx = pos.x as i64 - SEED_X as i64;
            let dy = pos.y as i64 - SEED_Y as i64;
            assert(dx * dx <= 0x1000_0000_8000_0001 && dy * dy <= 0x1000_0000_8000_0001) by (nonlinear_arith)
                requires
                    -0x4000_0001 <= dx <= 0x4000_0001,
                    -0x4000_0001 <= dy <= 0x4000_0001,
            ;
            assert(dx * dx >= 0 && dy * dy >= 0) by (nonlinear_arith);
            let dsq = (dx * dx) as u128 + (dy * dy) as u128;
            let distance = distance_score(dsq, diag);
            let ghost before = *self;
            self.scored_positions.insert(key(pos), adjacency + distance);
            proof {
                let after = *self;
                before.lemma_field_insert(&after, pos, (adjacency + distance) as i64);
            }
            self.border[i] = BorderTile { adjacency_score: adjacency, distance_score: distance, global_pos: pos };
            proof {
                assert(positions(self.frontier()) =~= positions(before.frontier()));
                assert forall|k: int| 0 <= k < self.frontier().len() implies {
                    let b = #[trigger] self.frontier()[k];
                    &&& !self.is_occupied(b.global_pos)
                    &&& self.field().contains_key(b.global_pos) ==> self.field()[b.global_pos] == b.total()
                    &&& !self.field().contains_key(b.global_pos) ==> b.adjacency_score == 0
                        && b.distance_score == 0
                    &&& 0 <= b.adjacency_score <= 4
                    &&& -SCORE_LIMIT <= b.distance_score <= 10
                    &&& near_world(b.global_pos)
                } by {
                    if k != i {
                        assert(positions(before.frontier())[k] != positions(before.frontier())[i as int]);
                        assert(before.frontier()[k] == self.frontier()[k]);
                    }
                }
                assert forall|c: GlobalPos| #[trigger] self.field().contains_key(c) && self.field()[c]
                    != BLOCKED implies self.on_frontier(c) by {
                    if c != pos {
                        assert(before.field().contains_key(c));
                        assert(before.on_frontier(c));
                    } else {
                        assert(positions(self.frontier())[i as int] == c);
                    }
                }
                assert(!occupied(before.field(), pos));
                assert forall|c: GlobalPos| #[trigger] self.field().contains_key(c) implies f0.contains_key(c)
                    || old(self).on_frontier(c) by {
                    if c == pos {
                        assert(positions(old(self).frontier())[i as int] == c);
                    } else {
                        assert(before.field().contains_key(c));
                    }
                }
                assert forall|k: int| 0 <= k < i + 1 implies self.field().contains_key((#[trigger] self.frontier()[k]).global_pos) by {
                    if k < i {
                        assert(before.field().contains_key(before.frontier()[k].global_pos));
                        assert(positions(before.frontier())[k] == self.frontier()[k].global_pos);
                    }
                }
                assert forall|c: GlobalPos| #[trigger] self.on_frontier(c) == before.on_frontier(c) by {}
                assert forall|c: GlobalPos, k: int| self.is_occupied(c) && 0 <= k < 4 implies self.is_occupied(
                    #[trigger] neighbours(c)[k],
                ) || self.on_frontier(neighbours(c)[k]) by {
                    assert(before.is_occupied(c));
                    assert(before.is_occupied(neighbours(c)[k]) || before.on_frontier(neighbours(c)[k]));
                }
                assert forall|k: int| 0 <= k < self.frontier().len() implies self.next_to_placed((#[trigger] self.frontier()[k]).global_pos) by {
                    assert(positions(before.frontier())[k] == self.frontier()[k].global_pos);
                    let d = choose|d: GlobalPos| before.is_occupied(d) && adjacent(d, before.frontier()[k].global_pos);
                    assert(self.is_occupied(d));
                }
                assert forall|c: GlobalPos| #[trigger] occupied(self.field(), c) == occupied(f0, c) by {
                    assert(occupied(before.field(), c) == occupied(f0, c));
                }
                assert forall|c: GlobalPos| #[trigger] self.is_occupied(c) implies in_world(c)
                    && self.bounds_view().covers(c) by {
                    assert(before.is_occupied(c));
                }
            }
            i += 1;
        }
        proof {
            assert forall|c: GlobalPos| #[trigger] self.field().contains_key(c) == (f0.contains_key(c)
                || old(self).on_frontier(c)) by {
                if old(self).on_frontier(c) {
                    let k = choose|k: int| 0 <= k < positions(old(self).frontier()).len() && positions(old(self).frontier())[k] == c;
                    assert(positions(self.frontier())[k] == c);
                    assert(self.field().contains_key(self.frontier()[k].global_pos));
                }
            }
        }
    }

    /// The frontier holds exactly the free cells that share an edge with a
    /// placed cell.
    pub proof fn lemma_frontier_exact(&self, c: GlobalPos)
        requires
            self.wf(),
        ensures
            self.on_frontier(c) <==> (!self.is_occupied(c) && exists|d: GlobalPos| self.is_occupied(d)
                && adjacent(d, c)),
    {
        if self.on_frontier(c) {
            let k = choose|k: int| 0 <= k < positions(self.frontier()).len() && positions(self.frontier())[k] == c;
            assert(self.frontier()[k].global_pos == c);
        }
        if exists|d: GlobalPos| self.is_occupied(d) && adjacent(d, c) {
            let d = choose|d: GlobalPos| self.is_occupied(d) && adjacent(d, c);
            lemma_neighbours(d, c);
            let k = choose|k: int| 0 <= k < 4 && neighbours(d)[k] == c;
            assert(self.is_occupied(neighbours(d)[k]) || self.on_frontier(neighbours(d)[k]));
        }
    }

    proof fn lemma_value_range(&self, c: GlobalPos)
        requires
            self.wf(),
            self.field().contains_key(c),
            self.field()[c] != BLOCKED,
        ensures
            -SCORE_LIMIT <= self.field()[c] <= 14,
    {
        assert(self.on_frontier(c));
        let k = choose|k: int| 0 <= k < positions(self.frontier()).len() && positions(self.frontier())[k] == c;
        assert(self.frontier()[k].global_pos == c);
    }

    /// The score of putting `shape_positions` on `offset`, or nothing if a
    /// covered cell would leave the world or is covered already.
    pub fn get_placement_score(&self, offset: &GlobalPos, shape_positions: &Vec<GlobalPos>) -> (r: Option<i128>)
        requires
            self.wf(),
        ensures
            r is Some <==> fits(self.field(), shape_positions@, *offset),
            (exists|i: int| 0 <= i < shape_positions@.len() && occupied(
                self.field(),
                pos_add(#[trigger] shape_positions@[i], *offset),
            )) ==> r is None,
            r matches Some(v) ==> v == placement_score(self.field(), shape_positions@, *offset),
    {
        let mut score_sum: i128 = 0;
        let mut i: usize = 0;
        while i < shape_positions.len()
            invariant
                self.wf(),
                i <= shape_positions@.len(),
                fits(self.field(), shape_positions@.take(i as int), *offset),
                score_sum == placement_score(self.field(), shape_positions@.take(i as int), *offset),
                -(i as int) * SCORE_LIMIT <= score_sum <= 14 * i,
            decreases shape_positions@.len() - i,
        {
            let ghost prefix = shape_positions@.take(i as int);
            let ghost next = shape_positions@.take(i + 1);
            assert(next.drop_last() =~= prefix);
            let p = shape_positions[i];
            let x = p.x as i64 + offset.x as i64;
            let y = p.y as i64 + offset.y as i64;
            if x < -(WORLD_LIMIT as i64) || x > WORLD_LIMIT as i64 || y < -(WORLD_LIMIT as i64) || y
                > WORLD_LIMIT as i64 {
                proof {
                    assert(!lands(shape_positions@[i as int], *offset));
                }
                return None;
            }
            let c = GlobalPos { x: x as i32, y: y as i32 };
            assert(c == pos_add(shape_positions@[i as int], *offset));
            match self.value_at(&c) {
                Some(v) => {
                    if v == BLOCKED {
                        return None;
                    }
                    proof {
                        self.lemma_value_range(c);
                    }
                    score_sum = score_sum + v as i128;
                },
                None => {},
            }
            i += 1;
            proof {
                assert forall|k: int| 0 <= k < next.len() implies lands(#[trigger] next[k], *offset) by {
                    if k < prefix.len() {
                        assert(next[k] == prefix[k]);
                    }
                }
                assert forall|k: int| 0 <= k < next.len() implies !occupied(
                    self.field(),
                    pos_add(#[trigger] next[k], *offset),
                ) by {
                    if k < prefix.len() {
                        assert(next[k] == prefix[k]);
                    }
                }
            }
        }
        assert(shape_positions@.take(i as int) =~= shape_positions@);
        Some(score_sum)
    }

    /// The frontier cells ordered by descending total score; cells of equal
    /// score keep their frontier order.
    pub fn collect_candidate_positions(&self) -> (r: Vec<GlobalPos>)
        requires
            self.wf(),
        ensures
            r@.len() == self.frontier().len(),
            forall|c: GlobalPos| r@.contains(c) <==> self.on_frontier(c),
            forall|i: int, j: int| 0 <= i < j < r@.len() ==> cell_value(self.field(), #[trigger] r@[i])
                >= cell_value(self.field(), #[trigger] r@[j]),
    {
        let mut sorted: Vec<BorderTile> = Vec::new();
        let mut i: usize = 0;
        while i < self.border.len()
            invariant
                self.wf(),
                i <= self.frontier().len(),
                sorted@.len() == i,
                forall|b: BorderTile| sorted@.contains(b) <==> self.frontier().take(i as int).contains(b),
                forall|k: int, j: int| 0 <= k < j < sorted@.len() ==> (#[trigger] sorted@[k]).total()
                    >= (#[trigger] sorted@[j]).total(),
                forall|k: int| 0 <= k < sorted@.len() ==> -SCORE_LIMIT <= (#[trigger] sorted@[k]).total() <= 14,
            decreases self.frontier().len() - i,
        {
            let b = self.border[i];
            assert(self.frontier()[i as int] == b);
            let score = b.score();
            let mut p: usize = 0;
            while p < sorted.len() && sorted[p].score() >= score
                invariant
                    p <= sorted@.len(),
                    forall|k: int| 0 <= k < p ==> (#[trigger] sorted@[k]).total() >= b.total(),
                    forall|b2: BorderTile| sorted@.contains(b2) ==> self.frontier().take(i as int).contains(b2),
                    forall|k: int| 0 <= k < sorted@.len() ==> -SCORE_LIMIT <= (#[trigger] sorted@[k]).total() <= 14,
                    self.wf(),
                    score == b.total(),
                    i < self.frontier().len(),
                decreases sorted@.len() - p,
            {
                proof {
                    assert(sorted@.contains(sorted@[p as int]));
                    let k = choose|k: int| 0 <= k < i && self.frontier().take(i as int)[k] == sorted@[p as int];
                    assert(self.frontier()[k] == sorted@[p as int]);
                }
                p += 1;
            }
            let ghost before = sorted@;
            sorted.insert(p, b);
            proof {
                let take_next = self.frontier().take(i + 1);
                let take_prev = self.frontier().take(i as int);
                assert(take_next =~= take_prev.push(b));
                assert forall|b2: BorderTile| sorted@.contains(b2) <==> take_next.contains(b2) by {
                    lemma_push_contains(take_prev, b, b2);
                    if sorted@.contains(b2) {
                        let k = choose|k: int| 0 <= k < sorted@.len() && sorted@[k] == b2;
                        if k < p {
                            assert(before[k] == b2);
                        } else if k > p {
                            assert(before[k - 1] == b2);
                        }
                    }
                    if before.contains(b2) {
                        let k = choose|k: int| 0 <= k < before.len() && before[k] == b2;
                        if k < p {
                            assert(sorted@[k] == b2);
                        } else {
                            assert(sorted@[k + 1] == b2);
                        }
                    }
                    if b2 == b {
                        assert(sorted@[p as int] == b);
                    }
                }
                assert forall|k: int| 0 <= k < sorted@.len() implies -SCORE_LIMIT <= (#[trigger] sorted@[k]).total() <= 14 by {
                    if k < p {
                        assert(sorted@[k] == before[k]);
                    } else if k > p {
                        assert(sorted@[k] == before[k - 1]);
                    }
                }
                assert forall|k: int, j: int| 0 <= k < j < sorted@.len() implies (#[trigger] sorted@[k]).total()
                    >= (#[trigger] sorted@[j]).total() by {
                    if p < before.len() {
                        assert(before[p as int].total() < b.total());
                    }
                    if k < p && j == p {
                    } else if k == p && j > p {
                        assert(sorted@[j] == before[j - 1]);
                        assert(before[p as int].total() >= before[j - 1].total());
                    } else if k < p && j > p {
                        assert(sorted@[j] == before[j - 1]);
                    } else if k > p {
                        assert(sorted@[j] == before[j - 1]);
                        assert(sorted@[k] == before[k - 1]);
                    }
                }
            }
            i += 1;
        }
        assert(self.frontier().take(i as int) =~= self.frontier());
        let mut out: Vec<GlobalPos> = Vec::new();
        let mut j: usize = 0;
        while j < sorted.len()
            invariant
                j <= sorted@.len(),
                out@ == positions(sorted@.take(j as int)),
            decreases sorted@.len() - j,
        {
            out.push(sorted[j].global_pos);
            j += 1;
            assert(out@ =~= positions(sorted@.take(j as int)));
        }
        assert(sorted@.take(j as int) =~= sorted@);
        proof {
            assert forall|c: GlobalPos| out@.contains(c) <==> self.on_frontier(c) by {
                if out@.contains(c) {
                    let k = choose|k: int| 0 <= k < out@.len() && out@[k] == c;
                    assert(sorted@.contains(sorted@[k]));
                    let m = choose|m: int| 0 <= m < self.frontier().len() && self.frontier()[m] == sorted@[k];
                    assert(positions(self.frontier())[m] == c);
                }
                if self.on_frontier(c) {
                    let m = choose|m: int| 0 <= m < positions(self.frontier()).len() && positions(self.frontier())[m] == c;
                    assert(self.frontier().contains(self.frontier()[m]));
                    assert(self.frontier().take(i as int).contains(self.frontier()[m]));
                    assert(sorted@.contains(self.frontier()[m]));
                    let k = choose|k: int| 0 <= k < sorted@.len() && sorted@[k] == self.frontier()[m];
                    assert(out@[k] == c);
                }
            }
            assert forall|a: int, b: int| 0 <= a < b < out@.len() implies cell_value(self.field(), #[trigger] out@[a])
                >= cell_value(self.field(), #[trigger] out@[b]) by {
                assert(sorted@.contains(sorted@[a]));
                assert(sorted@.contains(sorted@[b]));
                let ma = choose|m: int| 0 <= m < self.frontier().len() && self.frontier()[m] == sorted@[a];
                let mb = choose|m: int| 0 <= m < self.frontier().len() && self.frontier()[m] == sorted@[b];
                assert(sorted@[a].total() >= sorted@[b].total());
            }
        }
        out
    }

    /// The best placement among the candidates, with its score, and how
    /// many placements were weighed. Every available shape is tried upright
    /// with each of its offsets put on each frontier cell, best first;
    /// among equal scores the last one found is kept.
    pub fn search(&self, bag: &ShapeBag) -> (r: (Option<(i128, PlaceShapeEvent)>, usize))
        requires
            self.wf(),
            bag.wf(),
        ensures
            r.0 is None <==> !exists|ev: PlaceShapeEvent| is_candidate(*self, *bag, ev),
            r.0 matches Some(b) ==> is_candidate(*self, *bag, b.1) && b.0 == event_score(*self, *bag, b.1),
            r.0 matches Some(b) ==> forall|ev: PlaceShapeEvent| #[trigger] is_candidate(*self, *bag, ev)
                ==> event_score(*self, *bag, ev) <= b.0,
            r.1 == saturated(tries(*bag, available_indices(bag.counts()), self.frontier().len() as int)),
    {
        let avail = bag.iter_available();
        let front = self.collect_candidate_positions();
        let ghost fl = front@.len() as int;
        let mut best: Option<(i128, PlaceShapeEvent)> = None;
        let mut count: usize = 0;
        let mut a: usize = 0;
        assert(avail@.take(0) =~= Seq::<usize>::empty());
        while a < avail.len()
            invariant
                self.wf(),
                bag.wf(),
                avail@ == available_indices(bag.counts()),
                lists_available(bag.counts(), avail@),
                front@.len() == self.frontier().len(),
                fl == front@.len(),
                forall|c: GlobalPos| front@.contains(c) <==> self.on_frontier(c),
                a <= avail@.len(),
                best matches Some(b) ==> is_candidate(*self, *bag, b.1) && b.0 == event_score(*self, *bag, b.1),
                forall|aa: int, ff: int, tt: int|
                    0 <= aa < a && 0 <= ff < fl && 0 <= tt < upright_offsets(*bag, avail@[aa]).len()
                        ==> #[trigger] covered(*self, *bag, best, avail@, front@, aa, ff, tt),
                count == saturated(tries(*bag, avail@.take(a as int), fl)),
            decreases avail@.len() - a,
        {
            let s = avail[a];
            let perm = ShapePermutation { index: s, permutation: Permutation { rotation: 0, flipped: false } };
            let offs = bag.iter_pos(&perm);
            let ghost tl = offs@.len() as int;
            assert(tl == bag.shapes()[s as int].tiles@.len());
            let ghost base = tries(*bag, avail@.take(a as int), fl);
            assert(avail@.take(a + 1).drop_last() =~= avail@.take(a as int));
            assert(tries(*bag, avail@.take(a + 1), fl) == base + fl * tl);
            assert(0 * tl == 0) by (nonlinear_arith);
            let mut f: usize = 0;
            while f < front.len()
                invariant
                    self.wf(),
                    bag.wf(),
                    avail@ == available_indices(bag.counts()),
                    lists_available(bag.counts(), avail@),
                    front@.len() == self.frontier().len(),
                    fl == front@.len(),
                    forall|c: GlobalPos| front@.contains(c) <==> self.on_frontier(c),
                    a < avail@.len(),
                    s == avail@[a as int],
                    perm == (ShapePermutation { index: s, permutation: upright() }),
                    offs@ == upright_offsets(*bag, s),
                    tl == offs@.len(),
                    f <= fl,
                    best matches Some(b) ==> is_candidate(*self, *bag, b.1) && b.0 == event_score(*self, *bag, b.1),
                    forall|aa: int, ff: int, tt: int|
                        0 <= aa < a && 0 <= ff < fl && 0 <= tt < upright_offsets(*bag, avail@[aa]).len()
                            ==> #[trigger] covered(*self, *bag, best, avail@, front@, aa, ff, tt),
                    forall|ff: int, tt: int| 0 <= ff < f && 0 <= tt < tl
                        ==> #[trigger] covered(*self, *bag, best, avail@, front@, a as int, ff, tt),
                    count == saturated(base + f * tl),
                decreases fl - f,
            {
                let fpos = front[f];
                let mut t: usize = 0;
                while t < offs.len()
                    invariant
                        self.wf(),
                        bag.wf(),
                        lists_available(bag.counts(), avail@),
                        forall|c: GlobalPos| front@.contains(c) <==> self.on_frontier(c),
                        a < avail@.len(),
                        s == avail@[a as int],
                        perm == (ShapePermutation { index: s, permutation: upright() }),
                        offs@ == upright_offsets(*bag, s),
                        tl == offs@.len(),
                        f < fl,
                        fl == front@.len(),
                        fpos == front@[f as int],
                        t <= tl,
                        best matches Some(b) ==> is_candidate(*self, *bag, b.1) && b.0 == event_score(*self, *bag, b.1),
                        forall|aa: int, ff: int, tt: int|
                            0 <= aa < a && 0 <= ff < fl && 0 <= tt < upright_offsets(*bag, avail@[aa]).len()
                                ==> #[trigger] covered(*self, *bag, best, avail@, front@, aa, ff, tt),
                        forall|ff: int, tt: int| 0 <= ff < f && 0 <= tt < tl
                            ==> #[trigger] covered(*self, *bag, best, avail@, front@, a as int, ff, tt),
                        forall|tt: int| 0 <= tt < t ==> #[trigger] covered(*self, *bag, best, avail@, front@, a as int, f as int, tt),
                        count == saturated(base + f * tl + t),
                    decreases tl - t,
                {
                    let tp = offs[t];
                    count = count.saturating_add(1);
                    let ax = fpos.x as i64 - tp.x as i64;
                    let ay = fpos.y as i64 - tp.y as i64;
                    let ghost old_best = best;
                    if i32::MIN as i64 <= ax && ax <= i32::MAX as i64 && i32::MIN as i64 <= ay && ay
                        <= i32::MAX as i64 {
                        let anchor = GlobalPos { x: ax as i32, y: ay as i32 };
                        assert(anchor == aligned(s, fpos, tp).pos);
                        match self.get_placement_score(&anchor, &offs) {
                            Some(score) => {
                                let better = match best {
                                    Some(b) => score >= b.0,
                                    None => true,
                                };
                                if better {
                                    let ev = PlaceShapeEvent { permutation: perm, pos: anchor };
                                    proof {
                                        assert(lands(offs@[t as int], anchor));
                                        assert(pos_add(offs@[t as int], anchor) == fpos);
                                        assert(front@.contains(fpos));
                                        assert(bag.counts()[s as int] > 0);
                                    }
                                    best = Some((score, ev));
                                }
                            },
                            None => {},
                        }
                    }
                    proof {
                        assert forall|aa: int, ff: int, tt: int|
                            0 <= aa < a && 0 <= ff < fl && 0 <= tt < upright_offsets(*bag, avail@[aa]).len()
                                implies #[trigger] covered(*self, *bag, best, avail@, front@, aa, ff, tt) by {
                            assert(covered(*self, *bag, old_best, avail@, front@, aa, ff, tt));
                        }
                        assert forall|ff: int, tt: int| 0 <= ff < f && 0 <= tt < tl
                            implies #[trigger] covered(*self, *bag, best, avail@, front@, a as int, ff, tt) by {
                            assert(covered(*self, *bag, old_best, avail@, front@, a as int, ff, tt));
                        }
                        assert forall|tt: int| 0 <= tt < t + 1
                            implies #[trigger] covered(*self, *bag, best, avail@, front@, a as int, f as int, tt) by {
                            if tt < t {
                                assert(covered(*self, *bag, old_best, avail@, front@, a as int, f as int, tt));
                            }
                        }
                    }
                    t += 1;
                }
                assert((f + 1) * tl == f * tl + tl) by (nonlinear_arith);
                f += 1;
            }
            assert(fl * tl == f * tl);
            a += 1;
        }
        assert(avail@.take(a as int) =~= avail@);
        proof {
            assert forall|ev: PlaceShapeEvent| #[trigger] is_candidate(*self, *bag, ev) implies (best matches Some(b)
                && event_score(*self, *bag, ev) <= b.0) by {
                let offsets = shape_offsets(*bag, ev.permutation);
                let s = ev.permutation.index;
                let t = choose|t: int| 0 <= t < offsets.len() && self.on_frontier(pos_add(#[trigger] offsets[t], ev.pos));
                let fpos = pos_add(offsets[t], ev.pos);
                assert(lands(offsets[t], ev.pos));
                assert(avail@.contains(s));
                let aa = choose|aa: int| 0 <= aa < avail@.len() && avail@[aa] == s;
                assert(front@.contains(fpos));
                let ff = choose|ff: int| 0 <= ff < front@.len() && front@[ff] == fpos;
                assert(ev.permutation == ShapePermutation { index: s, permutation: upright() });
                assert(aligned(s, fpos, offsets[t]) == ev);
                assert(covered(*self, *bag, best, avail@, front@, aa, ff, t));
            }
        }
        (best, count)
    }

    /// The placement to make next, given the orientation drawn for the
    /// first shape. On an empty plane that is the drawn shape on the seed
    /// cell; otherwise the best candidate found by the search, whose weighed
    /// placements are added to the attempts. Nothing else changes.
    pub fn find_best_shape_from(&mut self, bag: &ShapeBag, drawn: Option<ShapePermutation>) -> (r: Option<PlaceShapeEvent>)
        requires
            old(self).wf(),
            bag.wf(),
        ensures
            final(self).wf(),
            final(self).field() == old(self).field(),
            final(self).frontier() == old(self).frontier(),
            final(self).bounds_view() == old(self).bounds_view(),
            old(self).field() == Map::<GlobalPos, i64>::empty() ==> r == bootstrap(*bag, drawn)
                && final(self).attempts_view() == old(self).attempts_view(),
            old(self).field() != Map::<GlobalPos, i64>::empty() ==> {
                &&& r is None <==> !exists|ev: PlaceShapeEvent| is_candidate(*old(self), *bag, ev)
                &&& r matches Some(ev) ==> is_candidate(*old(self), *bag, ev) && forall|ev2: PlaceShapeEvent|
                    #[trigger] is_candidate(*old(self), *bag, ev2) ==> event_score(*old(self), *bag, ev2)
                    <= event_score(*old(self), *bag, ev)
                &&& final(self).attempts_view() == saturated(old(self).attempts_view() + tries(
                    *bag,
                    available_indices(bag.counts()),
                    old(self).frontier().len() as int,
                ))
            },
    {
        if self.is_empty() {
            match drawn {
                Some(p) => {
                    if p.index < bag.len() && bag.remaining(p.index) > 0 {
                        let offs = bag.iter_pos(&p);
                        let seed = GlobalPos { x: SEED_X, y: SEED_Y };
                        match self.get_placement_score(&seed, &offs) {
                            Some(_) => Some(PlaceShapeEvent { permutation: p, pos: seed }),
                            None => None,
                        }
                    } else {
                        None
                    }
                },
                None => None,
            }
        } else {
            let (best, count) = self.search(bag);
            let ghost before = *self;
            self.attempts = self.attempts.saturating_add(count);
            proof {
                assert(self.field() =~= before.field());
                assert(forall|c: GlobalPos| #[trigger] self.is_occupied(c) == before.is_occupied(c));
                assert(forall|c: GlobalPos| #[trigger] self.on_frontier(c) == before.on_frontier(c));
                assert(self.frontier() == before.frontier());
                assert forall|k: int| 0 <= k < self.frontier().len() implies self.next_to_placed((#[trigger] self.frontier()[k]).global_pos) by {
                    let d = choose|d: GlobalPos| before.is_occupied(d) && adjacent(d, before.frontier()[k].global_pos);
                    assert(self.is_occupied(d));
                }
                assert(self.wf_core());
            }
            match best {
                Some(b) => Some(b.1),
                None => None,
            }
        }
    }

    /// The placement to make next. On an empty plane a shape and orientation
    /// are drawn at random and put on the seed cell, if the drawn shape is
    /// still in the bag; otherwise the best candidate of the search.
    pub fn find_best_shape(&mut self, bag: &ShapeBag) -> (r: Option<PlaceShapeEvent>)
        requires
            old(self).wf(),
            bag.wf(),
        ensures
            final(self).wf(),
            final(self).field() == old(self).field(),
            final(self).frontier() == old(self).frontier(),
            final(self).bounds_view() == old(self).bounds_view(),
            old(self).field() == Map::<GlobalPos, i64>::empty() ==> final(self).attempts_view()
                == old(self).attempts_view() && (r matches Some(ev) ==> ev.pos == seed_pos()
                && ev.permutation.index < bag.shapes().len() && bag.counts()[ev.permutation.index as int]
                > 0 && ev.permutation.permutation.rotation < 4 && fits(
                old(self).field(),
                shape_offsets(*bag, ev.permutation),
                ev.pos,
            )),
            old(self).field() == Map::<GlobalPos, i64>::empty() && bag.all_in_stock() && all_fit_at_seed(
                *bag,
            ) ==> r is Some,
            old(self).field() != Map::<GlobalPos, i64>::empty() ==> {
                &&& r is None <==> !exists|ev: PlaceShapeEvent| is_candidate(*old(self), *bag, ev)
                &&& r matches Some(ev) ==> is_candidate(*old(self), *bag, ev) && forall|ev2: PlaceShapeEvent|
                    #[trigger] is_candidate(*old(self), *bag, ev2) ==> event_score(*old(self), *bag, ev2)
                    <= event_score(*old(self), *bag, ev)
                &&& final(self).attempts_view() == saturated(old(self).attempts_view() + tries(
                    *bag,
                    available_indices(bag.counts()),
                    old(self).frontier().len() as int,
                ))
            },
    {
        let drawn = if self.is_empty() {
            bag.get_random_permutation()
        } else {
            None
        };
        self.find_best_shape_from(bag, drawn)
    }

    /// Runs one tick: finds the next placement, makes it if there is one,
    /// then rescores the frontier. Returns the placement made.
    pub fn step(&mut self, bag: &mut ShapeBag) -> (r: Option<PlaceShapeEvent>)
        requires
            old(self).wf(),
            old(bag).wf(),
        ensures
            final(self).wf(),
            final(bag).wf(),
            final(bag).shapes() == old(bag).shapes(),
            r is None ==> final(bag).counts() == old(bag).counts() && forall|c: GlobalPos|
                #[trigger] final(self).is_occupied(c) == old(self).is_occupied(c),
            r matches Some(ev) ==> {
                &&& ev.permutation.index < old(bag).shapes().len()
                &&& final(bag).counts() == old(bag).counts().update(
                    ev.permutation.index as int,
                    (old(bag).counts()[ev.permutation.index as int] - 1) as u16,
                )
                &&& fits(old(self).field(), shape_offsets(*old(bag), ev.permutation), ev.pos)
                &&& forall|c: GlobalPos| #[trigger] final(self).is_occupied(c) == (old(self).is_occupied(c)
                    || event_cells(*old(bag), ev).contains(c))
                &&& final(self).bounds_view() == expand_all(old(self).bounds_view(), event_cells(*old(bag), ev))
                &&& forall|i: int| 0 <= i < event_cells(*old(bag), ev).len() ==> !old(self).is_occupied(
                    #[trigger] event_cells(*old(bag), ev)[i],
                ) && final(self).is_occupied(event_cells(*old(bag), ev)[i])
            },
            final(self).bounds_view().holds(old(self).bounds_view()),
            old(self).field() != Map::<GlobalPos, i64>::empty() ==> {
                &&& r is None <==> !exists|ev: PlaceShapeEvent| is_candidate(*old(self), *old(bag), ev)
                &&& r matches Some(ev) ==> is_candidate(*old(self), *old(bag), ev) && forall|ev2: PlaceShapeEvent|
                    #[trigger] is_candidate(*old(self), *old(bag), ev2) ==> event_score(*old(self), *old(bag), ev2)
                    <= event_score(*old(self), *old(bag), ev)
            },
            old(self).field() != Map::<GlobalPos, i64>::empty() ==> final(self).attempts_view()
                == saturated(old(self).attempts_view() + tries(
                *old(bag),
                available_indices(old(bag).counts()),
                old(self).frontier().len() as int,
            )),
            old(self).field() == Map::<GlobalPos, i64>::empty() ==> final(self).attempts_view()
                == old(self).attempts_view() && (r matches Some(ev) ==> ev.pos == seed_pos()),
            old(self).field() == Map::<GlobalPos, i64>::empty() && old(bag).all_in_stock()
                && all_fit_at_seed(*old(bag)) ==> r is Some,
            final(self).scored(),
    {
        let ev = self.find_best_shape(bag);
        let ghost mid = *self;
        let ghost mid_bag = *bag;
        match ev {
            Some(e) => {
                self.place_shape(bag, &e);
                proof {
                    let cells = event_cells(mid_bag, e);
                    assert forall|c: GlobalPos| #[trigger] self.is_occupied(c) == (mid.is_occupied(c)
                        || cells.contains(c)) by {
                        if cells.contains(c) {
                        } else if mid.field().contains_key(c) {
                        } else if self.field().contains_key(c) {
                            assert(self.field()[c] == 0);
                        }
                    }
                }
            },
            None => {},
        }
        let ghost placed = *self;
        self.update_boundary_score();
        proof {
            assert forall|c: GlobalPos| #[trigger] self.is_occupied(c) == placed.is_occupied(c) by {}
        }
        ev
    }

    /// Clears the plane: the field, the frontier and the bounds are emptied
    /// and the attempts reset; every shape gets `count` units in the bag.
    pub fn reset(&mut self, bag: &mut ShapeBag, count: u16)
        requires
            old(self).wf(),
            old(bag).wf(),
        ensures
            final(self).wf(),
            final(self).is_cleared(),
            final(bag).wf(),
            final(bag).shapes() == old(bag).shapes(),
            final(bag).counts() == Seq::new(old(bag).counts().len(), |i: int| count),
    {
        self.scored_positions.clear();
        self.border.clear();
        self.bounds = Bounds::new();
        self.attempts = 0;
        bag.reset(count);
        assert(self.field() =~= Map::<GlobalPos, i64>::empty());
    }

    /// Restarts the simulation with the count typed into the input fields:
    /// the number in the first field, or one if there is none.
    pub fn restart(&mut self, bag: &mut ShapeBag, input_fields: &Vec<InputFieldsState>)
        requires
            old(self).wf(),
            old(bag).wf(),
        ensures
            final(self).wf(),
            final(self).is_cleared(),
            final(bag).wf(),
            final(bag).shapes() == old(bag).shapes(),
            final(bag).counts() == Seq::new(
                old(bag).counts().len(),
                |i: int| restock_value(input_fields@),
            ),
    {
        let count = restock_count(input_fields);
        self.reset(bag, count);
    }

    /// An empty plane.
    pub fn new() -> (r: BoardState)
        ensures
            r.wf(),
            r.is_cleared(),
    {
        let r = BoardState {
            scored_positions: HashMap::new(),
            border: Vec::new(),
            bounds: Bounds::new(),
            attempts: 0,
        };
        assert(r.field() =~= Map::<GlobalPos, i64>::empty());
        r
    }

    /// Whether a shape covers `pos`.
    pub fn is_taken(&self, pos: &GlobalPos) -> (r: bool)
        ensures
            r == self.is_occupied(*pos),
    {
        match self.scored_positions.get(&key(*pos)) {
            Some(v) => *v == BLOCKED,
            None => false,
        }
    }

    /// The field value of `pos`, if the field knows it.
    pub fn value_at(&self, pos: &GlobalPos) -> (r: Option<i64>)
        ensures
            r == (if self.field().contains_key(*pos) { Some(self.field()[*pos]) } else { None }),
    {
        match self.scored_positions.get(&key(*pos)) {
            Some(v) => Some(*v),
            None => None,
        }
    }

    /// Whether no shape has been placed since the last reset.
    pub fn is_empty(&self) -> (r: bool)
        ensures
            r == (self.field() == Map::<GlobalPos, i64>::empty()),
    {
        let r = self.scored_positions.len() == 0;
        proof {
            if r {
                assert(self.scored_positions@ =~= Map::<i64, i64>::empty());
                assert(self.field() =~= Map::<GlobalPos, i64>::empty());
            } else {
                assert(self.scored_positions@.dom().finite());
                assert(self.scored_positions@.dom().len() > 0);
                let k = self.scored_positions@.dom().choose();
                let c = lemma_key_decode(k);
                assert(self.field().contains_key(c));
            }
        }
        r
    }

    /// The frontier cells with their scores.
    pub fn border_tiles(&self) -> (r: &Vec<BorderTile>)
        ensures
            r@ == self.frontier(),
    {
        &self.border
    }

    /// The rectangle around the placed cells.
    pub fn bounds(&self) -> (r: Bounds)
        ensures
            r == self.bounds_view(),
    {
        self.bounds
    }

    /// How many candidate placements the search has weighed so far.
    pub fn attempts(&self) -> (r: usize)
        ensures
            r == self.attempts_view(),
    {
        self.attempts
    }
}

} // verus!
