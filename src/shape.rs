//! Shapes of the catalog, their orientations, and the bag that rations them.

use vstd::prelude::*;
use vstd::string::StringSliceAdditionalSpecFns;
use crate::tile::{GlobalPos, pos_at};

verus! {

/// Number of distinct orientations: four rotations, each flipped or not.
pub const PERMUTATIONS: u8 = 8;

/// A rotation by quarter turns counter-clockwise, then an optional mirror
/// across the y axis.
#[derive(Clone, Copy, Debug, PartialEq, Eq, Structural)]
pub struct Permutation {
    pub rotation: u8,
    pub flipped: bool,
}

/// A shape of the catalog together with the orientation it is used in.
#[derive(Clone, Copy, Debug, PartialEq, Eq, Structural)]
pub struct ShapePermutation {
    pub index: usize,
    pub permutation: Permutation,
}

impl Permutation {
    /// Orientation number `index`: rotation `index % 4`, flipped from four on.
    pub fn from_index(index: u8) -> (r: Permutation)
        ensures
            r.rotation == index % 4,
            r.flipped == (index >= 4),
    {
        Permutation { rotation: index % 4, flipped: index >= 4 }
    }
}

/// An offset whose coordinates can be negated without overflow.
pub open spec fn symmetric(p: GlobalPos) -> bool {
    p.x != i32::MIN && p.y != i32::MIN
}

/// `p` turned counter-clockwise by `r` quarter turns.
pub open spec fn rotate_pos(p: GlobalPos, r: int) -> GlobalPos {
    if r % 4 == 1 {
        pos_at(-p.y, p.x as int)
    } else if r % 4 == 2 {
        pos_at(-p.x, -p.y)
    } else if r % 4 == 3 {
        pos_at(p.y as int, -p.x)
    } else {
        p
    }
}

/// `p` mirrored across the y axis.
pub open spec fn flip_pos(p: GlobalPos) -> GlobalPos {
    pos_at(-p.x, p.y as int)
}

/// `p` in orientation `perm`: rotated first, then mirrored if flipped.
pub open spec fn orient_pos(p: GlobalPos, perm: Permutation) -> GlobalPos {
    let q = rotate_pos(p, perm.rotation as int);
    if perm.flipped {
        flip_pos(q)
    } else {
        q
    }
}

/// Every offset of `s` turned by `r` quarter turns.
pub open spec fn rotate_all(s: Seq<GlobalPos>, r: int) -> Seq<GlobalPos> {
    s.map_values(|p: GlobalPos| rotate_pos(p, r))
}

/// Every offset of `s` mirrored across the y axis.
pub open spec fn flip_all(s: Seq<GlobalPos>) -> Seq<GlobalPos> {
    s.map_values(|p: GlobalPos| flip_pos(p))
}

/// Every offset of `s` in orientation `perm`.
pub open spec fn orient(s: Seq<GlobalPos>, perm: Permutation) -> Seq<GlobalPos> {
    s.map_values(|p: GlobalPos| orient_pos(p, perm))
}

/// All offsets of `s` can be negated without overflow.
pub open spec fn all_symmetric(s: Seq<GlobalPos>) -> bool {
    forall|i: int| 0 <= i < s.len() ==> symmetric(#[trigger] s[i])
}

/// Rotating by `r` and then by the remaining `(4 - r) % 4` quarter turns
/// gives back every offset unchanged.
pub proof fn lemma_rotation_inverse(s: Seq<GlobalPos>, r: int)
    requires
        all_symmetric(s),
        0 <= r < 4,
    ensures
        rotate_all(rotate_all(s, r), (4 - r) % 4) == s,
{
    let t = rotate_all(rotate_all(s, r), (4 - r) % 4);
    assert forall|i: int| 0 <= i < s.len() implies t[i] == s[i] by {
        assert(symmetric(s[i]));
    }
    assert(t =~= s);
}

/// Mirroring twice gives back every offset unchanged.
pub proof fn lemma_flip_involution(s: Seq<GlobalPos>)
    requires
        all_symmetric(s),
    ensures
        flip_all(flip_all(s)) == s,
{
    let t = flip_all(flip_all(s));
    assert forall|i: int| 0 <= i < s.len() implies t[i] == s[i] by {
        assert(symmetric(s[i]));
    }
    assert(t =~= s);
}

/// Orienting keeps every offset negatable.
pub proof fn lemma_orient_symmetric(s: Seq<GlobalPos>, perm: Permutation)
    requires
        all_symmetric(s),
    ensures
        all_symmetric(orient(s, perm)),
{
    assert forall|i: int| 0 <= i < orient(s, perm).len() implies symmetric(
        #[trigger] orient(s, perm)[i],
    ) by {
        assert(symmetric(s[i]));
    }
}

/// `p` in orientation `perm`.
pub fn orient_one(p: GlobalPos, perm: Permutation) -> (r: GlobalPos)
    requires
        symmetric(p),
    ensures
        r == orient_pos(p, perm),
        symmetric(r),
{
    let rotations = perm.rotation % 4;
    let (x, y) = if rotations == 1 {
        (-p.y, p.x)
    } else if rotations == 2 {
        (-p.x, -p.y)
    } else if rotations == 3 {
        (p.y, -p.x)
    } else {
        (p.x, p.y)
    };
    if perm.flipped {
        GlobalPos { x: -x, y }
    } else {
        GlobalPos { x, y }
    }
}

/// Every offset of `tiles` in orientation `perm`, in the same order.
pub fn orient_tiles(tiles: &Vec<GlobalPos>, perm: Permutation) -> (r: Vec<GlobalPos>)
    requires
        all_symmetric(tiles@),
    ensures
        r@ == orient(tiles@, perm),
        all_symmetric(r@),
{
    let mut out: Vec<GlobalPos> = Vec::new();
    let mut i: usize = 0;
    while i < tiles.len()
        invariant
            i <= tiles.len(),
            all_symmetric(tiles@),
            out@ == orient(tiles@.take(i as int), perm),
        decreases tiles.len() - i,
    {
        let q = orient_one(tiles[i], perm);
        out.push(q);
        i += 1;
        assert(orient(tiles@.take(i as int), perm) =~= out@);
    }
    assert(tiles@.take(i as int) =~= tiles@);
    proof {
        lemma_orient_symmetric(tiles@, perm);
    }
    out
}

/// A character that leaves its column empty in a mask: ASCII white space.
pub open spec fn is_blank(c: char) -> bool {
    c == ' ' || ('\t' <= c && c <= '\r')
}

/// The filled cells of the mask characters `m`, read from column `x` of
/// row `y` on: a line feed starts the next row at column zero, a blank only
/// moves one column on, and every other character fills its cell.
pub open spec fn mask_scan(m: Seq<char>, x: int, y: int) -> Seq<GlobalPos>
    decreases m.len(),
{
    if m.len() == 0 {
        Seq::empty()
    } else if m[0] == '\n' {
        mask_scan(m.drop_first(), 0, y + 1)
    } else if is_blank(m[0]) {
        mask_scan(m.drop_first(), x + 1, y)
    } else {
        seq![pos_at(x, y)] + mask_scan(m.drop_first(), x + 1, y)
    }
}

/// The filled cells of a whole mask, in reading order.
pub open spec fn mask_tiles(m: Seq<char>) -> Seq<GlobalPos> {
    mask_scan(m, 0, 0)
}

/// A polyomino: its catalog number and the offsets of its cells.
#[derive(Debug)]
pub struct Shape {
    pub index: usize,
    pub tiles: Vec<GlobalPos>,
}

impl Shape {
    /// Offsets that every orientation can be computed from.
    pub open spec fn wf(&self) -> bool {
        all_symmetric(self.tiles@)
    }

    /// Reads a shape from an ASCII mask, one row per line, a filled cell for
    /// each character that is not white space; the first character is
    /// offset (0, 0).
    pub fn from_string(index: usize, string: &str) -> (r: Shape)
        requires
            vstd::string::is_ascii(string),
            string@.len() <= i32::MAX,
        ensures
            r.index == index,
            r.tiles@ == mask_tiles(string@),
            r.wf(),
            forall|k: int| 0 <= k < r.tiles@.len() ==> 0 <= (#[trigger] r.tiles@[k]).x <= string@.len()
                && 0 <= r.tiles@[k].y <= string@.len(),
    {
        let bytes = string.as_bytes();
        let ghost b = string@;
        proof {
            vstd::string::is_ascii_spec_bytes(string);
        }
        let n = bytes.len();
        let mut tiles: Vec<GlobalPos> = Vec::new();
        let mut x: i32 = 0;
        let mut y: i32 = 0;
        let mut i: usize = 0;
        assert(b.subrange(0, n as int) =~= b);
        assert(tiles@ + mask_scan(b, 0, 0) =~= mask_scan(b, 0, 0));
        while i < n
            invariant
                n == b.len(),
                bytes@.len() == n,
                forall|k: int| 0 <= k < n ==> (#[trigger] bytes@[k]) as int == b[k] as int,
                n <= i32::MAX,
                i <= n,
                0 <= x <= i,
                0 <= y <= i,
                tiles@ + mask_scan(b.subrange(i as int, n as int), x as int, y as int)
                    == mask_tiles(b),
                forall|k: int| 0 <= k < tiles@.len() ==> 0 <= (#[trigger] tiles@[k]).x <= n
                    && 0 <= tiles@[k].y <= n,
            decreases n - i,
        {
            let c = bytes[i];
            let ghost rest = b.subrange(i as int, n as int);
            assert(rest.drop_first() =~= b.subrange(i + 1, n as int));
            assert(rest[0] as int == c as int);
            if c == 10 {
                x = 0;
                y = y + 1;
            } else if c == 32 || (9 <= c && c <= 13) {
                x = x + 1;
            } else {
                let ghost before = tiles@;
                tiles.push(GlobalPos { x, y });
                assert(tiles@ + mask_scan(b.subrange(i + 1, n as int), x + 1, y as int)
                    =~= before + mask_scan(rest, x as int, y as int));
                x = x + 1;
            }
            i = i + 1;
        }
        assert(b.subrange(n as int, n as int) =~= Seq::<char>::empty());
        assert(tiles@ + Seq::<GlobalPos>::empty() =~= tiles@);
        Shape { index, tiles }
    }
}

} // verus!
