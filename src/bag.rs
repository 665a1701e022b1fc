//! The bag: how many more times each shape of the catalog may be placed.

use vstd::prelude::*;
use vstd::string::StringSliceAdditionalSpecFns;
use crate::tile::GlobalPos;
use crate::shape::{Permutation, Shape, ShapePermutation, mask_tiles, orient, orient_tiles};

verus! {

/// Mask of the first catalog shape.
pub const SHAPE_0: &'static str = "X\nX\nX\nXX\nX\nXX";

/// Mask of the second catalog shape.
pub const SHAPE_1: &'static str = " XXX\nXX\n XX\n  X";

/// Mask of the third catalog shape.
pub const SHAPE_2: &'static str = " XXX\nXX\nX\nXX";

/// Mask of the fourth catalog shape.
pub const SHAPE_3: &'static str = " X\nXXXX\n X\n X\n X";

/// Mask of the fifth catalog shape.
pub const SHAPE_4: &'static str = "XXX\n  X\n  XXX\n  X";

/// Mask of the sixth catalog shape.
pub const SHAPE_5: &'static str = "  X\nXXX\n XXX\n  X";

/// Relies on `rand::random`, which draws from the thread-local generator;
/// nothing is known of the value drawn.
pub assume_specification<T>[ rand::random::<T> ]() -> (r: T)
    where
        rand::distributions::Standard: rand::distributions::Distribution<T>,
;

/// The catalog of shapes and the remaining count of each.
pub struct ShapeBag {
    remaining: Vec<u16>,
    vec: Vec<Shape>,
}

/// Whether `r` lists, in increasing order, exactly the indices of `counts`
/// whose count is positive.
pub open spec fn lists_available(counts: Seq<u16>, r: Seq<usize>) -> bool {
    &&& forall|k: int| 0 <= k < r.len() ==> (#[trigger] r[k]) < counts.len() && counts[r[k] as int] > 0
    &&& forall|k: int, j: int| 0 <= k < j < r.len() ==> r[k] < r[j]
    &&& forall|i: int| 0 <= i < counts.len() && counts[i] > 0 ==> r.contains(i as usize)
}

/// The indices of `counts` whose count is positive, in increasing order.
pub open spec fn available_indices(counts: Seq<u16>) -> Seq<usize>
    decreases counts.len(),
{
    if counts.len() == 0 {
        Seq::empty()
    } else if counts.last() > 0 {
        available_indices(counts.drop_last()).push((counts.len() - 1) as usize)
    } else {
        available_indices(counts.drop_last())
    }
}

/// The available indices are exactly the positive counts, increasing.
pub proof fn lemma_available_indices(counts: Seq<u16>)
    requires
        counts.len() <= usize::MAX,
    ensures
        lists_available(counts, available_indices(counts)),
    decreases counts.len(),
{
    if counts.len() > 0 {
        let prefix = counts.drop_last();
        lemma_available_indices(prefix);
        let r = available_indices(counts);
        let q = available_indices(prefix);
        assert forall|i: int| 0 <= i < counts.len() && counts[i] > 0 implies r.contains(i as usize) by {
            if i < prefix.len() {
                assert(prefix[i] == counts[i]);
                let k = choose|k: int| 0 <= k < q.len() && q[k] == i as usize;
                assert(r[k] == i as usize);
            } else {
                assert(r[r.len() - 1] == i as usize);
            }
        }
        assert forall|k: int| 0 <= k < r.len() implies (#[trigger] r[k]) < counts.len() && counts[r[k] as int] > 0 by {
            if k < q.len() {
                assert(r[k] == q[k]);
                assert(prefix[q[k] as int] == counts[q[k] as int]);
            }
        }
    }
}

/// The orientation that a pair of draws selects, if the shape it names is
/// still in the bag.
pub open spec fn drawn_permutation(
    counts: Seq<u16>,
    index_draw: usize,
    flip_draw: bool,
    rotation_draw: u8,
) -> Option<ShapePermutation> {
    let index = index_draw as int % counts.len() as int;
    if counts[index] > 0 {
        Some(
            ShapePermutation {
                index: index as usize,
                permutation: Permutation { rotation: rotation_draw % 4, flipped: flip_draw },
            },
        )
    } else {
        None
    }
}

/// A mask written with `X`, spaces and line feeds is ASCII.
proof fn lemma_ascii_mask(mask: &str)
    requires
        forall|i: int| 0 <= i < mask@.len() ==> (#[trigger] mask@[i]) == 'X' || mask@[i] == ' '
            || mask@[i] == '\n',
    ensures
        vstd::string::is_ascii(mask),
{
}

impl ShapeBag {
    /// Remaining count of each shape, by catalog index.
    pub closed spec fn counts(&self) -> Seq<u16> {
        self.remaining@
    }

    /// The shapes, in catalog order.
    pub closed spec fn shapes(&self) -> Seq<Shape> {
        self.vec@
    }

    /// A non-empty catalog whose shapes sit at their own index, with one
    /// count per shape.
    pub open spec fn wf(&self) -> bool {
        &&& self.counts().len() == self.shapes().len()
        &&& self.shapes().len() > 0
        &&& forall|i: int| 0 <= i < self.shapes().len() ==> (#[trigger] self.shapes()[i]).index == i
            && self.shapes()[i].wf()
    }

    /// Whether every shape has at least one unit left.
    pub open spec fn all_in_stock(&self) -> bool {
        forall|i: int| 0 <= i < self.counts().len() ==> #[trigger] self.counts()[i] > 0
    }

    /// Whether every offset of every shape lies in the square from (0, 0)
    /// to (64, 64).
    pub open spec fn compact(&self) -> bool {
        forall|i: int, k: int| 0 <= i < self.shapes().len() && 0 <= k < self.shapes()[i].tiles@.len()
            ==> 0 <= (#[trigger] self.shapes()[i].tiles@[k]).x <= 64 && 0 <= self.shapes()[i].tiles@[k].y <= 64
    }

    /// Number of shapes in the catalog.
    pub fn len(&self) -> (r: usize)
        requires
            self.wf(),
        ensures
            r == self.shapes().len(),
    {
        self.vec.len()
    }

    /// Remaining count of shape `index`.
    pub fn remaining(&self, index: usize) -> (r: u16)
        requires
            self.wf(),
            index < self.shapes().len(),
        ensures
            r == self.counts()[index as int],
    {
        self.remaining[index]
    }

    /// Indices of the shapes that are still in the bag, in catalog order.
    pub fn iter_available(&self) -> (r: Vec<usize>)
        requires
            self.wf(),
        ensures
            r@ == available_indices(self.counts()),
            lists_available(self.counts(), r@),
    {
        let mut out: Vec<usize> = Vec::new();
        let mut i: usize = 0;
        while i < self.remaining.len()
            invariant
                self.wf(),
                i <= self.remaining@.len(),
                out@ == available_indices(self.remaining@.take(i as int)),
            decreases self.remaining@.len() - i,
        {
            let ghost prefix = self.remaining@.take(i as int);
            assert(self.remaining@.take(i + 1).drop_last() =~= prefix);
            if self.remaining[i] > 0 {
                out.push(i);
            }
            i += 1;
        }
        assert(self.remaining@.take(i as int) =~= self.remaining@);
        proof {
            lemma_available_indices(self.counts());
        }
        out
    }

    /// Takes one unit of shape `index` out of the bag, if any is left; says
    /// whether it did.
    pub fn try_pop(&mut self, index: usize) -> (r: bool)
        requires
            old(self).wf(),
            index < old(self).shapes().len(),
        ensures
            final(self).wf(),
            final(self).shapes() == old(self).shapes(),
            r == (old(self).counts()[index as int] > 0),
            r ==> final(self).counts() == old(self).counts().update(
                index as int,
                (old(self).counts()[index as int] - 1) as u16,
            ),
            !r ==> final(self).counts() == old(self).counts(),
    {
        if self.remaining[index] > 0 {
            self.remaining[index] = self.remaining[index] - 1;
            return true;
        }
        false
    }

    /// Sets the count of every shape to `count`.
    pub fn reset(&mut self, count: u16)
        requires
            old(self).wf(),
        ensures
            final(self).wf(),
            final(self).shapes() == old(self).shapes(),
            final(self).counts() == Seq::new(old(self).counts().len(), |i: int| count),
    {
        let mut i: usize = 0;
        while i < self.remaining.len()
            invariant
                self.wf(),
                self.shapes() == old(self).shapes(),
                self.counts().len() == old(self).counts().len(),
                i <= self.counts().len(),
                forall|j: int| 0 <= j < i ==> self.counts()[j] == count,
            decreases self.remaining@.len() - i,
        {
            self.remaining[i] = count;
            i += 1;
        }
        assert(self.counts() =~= Seq::new(old(self).counts().len(), |i: int| count));
    }

    /// The offsets of a shape in the orientation given.
    pub fn iter_pos(&self, shape_permutation: &ShapePermutation) -> (r: Vec<GlobalPos>)
        requires
            self.wf(),
            shape_permutation.index < self.shapes().len(),
        ensures
            r@ == orient(
                self.shapes()[shape_permutation.index as int].tiles@,
                shape_permutation.permutation,
            ),
            crate::shape::all_symmetric(r@),
    {
        orient_tiles(&self.vec[shape_permutation.index].tiles, shape_permutation.permutation)
    }

    /// The orientation selected by the draws `index_draw` (a shape, taken
    /// modulo the catalog size), `flip_draw` and `rotation_draw` (taken
    /// modulo four), or nothing if that shape has run out.
    pub fn permutation_from_draw(&self, index_draw: usize, flip_draw: bool, rotation_draw: u8) -> (r:
        Option<ShapePermutation>)
        requires
            self.wf(),
        ensures
            r == drawn_permutation(self.counts(), index_draw, flip_draw, rotation_draw),
    {
        let index = index_draw % self.remaining.len();
        if self.remaining[index] > 0 {
            Some(
                ShapePermutation {
                    index,
                    permutation: Permutation { rotation: rotation_draw % 4, flipped: flip_draw },
                },
            )
        } else {
            None
        }
    }

    /// A shape and orientation drawn uniformly at random. The shape is drawn
    /// from the whole catalog; if it has run out, nothing is returned.
    pub fn get_random_permutation(&self) -> (r: Option<ShapePermutation>)
        requires
            self.wf(),
        ensures
            r matches Some(p) ==> p.index < self.shapes().len() && self.counts()[p.index as int] > 0
                && p.permutation.rotation < 4,
            exists|index_draw: usize, flip_draw: bool, rotation_draw: u8|
                r == drawn_permutation(self.counts(), index_draw, flip_draw, rotation_draw),
            self.all_in_stock() ==> r is Some,
    {
        let index_draw = rand::random::<usize>();
        let flip_draw = rand::random::<bool>();
        let rotation_draw = rand::random::<u8>();
        let catalog_len = self.len();
        let ghost len = catalog_len as int;
        assert(0 <= index_draw as int % len < len) by (nonlinear_arith)
            requires
                len > 0,
        ;
        let r = self.permutation_from_draw(index_draw, flip_draw, rotation_draw);
        assert(r == drawn_permutation(self.counts(), index_draw, flip_draw, rotation_draw));
        r
    }

    /// A bag over the given shapes, each with `count` units, or nothing if
    /// the list is empty, a shape does not sit at its own index, or an offset
    /// has a coordinate equal to `i32::MIN`.
    pub fn with_shapes(shapes: Vec<Shape>, count: u16) -> (r: Option<ShapeBag>)
        ensures
            r is Some <==> shapes@.len() > 0 && forall|i: int| 0 <= i < shapes@.len() ==> (#[trigger] shapes@[i]).index == i
                && shapes@[i].wf(),
            r matches Some(b) ==> b.wf() && b.shapes() == shapes@ && b.counts() == Seq::new(shapes@.len(), |i: int| count),
    {
        if shapes.len() == 0 {
            return None;
        }
        let mut i: usize = 0;
        while i < shapes.len()
            invariant
                i <= shapes@.len(),
                forall|j: int| 0 <= j < i ==> (#[trigger] shapes@[j]).index == j && shapes@[j].wf(),
            decreases shapes@.len() - i,
        {
            if shapes[i].index != i {
                return None;
            }
            let tiles = &shapes[i].tiles;
            let mut k: usize = 0;
            while k < tiles.len()
                invariant
                    i < shapes@.len(),
                    tiles@ == shapes@[i as int].tiles@,
                    shapes@[i as int].index == i,
                    forall|j: int| 0 <= j < i ==> (#[trigger] shapes@[j]).index == j && shapes@[j].wf(),
                    k <= tiles@.len(),
                    forall|m: int| 0 <= m < k ==> crate::shape::symmetric(#[trigger] tiles@[m]),
                decreases tiles@.len() - k,
            {
                if tiles[k].x == i32::MIN || tiles[k].y == i32::MIN {
                    assert(!crate::shape::symmetric(shapes@[i as int].tiles@[k as int]));
                    assert(!shapes@[i as int].wf());
                    return None;
                }
                k += 1;
            }
            i += 1;
        }
        let remaining = vec![count; shapes.len()];
        let r = ShapeBag { remaining, vec: shapes };
        assert(r.counts() =~= Seq::new(shapes@.len(), |i: int| count));
        Some(r)
    }

    /// The catalog of six shapes, each with `count` units in the bag.
    pub fn load(count: u16) -> (r: ShapeBag)
        ensures
            r.wf(),
            r.shapes().len() == 6,
            r.counts() == Seq::new(6, |i: int| count),
            r.compact(),
            r.shapes()[0].tiles@ == mask_tiles(SHAPE_0@),
            r.shapes()[1].tiles@ == mask_tiles(SHAPE_1@),
            r.shapes()[2].tiles@ == mask_tiles(SHAPE_2@),
            r.shapes()[3].tiles@ == mask_tiles(SHAPE_3@),
            r.shapes()[4].tiles@ == mask_tiles(SHAPE_4@),
            r.shapes()[5].tiles@ == mask_tiles(SHAPE_5@),
    {
        let mut shapes: Vec<Shape> = Vec::new();
        proof {
            reveal_strlit("X\nX\nX\nXX\nX\nXX");
            lemma_ascii_mask(SHAPE_0);
        }
        shapes.push(Shape::from_string(0, SHAPE_0));
        proof {
            reveal_strlit(" XXX\nXX\n XX\n  X");
            lemma_ascii_mask(SHAPE_1);
        }
        shapes.push(Shape::from_string(1, SHAPE_1));
        proof {
            reveal_strlit(" XXX\nXX\nX\nXX");
            lemma_ascii_mask(SHAPE_2);
        }
        shapes.push(Shape::from_string(2, SHAPE_2));
        proof {
            reveal_strlit(" X\nXXXX\n X\n X\n X");
            lemma_ascii_mask(SHAPE_3);
        }
        shapes.push(Shape::from_string(3, SHAPE_3));
        proof {
            reveal_strlit("XXX\n  X\n  XXX\n  X");
            lemma_ascii_mask(SHAPE_4);
        }
        shapes.push(Shape::from_string(4, SHAPE_4));
        proof {
            reveal_strlit("  X\nXXX\n XXX\n  X");
            lemma_ascii_mask(SHAPE_5);
        }
        shapes.push(Shape::from_string(5, SHAPE_5));
        let remaining = vec![count; 6];
        let r = ShapeBag { remaining, vec: shapes };
        assert(r.shapes() == shapes@);
        assert(r.counts() =~= Seq::new(6, |i: int| count));
        r
    }
}

} // verus!
