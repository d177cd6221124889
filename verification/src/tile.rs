//! Tile descriptors and symmetry-derived bitmap transforms.
//!
//! Each tile carries a square pixel bitmap and a symmetry class. The symmetry
//! class selects which geometric transforms of the bitmap count as distinct
//! orientations for the adjacency check: rotations are standard 90-degree
//! clockwise turns, reflection mirrors the columns within each row.

use vstd::prelude::*;

verus! {

/// Symmetry class of a tile, parsed from the tag in its image file name.
#[derive(Clone, Copy, PartialEq, Eq, Structural, Debug)]
pub enum Symmetry {
    L,
    T,
    I,
    BackSlash,
    ForwardSlash,
    F,
    X,
}

/// Mathematical view of a bitmap: a sequence of pixel rows.
pub open spec fn bitmap_view(b: Vec<Vec<i32>>) -> Seq<Seq<i32>> {
    Seq::new(b@.len(), |i: int| b@[i]@)
}

/// Views of each bitmap in a transform list.
pub open spec fn transforms_view(ts: Vec<Vec<Vec<i32>>>) -> Seq<Seq<Seq<i32>>> {
    Seq::new(ts@.len(), |k: int| bitmap_view(ts@[k]))
}

/// A bitmap is square: every row is as long as the number of rows.
pub open spec fn is_square(b: Seq<Seq<i32>>) -> bool {
    forall|i: int| 0 <= i < b.len() ==> (#[trigger] b[i]).len() == b.len()
}

/// One clockwise quarter turn of a square bitmap.
pub open spec fn rotated_cw(b: Seq<Seq<i32>>) -> Seq<Seq<i32>> {
    Seq::new(b.len(), |r: int| Seq::new(b.len(), |c: int| b[b.len() - 1 - c][r]))
}

/// Mirror of a square bitmap: columns reversed within each row.
pub open spec fn reflected(b: Seq<Seq<i32>>) -> Seq<Seq<i32>> {
    Seq::new(b.len(), |r: int| Seq::new(b.len(), |c: int| b[r][b.len() - 1 - c]))
}

/// The transform set a symmetry class yields, in order.
pub open spec fn transform_views(sym: Symmetry, b: Seq<Seq<i32>>) -> Seq<Seq<Seq<i32>>> {
    match sym {
        Symmetry::L => seq![
            b,
            rotated_cw(b),
            rotated_cw(rotated_cw(b)),
            rotated_cw(rotated_cw(rotated_cw(b))),
        ],
        Symmetry::T => seq![b, rotated_cw(b), rotated_cw(rotated_cw(b))],
        Symmetry::I => seq![b, rotated_cw(b)],
        Symmetry::BackSlash => seq![b, reflected(b)],
        Symmetry::ForwardSlash => seq![b],
        Symmetry::F => seq![
            b,
            reflected(b),
            rotated_cw(b),
            rotated_cw(rotated_cw(b)),
            rotated_cw(rotated_cw(rotated_cw(b))),
        ],
        Symmetry::X => seq![b, reflected(b)],
    }
}

/// A tile descriptor: a unique positive id, a display name, the symmetry
/// class, a reserved weight (unused in selection), and the square bitmap of
/// the tile's identity appearance.
pub struct Tile {
    pub id: usize,
    pub name: String,
    pub symmetry: Symmetry,
    pub weight: u32,
    pub bitmap: Vec<Vec<i32>>,
}

/// Copies a bitmap row by row.
fn copy_bitmap(b: &Vec<Vec<i32>>) -> (r: Vec<Vec<i32>>)
    ensures
        bitmap_view(r) == bitmap_view(*b),
{
    let n = b.len();
    let mut out: Vec<Vec<i32>> = Vec::new();
    let mut i: usize = 0;
    while i < n
        invariant
            n == b@.len(),
            out@.len() == i,
            i <= n,
            forall|r: int| 0 <= r < i ==> out@[r]@ == b@[r]@,
        decreases n - i,
    {
        let m = b[i].len();
        let mut row: Vec<i32> = Vec::new();
        let mut j: usize = 0;
        while j < m
            invariant
                n == b@.len(),
                i < n,
                m == b@[i as int]@.len(),
                j <= m,
                row@.len() == j,
                forall|c: int| 0 <= c < j ==> row@[c] == b@[i as int]@[c],
            decreases m - j,
        {
            row.push(b[i][j]);
            j += 1;
        }
        proof {
            assert(row@ =~= b@[i as int]@);
        }
        out.push(row);
        i += 1;
    }
    proof {
        assert(bitmap_view(out) =~= bitmap_view(*b));
    }
    out
}

/// Rotates a square bitmap one quarter turn clockwise.
fn rotate_bitmap(b: &Vec<Vec<i32>>) -> (r: Vec<Vec<i32>>)
    requires
        is_square(bitmap_view(*b)),
    ensures
        bitmap_view(r) == rotated_cw(bitmap_view(*b)),
{
    let n = b.len();
    proof {
        assert forall|k: int| 0 <= k < n implies (#[trigger] b@[k])@.len() == n by {
            assert(bitmap_view(*b)[k] == b@[k]@);
        }
    }
    let mut out: Vec<Vec<i32>> = Vec::new();
    let mut i: usize = 0;
    while i < n
        invariant
            n == b@.len(),
            is_square(bitmap_view(*b)),
            forall|k: int| 0 <= k < n ==> (#[trigger] b@[k])@.len() == n,
            out@.len() == i,
            i <= n,
            forall|r: int| 0 <= r < i ==> out@[r]@ == rotated_cw(bitmap_view(*b))[r],
        decreases n - i,
    {
        let mut row: Vec<i32> = Vec::new();
        let mut j: usize = 0;
        while j < n
            invariant
                n == b@.len(),
                is_square(bitmap_view(*b)),
                forall|k: int| 0 <= k < n ==> (#[trigger] b@[k])@.len() == n,
                i < n,
                j <= n,
                row@.len() == j,
                forall|c: int| 0 <= c < j ==> row@[c] == bitmap_view(*b)[n - 1 - c][i as int],
            decreases n - j,
        {
            row.push(b[n - 1 - j][i]);
            j += 1;
        }
        proof {
            assert(row@ =~= rotated_cw(bitmap_view(*b))[i as int]);
        }
        out.push(row);
        i += 1;
    }
    proof {
        assert(bitmap_view(out) =~= rotated_cw(bitmap_view(*b)));
    }
    out
}

/// Mirrors a square bitmap, reversing the columns within each row.
fn reflect_bitmap(b: &Vec<Vec<i32>>) -> (r: Vec<Vec<i32>>)
    requires
        is_square(bitmap_view(*b)),
    ensures
        bitmap_view(r) == reflected(bitmap_view(*b)),
{
    let n = b.len();
    proof {
        assert forall|k: int| 0 <= k < n implies (#[trigger] b@[k])@.len() == n by {
            assert(bitmap_view(*b)[k] == b@[k]@);
        }
    }
    let mut out: Vec<Vec<i32>> = Vec::new();
    let mut i: usize = 0;
    while i < n
        invariant
            n == b@.len(),
            is_square(bitmap_view(*b)),
            forall|k: int| 0 <= k < n ==> (#[trigger] b@[k])@.len() == n,
            out@.len() == i,
            i <= n,
            forall|r: int| 0 <= r < i ==> out@[r]@ == reflected(bitmap_view(*b))[r],
        decreases n - i,
    {
        let mut row: Vec<i32> = Vec::new();
        let mut j: usize = 0;
        while j < n
            invariant
                n == b@.len(),
                is_square(bitmap_view(*b)),
                forall|k: int| 0 <= k < n ==> (#[trigger] b@[k])@.len() == n,
                i < n,
                j <= n,
                row@.len() == j,
                forall|c: int| 0 <= c < j ==> row@[c] == bitmap_view(*b)[i as int][n - 1 - c],
            decreases n - j,
        {
            row.push(b[i][n - 1 - j]);
            j += 1;
        }
        proof {
            assert(row@ =~= reflected(bitmap_view(*b))[i as int]);
        }
        out.push(row);
        i += 1;
    }
    proof {
        assert(bitmap_view(out) =~= reflected(bitmap_view(*b)));
    }
    out
}

impl Tile {
    /// Builds a descriptor from its parts.
    pub fn new(id: usize, name: String, bitmap: Vec<Vec<i32>>, symmetry: Symmetry, weight: u32) -> (r:
        Tile)
        ensures
            r.id == id,
            r.name == name,
            r.bitmap == bitmap,
            r.symmetry == symmetry,
            r.weight == weight,
    {
        Tile { id, name, symmetry, weight, bitmap }
    }

    /// One clockwise quarter turn of this tile's bitmap.
    pub fn rotate_cw(&self) -> (r: Vec<Vec<i32>>)
        requires
            is_square(bitmap_view(self.bitmap)),
        ensures
            bitmap_view(r) == rotated_cw(bitmap_view(self.bitmap)),
    {
        rotate_bitmap(&self.bitmap)
    }

    /// Two clockwise quarter turns: the 180-degree rotation.
    pub fn rotate_cw_twice(&self) -> (r: Vec<Vec<i32>>)
        requires
            is_square(bitmap_view(self.bitmap)),
        ensures
            bitmap_view(r) == rotated_cw(rotated_cw(bitmap_view(self.bitmap))),
    {
        let once = rotate_bitmap(&self.bitmap);
        rotate_bitmap(&once)
    }

    /// Mirror of this tile's bitmap.
    pub fn reflect(&self) -> (r: Vec<Vec<i32>>)
        requires
            is_square(bitmap_view(self.bitmap)),
        ensures
            bitmap_view(r) == reflected(bitmap_view(self.bitmap)),
    {
        reflect_bitmap(&self.bitmap)
    }

    /// The ordered, non-empty transform set of this tile's symmetry class.
    ///
    /// An asymmetric pattern of class `L` yields its 4 rotations; class `X`
    /// yields the identity and the reflection, 2 bitmaps in all.
    pub fn generate_transforms(&self) -> (r: Vec<Vec<Vec<i32>>>)
        requires
            is_square(bitmap_view(self.bitmap)),
        ensures
            transforms_view(r) == transform_views(self.symmetry, bitmap_view(self.bitmap)),
            r@.len() >= 1,
            self.symmetry == Symmetry::L ==> r@.len() == 4,
            self.symmetry == Symmetry::T ==> r@.len() == 3,
            self.symmetry == Symmetry::I ==> r@.len() == 2,
            self.symmetry == Symmetry::BackSlash ==> r@.len() == 2,
            self.symmetry == Symmetry::ForwardSlash ==> r@.len() == 1,
            self.symmetry == Symmetry::F ==> r@.len() == 5,
            self.symmetry == Symmetry::X ==> r@.len() == 2,
    {
        let mut out: Vec<Vec<Vec<i32>>> = Vec::new();
        out.push(copy_bitmap(&self.bitmap));
        match self.symmetry {
            Symmetry::L => {
                let r90 = rotate_bitmap(&self.bitmap);
                let r180 = rotate_bitmap(&r90);
                let r270 = rotate_bitmap(&r180);
                out.push(r90);
                out.push(r180);
                out.push(r270);
            },
            Symmetry::T => {
                let r90 = rotate_bitmap(&self.bitmap);
                let r180 = rotate_bitmap(&r90);
                out.push(r90);
                out.push(r180);
            },
            Symmetry::I => {
                let r90 = rotate_bitmap(&self.bitmap);
                out.push(r90);
            },
            Symmetry::BackSlash => {
                let refl = reflect_bitmap(&self.bitmap);
                out.push(refl);
            },
            Symmetry::ForwardSlash => {},
            Symmetry::F => {
                let refl = reflect_bitmap(&self.bitmap);
                let r90 = rotate_bitmap(&self.bitmap);
                let r180 = rotate_bitmap(&r90);
                let r270 = rotate_bitmap(&r180);
                out.push(refl);
                out.push(r90);
                out.push(r180);
                out.push(r270);
            },
            Symmetry::X => {
                let refl = reflect_bitmap(&self.bitmap);
                out.push(refl);
            },
        }
        proof {
            assert(transforms_view(out) =~~= transform_views(
                self.symmetry,
                bitmap_view(self.bitmap),
            ));
        }
        out
    }
}

} // verus!
