//! Building the tile catalog from image file-name stems.
//!
//! A stem names one tile as `<tag>_<id>`: a symmetry tag whose first byte
//! selects the symmetry class, one underscore, and a decimal id. A malformed
//! stem or an unknown tag condemns only that one tile: the caller skips it
//! with a diagnostic and catalog construction goes on.

use std::collections::HashMap;
use vstd::prelude::*;

use crate::tile::Symmetry;
use crate::tile::Tile;
use crate::tile::bitmap_view;
use crate::tile::is_square;
use crate::tile::transform_views;
use crate::tile::transforms_view;

verus! {

/// Why a single tile was skipped during catalog construction.
#[derive(Clone, Copy, PartialEq, Eq, Structural, Debug)]
pub enum CatalogError {
    /// The stem is not exactly two tokens separated by one underscore.
    BadFormat,
    /// The id token is not a decimal number that fits the platform.
    BadId,
    /// The tag's first byte is not one of the known symmetry tags.
    UnknownSymmetry,
}

/// The symmetry class a tag byte denotes, if any.
pub open spec fn spec_symmetry_of(tag: u8) -> Option<Symmetry> {
    if tag == 76 {
        Some(Symmetry::L)
    } else if tag == 84 {
        Some(Symmetry::T)
    } else if tag == 73 {
        Some(Symmetry::I)
    } else if tag == 92 {
        Some(Symmetry::BackSlash)
    } else if tag == 47 {
        Some(Symmetry::ForwardSlash)
    } else if tag == 70 {
        Some(Symmetry::F)
    } else if tag == 88 {
        Some(Symmetry::X)
    } else {
        None
    }
}

/// Maps a tag byte to its symmetry class.
pub fn symmetry_of(tag: u8) -> (r: Option<Symmetry>)
    ensures
        r == spec_symmetry_of(tag),
{
    match tag {
        76 => Some(Symmetry::L),
        84 => Some(Symmetry::T),
        73 => Some(Symmetry::I),
        92 => Some(Symmetry::BackSlash),
        47 => Some(Symmetry::ForwardSlash),
        70 => Some(Symmetry::F),
        88 => Some(Symmetry::X),
        _ => None,
    }
}

/// An ASCII decimal digit.
pub open spec fn is_digit(b: u8) -> bool {
    48 <= b <= 57
}

/// Every byte is an ASCII decimal digit.
pub open spec fn all_digits(s: Seq<u8>) -> bool {
    forall|i: int| 0 <= i < s.len() ==> is_digit(#[trigger] s[i])
}

/// The number the digit bytes spell, most significant first.
pub open spec fn decimal_value(s: Seq<u8>) -> int
    decreases s.len(),
{
    if s.len() == 0 {
        0
    } else {
        decimal_value(s.drop_last()) * 10 + (s.last() - 48)
    }
}

proof fn lemma_decimal_nonneg(s: Seq<u8>)
    requires
        all_digits(s),
    ensures
        decimal_value(s) >= 0,
    decreases s.len(),
{
    if s.len() != 0 {
        assert(all_digits(s.drop_last()));
        lemma_decimal_nonneg(s.drop_last());
    }
}

proof fn lemma_decimal_prefix_le(s: Seq<u8>, k: int)
    requires
        all_digits(s),
        0 <= k <= s.len(),
    ensures
        decimal_value(s.take(k)) <= decimal_value(s),
    decreases s.len() - k,
{
    if k < s.len() {
        lemma_decimal_prefix_le(s, k + 1);
        assert(s.take(k + 1).drop_last() =~= s.take(k));
        assert(s.take(k + 1).last() == s[k]);
        assert(all_digits(s.take(k)));
        lemma_decimal_nonneg(s.take(k));
    } else {
        assert(s.take(k) =~= s);
    }
}

/// Parses an ASCII decimal number. Returns the value exactly when the input
/// is non-empty, all digits, and the value fits the platform's word.
pub fn parse_decimal(s: &[u8]) -> (r: Option<usize>)
    ensures
        r is Some <==> s@.len() > 0 && all_digits(s@) && decimal_value(s@) <= usize::MAX,
        r matches Some(v) ==> v as int == decimal_value(s@),
{
    let n = s.len();
    if n == 0 {
        return None;
    }
    let mut acc: usize = 0;
    let mut i: usize = 0;
    while i < n
        invariant
            n == s@.len(),
            i <= n,
            all_digits(s@.take(i as int)),
            acc as int == decimal_value(s@.take(i as int)),
        decreases n - i,
    {
        let b = *vstd::slice::slice_index_get(s, i);
        if b < 48 || b > 57 {
            proof {
                assert(!is_digit(s@[i as int]));
                assert(!all_digits(s@));
            }
            return None;
        }
        let d = (b - 48) as usize;
        proof {
            assert(s@.take(i + 1).drop_last() =~= s@.take(i as int));
            assert(s@.take(i + 1).last() == s@[i as int]);
        }
        let next = match acc.checked_mul(10) {
            Some(m) => m.checked_add(d),
            None => None,
        };
        match next {
            Some(v) => {
                acc = v;
            },
            None => {
                proof {
                    assert(decimal_value(s@.take(i + 1)) > usize::MAX);
                    if all_digits(s@) {
                        lemma_decimal_prefix_le(s@, i + 1);
                    }
                }
                return None;
            },
        }
        i += 1;
    }
    proof {
        assert(s@.take(n as int) =~= s@);
    }
    Some(acc)
}

/// Position `p` splits the stem: it holds the stem's one underscore.
pub open spec fn is_split_point(s: Seq<u8>, p: int) -> bool {
    &&& 0 <= p < s.len()
    &&& s[p] == 95
    &&& forall|i: int| 0 <= i < s.len() && i != p ==> s[i] != 95
}

/// The stem has exactly one underscore: exactly two tokens.
pub open spec fn well_formed_stem(s: Seq<u8>) -> bool {
    exists|p: int| is_split_point(s, p)
}

/// The position of the stem's one underscore.
pub open spec fn split_point(s: Seq<u8>) -> int {
    choose|p: int| is_split_point(s, p)
}

/// The id token of a well-formed stem: everything after the underscore.
pub open spec fn id_token(s: Seq<u8>) -> Seq<u8> {
    s.subrange(split_point(s) + 1, s.len() as int)
}

/// A stem parses to a tile: two tokens, a numeric id that fits, and a
/// leading byte that is a known symmetry tag.
pub open spec fn stem_ok(s: Seq<u8>) -> bool {
    &&& well_formed_stem(s)
    &&& id_token(s).len() > 0
    &&& all_digits(id_token(s))
    &&& decimal_value(id_token(s)) <= usize::MAX
    &&& split_point(s) > 0
    &&& spec_symmetry_of(s[0]) is Some
}

/// Parses a tile file-name stem `<tag>_<id>` into the tile's symmetry class
/// and id. Exactly two tokens are demanded first, then a numeric id, then a
/// known symmetry tag, mirroring the order in which a skipped tile's
/// diagnostic names its fault.
pub fn parse_tile_stem(stem: &[u8]) -> (r: Result<(Symmetry, usize), CatalogError>)
    ensures
        r is Ok <==> stem_ok(stem@),
        r matches Ok(pair) ==> {
            &&& Some(pair.0) == spec_symmetry_of(stem@[0])
            &&& pair.1 as int == decimal_value(id_token(stem@))
        },
        r == Result::<(Symmetry, usize), CatalogError>::Err(CatalogError::BadFormat)
            <==> !well_formed_stem(stem@),
        r == Result::<(Symmetry, usize), CatalogError>::Err(CatalogError::BadId) <==> (
        well_formed_stem(stem@) && !(id_token(stem@).len() > 0 && all_digits(id_token(stem@))
            && decimal_value(id_token(stem@)) <= usize::MAX)),
{
    let n = stem.len();
    let mut cnt: usize = 0;
    let mut first: usize = 0;
    let ghost mut second: int = 0;
    let mut i: usize = 0;
    while i < n
        invariant
            n == stem@.len(),
            i <= n,
            cnt <= 2,
            cnt == 0 ==> forall|j: int| 0 <= j < i ==> stem@[j] != 95,
            cnt >= 1 ==> first < i && stem@[first as int] == 95 && forall|j: int|
                0 <= j < first ==> stem@[j] != 95,
            cnt == 1 ==> forall|j: int| first < j < i ==> stem@[j] != 95,
            cnt >= 2 ==> first < second < i && stem@[second] == 95,
        decreases n - i,
    {
        if *vstd::slice::slice_index_get(stem, i) == 95 {
            if cnt == 0 {
                first = i;
                cnt = 1;
            } else if cnt == 1 {
                proof {
                    second = i as int;
                }
                cnt = 2;
            }
        }
        i += 1;
    }
    if cnt != 1 {
        proof {
            if cnt == 0 {
                assert forall|p: int| !is_split_point(stem@, p) by {
                    if 0 <= p < stem@.len() {
                        assert(stem@[p] != 95);
                    }
                }
            } else {
                assert forall|p: int| !is_split_point(stem@, p) by {
                    if is_split_point(stem@, p) {
                        if p != first {
                            assert(stem@[first as int] != 95);
                        } else {
                            assert(stem@[second] != 95);
                        }
                    }
                }
            }
        }
        return Err(CatalogError::BadFormat);
    }
    proof {
        assert(is_split_point(stem@, first as int));
        assert(well_formed_stem(stem@));
        let sp = split_point(stem@);
        assert(is_split_point(stem@, sp));
        if sp != first {
            assert(stem@[sp] != 95);
        }
        assert(split_point(stem@) == first);
    }
    let tail = vstd::slice::slice_subrange(stem, first + 1, n);
    proof {
        assert(tail@ =~= id_token(stem@));
    }
    let id = match parse_decimal(tail) {
        Some(id) => id,
        None => {
            return Err(CatalogError::BadId);
        },
    };
    if first == 0 {
        return Err(CatalogError::UnknownSymmetry);
    }
    match symmetry_of(*vstd::slice::slice_index_get(stem, 0)) {
        Some(sym) => Ok((sym, id)),
        None => Err(CatalogError::UnknownSymmetry),
    }
}

/// Appends one tile to the catalog and caches its symmetry-derived transform
/// set under the tile's id, ready for propagation to reuse. Returns how many
/// tiles the catalog now holds.
pub fn add_tile(
    tiles: &mut Vec<Tile>,
    transforms: &mut HashMap<usize, Vec<Vec<Vec<i32>>>>,
    tile: Tile,
) -> (count: usize)
    requires
        is_square(bitmap_view(tile.bitmap)),
    ensures
        final(tiles)@ == old(tiles)@.push(tile),
        final(transforms)@.contains_key(tile.id),
        transforms_view(final(transforms)@[tile.id]) == transform_views(
            tile.symmetry,
            bitmap_view(tile.bitmap),
        ),
        final(transforms)@ == old(transforms)@.insert(tile.id, final(transforms)@[tile.id]),
        count == final(tiles)@.len(),
{
    let ts = tile.generate_transforms();
    transforms.insert(tile.id, ts);
    tiles.push(tile);
    tiles.len()
}

} // verus!
