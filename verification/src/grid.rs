//! The N x N solver grid and its collapse / propagate state machine.
//!
//! A cell is `Unresolved` (holds a non-empty candidate set) until it commits
//! to a single tile id, a one-way transition. The grid reaches a terminal
//! state when every cell is resolved (`FullyCollapsed`) or when a still
//! unresolved cell's candidate set empties (`Contradiction`).
//!
//! The grid is stored as a single flat, bounds-checked vector in row-major
//! order; the cell at row x, column y sits at index `x * size + y`.

use std::collections::HashMap;
use vstd::prelude::*;

use crate::rng::rand_below;
use crate::tile::Tile;
use crate::tile::transforms_view;

verus! {

broadcast use
    Seq::lemma_filter_push,
    Seq::lemma_filter_contains_rev,
    vstd::seq_lib::group_filter_ensures,
;

/// One grid cell: an optional committed tile id and the remaining candidates.
pub struct Cell {
    pub value: Option<usize>,
    pub candidates: Vec<usize>,
}

/// A candidate set emptied while its cell was still unresolved; the grid
/// coordinate of that cell is reported and the run is over.
#[derive(Clone, Copy, PartialEq, Eq, Structural, Debug)]
pub struct ContradictionError {
    pub x: usize,
    pub y: usize,
}

/// Grid construction fails only on an empty tile catalog.
#[derive(Clone, Copy, PartialEq, Eq, Structural, Debug)]
pub enum GridConstructionError {
    EmptyCatalog,
}

/// Terminal state of a run.
#[derive(Clone, Copy, PartialEq, Eq, Structural, Debug)]
pub enum RunOutcome {
    FullyCollapsed,
    Contradiction(ContradictionError),
}

/// What a run did: its terminal state and how many collapse calls it took.
#[derive(Clone, Copy, PartialEq, Eq, Structural, Debug)]
pub struct RunReport {
    pub outcome: RunOutcome,
    pub collapse_calls: usize,
}

/// A resolved cell whose committed id equals this reserved sentinel is
/// treated as having infinite entropy and is never reselected.
pub const SENTINEL_ID: usize = 0;

/// The solver grid: flat row-major cells, the adjacency ruleset, the cached
/// per-id transform sets, and the one-shot initial-collapse flag.
pub struct Grid {
    pub size: usize,
    pub cells: Vec<Cell>,
    pub rules: HashMap<usize, Vec<usize>>,
    pub tile_transforms: HashMap<usize, Vec<Vec<Vec<i32>>>>,
    pub initial_collapse_done: bool,
}

proof fn lemma_flat_bounds(s: int, x: int, y: int)
    requires
        0 <= x < s,
        0 <= y < s,
    ensures
        0 <= x * s + y < s * s,
{
    assert(0 <= x * s + y < s * s) by (nonlinear_arith)
        requires
            0 <= x < s,
            0 <= y < s,
    ;
}

proof fn lemma_flat_injective(s: int, x: int, y: int, a: int, b: int)
    requires
        0 <= x < s,
        0 <= y < s,
        0 <= a < s,
        0 <= b < s,
        x * s + y == a * s + b,
    ensures
        x == a,
        y == b,
{
    assert(x == a && y == b) by (nonlinear_arith)
        requires
            0 <= x < s,
            0 <= y < s,
            0 <= a < s,
            0 <= b < s,
            x * s + y == a * s + b,
    ;
}

/// True when some pixel of some bitmap in `ts` occurs in `allowed`. This is
/// the intentionally coarse compatibility test: a candidate survives next to
/// a resolved neighbor when any pixel value drawn from any transform bitmap
/// of the neighbor's tile is an allowed adjacent id of the candidate.
pub open spec fn pixel_hit(ts: Seq<Seq<Seq<i32>>>, allowed: Seq<usize>, k: int, r: int, c: int) -> bool {
    &&& 0 <= k < ts.len()
    &&& 0 <= r < ts[k].len()
    &&& 0 <= c < ts[k][r].len()
    &&& ts[k][r][c] >= 0
    &&& allowed.contains(ts[k][r][c] as usize)
}

/// Some pixel of some transform bitmap is an allowed id.
pub open spec fn pixel_allowed(ts: Seq<Seq<Seq<i32>>>, allowed: Seq<usize>) -> bool {
    exists|k: int, r: int, c: int| #[trigger] pixel_hit(ts, allowed, k, r, c)
}

impl Cell {
    /// Cell-level well-formedness: a resolved cell's candidate set is exactly
    /// its value; every candidate id has a ruleset row and a transform set;
    /// the candidate set is strictly smaller than the address space.
    pub open spec fn wf_cell(
        self,
        rules: Map<usize, Vec<usize>>,
        transforms: Map<usize, Vec<Vec<Vec<i32>>>>,
    ) -> bool {
        &&& (self.value is Some ==> self.candidates@ == seq![self.value->0])
        &&& self.candidates@.len() < usize::MAX
        &&& forall|k: int|
            0 <= k < self.candidates@.len() ==> rules.contains_key(#[trigger] self.candidates@[k])
                && transforms.contains_key(self.candidates@[k])
    }
}

impl Grid {
    /// A coordinate pair addresses a cell.
    pub open spec fn in_bounds(self, x: int, y: int) -> bool {
        0 <= x < self.size && 0 <= y < self.size
    }

    /// The cell at row x, column y.
    pub open spec fn at(self, x: int, y: int) -> Cell {
        self.cells@[x * self.size + y]
    }

    /// The flat vector really is an N x N grid.
    pub open spec fn wf_dims(self) -> bool {
        &&& self.size * self.size < usize::MAX
        &&& self.cells@.len() == self.size * self.size
    }

    /// Grid well-formedness: proper dimensions and every cell well-formed
    /// against this grid's ruleset and transform table.
    pub open spec fn wf(self) -> bool {
        &&& self.wf_dims()
        &&& forall|x: int, y: int|
            self.in_bounds(x, y) ==> (#[trigger] self.at(x, y)).wf_cell(
                self.rules@,
                self.tile_transforms@,
            )
    }

    /// Every unresolved cell still has at least one candidate.
    pub open spec fn no_empty_unresolved(self) -> bool {
        forall|x: int, y: int|
            self.in_bounds(x, y) && (#[trigger] self.at(x, y)).value is None ==> self.at(
                x,
                y,
            ).candidates@.len() > 0
    }

    /// The grid is fully collapsed when every cell holds a value.
    pub open spec fn spec_fully_collapsed(self) -> bool {
        forall|x: int, y: int|
            self.in_bounds(x, y) ==> (#[trigger] self.at(x, y)).value is Some
    }

    /// Entropy of a cell: the size of its candidate set while unresolved;
    /// zero once resolved, except that the sentinel id counts as infinite.
    pub open spec fn spec_entropy(self, x: int, y: int) -> nat {
        match self.at(x, y).value {
            Some(v) => if v == SENTINEL_ID {
                usize::MAX as nat
            } else {
                0
            },
            None => self.at(x, y).candidates@.len(),
        }
    }

    /// A cell the entropy scan may select: entropy neither zero nor infinite.
    pub open spec fn selectable(self, x: int, y: int) -> bool {
        &&& self.in_bounds(x, y)
        &&& self.spec_entropy(x, y) != 0
        &&& self.spec_entropy(x, y) < usize::MAX as nat
    }

    /// Some cell is selectable.
    pub open spec fn has_selectable(self) -> bool {
        exists|x: int, y: int| self.selectable(x, y)
    }

    /// (a, b) is scanned strictly before (x, y) in row-major order.
    pub open spec fn scanned_before(a: int, b: int, x: int, y: int) -> bool {
        a < x || (a == x && b < y)
    }

    /// The cell the entropy scan selects: selectable, of minimal entropy, and
    /// first in row-major order among the minimal ones.
    pub open spec fn is_selection(self, x: int, y: int) -> bool {
        &&& self.selectable(x, y)
        &&& forall|a: int, b: int|
            self.selectable(a, b) ==> self.spec_entropy(x, y) <= self.spec_entropy(a, b)
        &&& forall|a: int, b: int|
            self.selectable(a, b) && Self::scanned_before(a, b, x, y) ==> self.spec_entropy(
                a,
                b,
            ) > self.spec_entropy(x, y)
    }

    /// The coordinate (on both axes) of the grid's center cell, the seam the
    /// first collapse resolves.
    pub open spec fn center(self) -> int {
        (self.size as int) / 2
    }

    /// The cell at (x, y) has committed to `v`: its value is `v` and its
    /// candidate set is exactly `v`, permanently.
    pub open spec fn resolved_to(self, x: int, y: int, v: usize) -> bool {
        &&& self.at(x, y).value == Some(v)
        &&& self.at(x, y).candidates@ == seq![v]
    }

    /// `post` differs from this grid in at most the cell at (x, y); the grid
    /// metadata other than the one-shot flag is unchanged.
    pub open spec fn unchanged_except(self, post: Grid, x: int, y: int) -> bool {
        &&& post.size == self.size
        &&& post.rules == self.rules
        &&& post.tile_transforms == self.tile_transforms
        &&& post.cells@ == self.cells@.update(x * self.size + y, post.at(x, y))
        &&& forall|a: int, b: int|
            self.in_bounds(a, b) && !(a == x && b == y) ==> post.at(a, b) == self.at(a, b)
    }

    /// Some unresolved cell has an empty candidate set.
    pub open spec fn spec_has_contradiction(self) -> bool {
        exists|x: int, y: int|
            self.in_bounds(x, y) && (#[trigger] self.at(x, y)).value is None && self.at(
                x,
                y,
            ).candidates@.len() == 0
    }

    /// A shared borrow of the cell at (x, y).
    fn cell_ref(&self, x: usize, y: usize) -> (c: &Cell)
        requires
            self.wf_dims(),
            x < self.size,
            y < self.size,
        ensures
            *c == self.at(x as int, y as int),
    {
        proof {
            lemma_flat_bounds(self.size as int, x as int, y as int);
        }
        &self.cells[x * self.size + y]
    }

    /// Replaces the cell at (x, y), leaving every other cell and all grid
    /// metadata unchanged.
    fn set_cell(&mut self, x: usize, y: usize, c: Cell)
        requires
            old(self).wf_dims(),
            x < old(self).size,
            y < old(self).size,
        ensures
            final(self).size == old(self).size,
            final(self).rules == old(self).rules,
            final(self).tile_transforms == old(self).tile_transforms,
            final(self).initial_collapse_done == old(self).initial_collapse_done,
            final(self).cells@.len() == old(self).cells@.len(),
            final(self).wf_dims(),
            final(self).at(x as int, y as int) == c,
            final(self).cells@ == old(self).cells@.update(
                (x as int) * (old(self).size as int) + (y as int),
                c,
            ),
            forall|a: int, b: int|
                old(self).in_bounds(a, b) && !(a == x && b == y) ==> final(self).at(a, b) == old(
                    self,
                ).at(a, b),
    {
        proof {
            lemma_flat_bounds(self.size as int, x as int, y as int);
        }
        let i = x * self.size + y;
        self.cells[i] = c;
        proof {
            assert forall|a: int, b: int|
                old(self).in_bounds(a, b) && !(a == x && b == y) implies self.at(a, b) == old(
                self,
            ).at(a, b) by {
                lemma_flat_bounds(self.size as int, a, b);
                if a * (self.size as int) + b == (x as int) * (self.size as int) + (y as int) {
                    lemma_flat_injective(self.size as int, a, b, x as int, y as int);
                }
            }
        }
    }

    /// The committed value of the cell at (x, y), if any.
    pub fn cell_value(&self, x: usize, y: usize) -> (r: Option<usize>)
        requires
            self.wf_dims(),
            x < self.size,
            y < self.size,
        ensures
            r == self.at(x as int, y as int).value,
    {
        self.cell_ref(x, y).value
    }

    /// The remaining candidate ids of the cell at (x, y).
    pub fn cell_candidates(&self, x: usize, y: usize) -> (r: &Vec<usize>)
        requires
            self.wf_dims(),
            x < self.size,
            y < self.size,
        ensures
            r@ == self.at(x as int, y as int).candidates@,
    {
        &self.cell_ref(x, y).candidates
    }

    /// Entropy of the cell at (x, y): candidate-set size while unresolved,
    /// zero once resolved, infinite for the sentinel id.
    pub fn entropy(&self, x: usize, y: usize) -> (r: usize)
        requires
            self.wf_dims(),
            x < self.size,
            y < self.size,
        ensures
            r as nat == self.spec_entropy(x as int, y as int),
    {
        let c = self.cell_ref(x, y);
        match c.value {
            Some(v) => if v == SENTINEL_ID {
                usize::MAX
            } else {
                0
            },
            None => c.candidates.len(),
        }
    }

    /// The display name of a tile id in the shipped six-tile deployment.
    pub fn id_to_name(&self, id: u32) -> (r: &'static str)
        requires
            1 <= id <= 6,
        ensures
            id == 1 ==> r@ == "plains"@,
            id == 2 ==> r@ == "forest"@,
            id == 3 ==> r@ == "mountains"@,
            id == 4 ==> r@ == "dessert"@,
            id == 5 ==> r@ == "shore"@,
            id == 6 ==> r@ == "ocean"@,
    {
        match id {
            1 => "plains",
            2 => "forest",
            3 => "mountains",
            4 => "dessert",
            5 => "shore",
            _ => "ocean",
        }
    }

    /// True when some still-unresolved cell has an empty candidate set.
    pub fn has_contradiction(&self) -> (r: bool)
        requires
            self.wf_dims(),
        ensures
            r == self.spec_has_contradiction(),
    {
        let mut x: usize = 0;
        while x < self.size
            invariant
                self.wf_dims(),
                x <= self.size,
                forall|a: int, b: int|
                    self.in_bounds(a, b) && a < x ==> !((#[trigger] self.at(a, b)).value is None
                        && self.at(a, b).candidates@.len() == 0),
            decreases self.size - x,
        {
            let mut y: usize = 0;
            while y < self.size
                invariant
                    self.wf_dims(),
                    x < self.size,
                    y <= self.size,
                    forall|a: int, b: int|
                        self.in_bounds(a, b) && a < x ==> !((#[trigger] self.at(a, b)).value
                            is None && self.at(a, b).candidates@.len() == 0),
                    forall|b: int|
                        0 <= b < y ==> !((#[trigger] self.at(x as int, b)).value is None && self.at(
                            x as int,
                            b,
                        ).candidates@.len() == 0),
                decreases self.size - y,
            {
                let c = self.cell_ref(x, y);
                if c.value.is_none() && c.candidates.len() == 0 {
                    return true;
                }
                y += 1;
            }
            x += 1;
        }
        false
    }

    /// True when every cell has committed to a value.
    pub fn is_fully_collapsed(&self) -> (r: bool)
        requires
            self.wf_dims(),
        ensures
            r == self.spec_fully_collapsed(),
    {
        let mut x: usize = 0;
        while x < self.size
            invariant
                self.wf_dims(),
                x <= self.size,
                forall|a: int, b: int|
                    self.in_bounds(a, b) && a < x ==> (#[trigger] self.at(a, b)).value is Some,
            decreases self.size - x,
        {
            let mut y: usize = 0;
            while y < self.size
                invariant
                    self.wf_dims(),
                    x < self.size,
                    y <= self.size,
                    forall|a: int, b: int|
                        self.in_bounds(a, b) && a < x ==> (#[trigger] self.at(a, b)).value is Some,
                    forall|b: int|
                        0 <= b < y ==> (#[trigger] self.at(x as int, b)).value is Some,
                decreases self.size - y,
            {
                if self.cell_ref(x, y).value.is_none() {
                    return false;
                }
                y += 1;
            }
            x += 1;
        }
        true
    }
}

/// Filtering with pointwise-equal predicates gives equal results.
proof fn lemma_filter_ext<A>(s: Seq<A>, p: spec_fn(A) -> bool, q: spec_fn(A) -> bool)
    requires
        forall|a: A| #[trigger] p(a) == q(a),
    ensures
        s.filter(p) == s.filter(q),
    decreases s.len(),
{
    reveal(Seq::filter);
    if s.len() != 0 {
        lemma_filter_ext(s.drop_last(), p, q);
    }
}

/// Tests whether an id list holds a given id.
fn contains_id(list: &Vec<usize>, target: usize) -> (r: bool)
    ensures
        r == list@.contains(target),
{
    let n = list.len();
    let mut i: usize = 0;
    while i < n
        invariant
            n == list@.len(),
            i <= n,
            forall|k: int| 0 <= k < i ==> list@[k] != target,
        decreases n - i,
    {
        if list[i] == target {
            return true;
        }
        i += 1;
    }
    false
}

/// Runs the coarse pixel compatibility test: does any pixel of any transform
/// bitmap occur in the allowed-id list?
fn allows_check(ts: &Vec<Vec<Vec<i32>>>, allowed: &Vec<usize>) -> (r: bool)
    ensures
        r == pixel_allowed(transforms_view(*ts), allowed@),
{
    let ghost tsv = transforms_view(*ts);
    let nk = ts.len();
    let mut k: usize = 0;
    while k < nk
        invariant
            tsv == transforms_view(*ts),
            nk == ts@.len(),
            k <= nk,
            forall|kk: int, rr: int, cc: int|
                kk < k ==> !#[trigger] pixel_hit(tsv, allowed@, kk, rr, cc),
        decreases nk - k,
    {
        let nr = ts[k].len();
        let mut r: usize = 0;
        while r < nr
            invariant
                tsv == transforms_view(*ts),
                nk == ts@.len(),
                k < nk,
                nr == ts@[k as int]@.len(),
                r <= nr,
                forall|kk: int, rr: int, cc: int|
                    kk < k ==> !#[trigger] pixel_hit(tsv, allowed@, kk, rr, cc),
                forall|rr: int, cc: int|
                    rr < r ==> !#[trigger] pixel_hit(tsv, allowed@, k as int, rr, cc),
            decreases nr - r,
        {
            let nc = ts[k][r].len();
            let mut c: usize = 0;
            while c < nc
                invariant
                    tsv == transforms_view(*ts),
                    nk == ts@.len(),
                    k < nk,
                    nr == ts@[k as int]@.len(),
                    r < nr,
                    nc == ts@[k as int]@[r as int]@.len(),
                    c <= nc,
                    forall|kk: int, rr: int, cc: int|
                        kk < k ==> !#[trigger] pixel_hit(tsv, allowed@, kk, rr, cc),
                    forall|rr: int, cc: int|
                        rr < r ==> !#[trigger] pixel_hit(tsv, allowed@, k as int, rr, cc),
                    forall|cc: int|
                        cc < c ==> !#[trigger] pixel_hit(tsv, allowed@, k as int, r as int, cc),
                decreases nc - c,
            {
                proof {
                    assert(tsv[k as int] == crate::tile::bitmap_view(ts@[k as int]));
                    assert(tsv[k as int][r as int] == ts@[k as int]@[r as int]@);
                }
                let pix = ts[k][r][c];
                if pix >= 0 {
                    if contains_id(allowed, pix as usize) {
                        proof {
                            assert(pixel_hit(tsv, allowed@, k as int, r as int, c as int));
                        }
                        return true;
                    }
                }
                c += 1;
            }
            r += 1;
        }
        k += 1;
    }
    proof {
        assert forall|kk: int, rr: int, cc: int|
            !#[trigger] pixel_hit(tsv, allowed@, kk, rr, cc) by {
            if 0 <= kk < tsv.len() {
            }
        }
    }
    false
}

impl Grid {
    /// The constraint a resolved cell at (nx, ny) puts on a candidate id `v`
    /// of a cardinal neighbor: some pixel of some transform bitmap of the
    /// resolved id must be an allowed adjacent id of `v`. An out-of-bounds or
    /// unresolved position constrains nothing.
    pub open spec fn neighbor_allows(self, nx: int, ny: int, v: usize) -> bool {
        if self.in_bounds(nx, ny) {
            match self.at(nx, ny).value {
                Some(nv) => pixel_allowed(
                    transforms_view(self.tile_transforms@[nv]),
                    self.rules@[v]@,
                ),
                None => true,
            }
        } else {
            true
        }
    }

    /// A candidate id `v` of the cell at (x, y) survives propagation when
    /// every resolved cardinal neighbor allows it.
    pub open spec fn keeps(self, x: int, y: int, v: usize) -> bool {
        &&& self.neighbor_allows(x - 1, y, v)
        &&& self.neighbor_allows(x + 1, y, v)
        &&& self.neighbor_allows(x, y - 1, v)
        &&& self.neighbor_allows(x, y + 1, v)
    }
}

/// The propagation filter for the cell at (x, y), as a predicate on ids.
pub open spec fn keep_fn(g: Grid, x: int, y: int) -> spec_fn(usize) -> bool {
    |v: usize| g.keeps(x, y, v)
}

impl Grid {
    /// (nx, ny) is a cardinal neighbor of (x, y).
    pub open spec fn cardinal_adjacent(x: int, y: int, nx: int, ny: int) -> bool {
        ||| (nx == x - 1 && ny == y)
        ||| (nx == x + 1 && ny == y)
        ||| (nx == x && ny == y - 1)
        ||| (nx == x && ny == y + 1)
    }

    /// Every remaining candidate of every unresolved cell survives all of
    /// that cell's resolved cardinal neighbors: the state a full propagation
    /// pass leaves behind, and the state a fresh grid starts in.
    pub open spec fn candidates_consistent(self) -> bool {
        forall|x: int, y: int, k: int|
            self.in_bounds(x, y) && self.at(x, y).value is None && 0 <= k < self.at(
                x,
                y,
            ).candidates@.len() ==> self.keeps(x, y, #[trigger] self.at(x, y).candidates@[k])
    }

    /// Id `v` occurs somewhere in the grid, as a committed value or as a
    /// remaining candidate.
    pub open spec fn id_present(self, v: usize) -> bool {
        exists|x: int, y: int|
            #![trigger self.at(x, y)]
            self.in_bounds(x, y) && (self.at(x, y).value == Some(v) || self.at(
                x,
                y,
            ).candidates@.contains(v))
    }

    /// Every id present anywhere passes the pixel test against every other:
    /// propagation can then never empty a candidate set.
    pub open spec fn universally_compatible(self) -> bool {
        forall|a: usize, b: usize|
            #![trigger self.id_present(a), self.id_present(b)]
            self.id_present(a) && self.id_present(b) ==> pixel_allowed(
                transforms_view(self.tile_transforms@[a]),
                self.rules@[b]@,
            )
    }

    /// Resolved neighbors remain mutually compatible: of any two cardinally
    /// adjacent resolved cells, at least one passed the pixel test against
    /// the other (the later-resolved one survived the earlier's filter).
    pub open spec fn mutually_compatible(self) -> bool {
        forall|x: int, y: int, nx: int, ny: int|
            #![trigger self.at(x, y), self.at(nx, ny)]
            self.in_bounds(x, y) && self.in_bounds(nx, ny) && Self::cardinal_adjacent(
                x,
                y,
                nx,
                ny,
            ) && self.at(x, y).value is Some && self.at(nx, ny).value is Some
                ==> self.neighbor_allows(nx, ny, self.at(x, y).value->0) || self.neighbor_allows(
                x,
                y,
                self.at(nx, ny).value->0,
            )
    }
}

/// The survival test reads only the neighbor's value and the two tables, so
/// it transports between states that agree on those.
proof fn lemma_neighbor_allows_transport(g1: Grid, g2: Grid, nx: int, ny: int, v: usize)
    requires
        g1.size == g2.size,
        g1.rules == g2.rules,
        g1.tile_transforms == g2.tile_transforms,
        g1.in_bounds(nx, ny) ==> g2.at(nx, ny).value == g1.at(nx, ny).value,
    ensures
        g1.neighbor_allows(nx, ny, v) == g2.neighbor_allows(nx, ny, v),
{
}

/// Mutual compatibility depends only on the values and the two tables.
proof fn lemma_mutual_transport(g1: Grid, g2: Grid)
    requires
        g1.size == g2.size,
        g1.rules == g2.rules,
        g1.tile_transforms == g2.tile_transforms,
        forall|a: int, b: int|
            g1.in_bounds(a, b) ==> (#[trigger] g2.at(a, b)).value == g1.at(a, b).value,
        g1.mutually_compatible(),
    ensures
        g2.mutually_compatible(),
{
    assert forall|x: int, y: int, nx: int, ny: int|
        #![trigger g2.at(x, y), g2.at(nx, ny)]
        g2.in_bounds(x, y) && g2.in_bounds(nx, ny) && Grid::cardinal_adjacent(x, y, nx, ny)
            && g2.at(x, y).value is Some && g2.at(nx, ny).value is Some implies g2.neighbor_allows(
        nx,
        ny,
        g2.at(x, y).value->0,
    ) || g2.neighbor_allows(x, y, g2.at(nx, ny).value->0) by {
        let vx = g2.at(x, y).value->0;
        let vn = g2.at(nx, ny).value->0;
        assert(g1.at(x, y).value == g2.at(x, y).value);
        assert(g1.at(nx, ny).value == g2.at(nx, ny).value);
        assert(g1.neighbor_allows(nx, ny, vx) || g1.neighbor_allows(x, y, vn));
        lemma_neighbor_allows_transport(g1, g2, nx, ny, vx);
        lemma_neighbor_allows_transport(g1, g2, x, y, vn);
    }
}

/// Under universal compatibility every present id survives every neighbor:
/// only a resolved neighbor constrains, and both ids involved are present.
proof fn lemma_universal_keeps(orig: Grid, mid: Grid, x: int, y: int, w: usize)
    requires
        mid.rules == orig.rules,
        mid.tile_transforms == orig.tile_transforms,
        forall|u: usize| #[trigger] mid.id_present(u) ==> orig.id_present(u),
        mid.id_present(w),
        orig.universally_compatible(),
    ensures
        mid.keeps(x, y, w),
{
    assert forall|nx: int, ny: int| true implies mid.neighbor_allows(nx, ny, w) by {
        if mid.in_bounds(nx, ny) && mid.at(nx, ny).value is Some {
            let nv = mid.at(nx, ny).value->0;
            assert(mid.id_present(nv));
            assert(orig.id_present(nv) && orig.id_present(w));
            assert(pixel_allowed(transforms_view(orig.tile_transforms@[nv]), orig.rules@[w]@));
        }
    }
}

/// Resolving one cell to one of its consistent candidates keeps every pair
/// of adjacent resolved cells mutually compatible: the fresh value survived
/// each resolved neighbor's filter.
proof fn lemma_mutual_after_resolve(pre: Grid, post: Grid, qx: int, qy: int, v: usize)
    requires
        pre.wf(),
        pre.in_bounds(qx, qy),
        pre.candidates_consistent(),
        pre.mutually_compatible(),
        pre.unchanged_except(post, qx, qy),
        post.resolved_to(qx, qy, v),
        pre.at(qx, qy).candidates@.contains(v),
    ensures
        post.mutually_compatible(),
{
    assert forall|x: int, y: int, nx: int, ny: int|
        #![trigger post.at(x, y), post.at(nx, ny)]
        post.in_bounds(x, y) && post.in_bounds(nx, ny) && Grid::cardinal_adjacent(x, y, nx, ny)
            && post.at(x, y).value is Some && post.at(nx, ny).value is Some implies post
        .neighbor_allows(nx, ny, post.at(x, y).value->0) || post.neighbor_allows(
        x,
        y,
        post.at(nx, ny).value->0,
    ) by {
        let vx = post.at(x, y).value->0;
        let vn = post.at(nx, ny).value->0;
        if (x == qx && y == qy) || (nx == qx && ny == qy) {
            let px = if x == qx && y == qy { nx } else { x };
            let py = if x == qx && y == qy { ny } else { y };
            assert(!(px == qx && py == qy));
            assert(post.at(px, py) == pre.at(px, py));
            if pre.at(qx, qy).value is Some {
                // a re-resolution: the candidate set was exactly the old
                // value, so nothing observable moved
                assert(pre.at(qx, qy).wf_cell(pre.rules@, pre.tile_transforms@));
                assert(pre.at(qx, qy).candidates@ == seq![pre.at(qx, qy).value->0]);
                assert(v == pre.at(qx, qy).value->0);
                assert(post.at(qx, qy).value == pre.at(qx, qy).value);
                assert(pre.at(x, y).value is Some && pre.at(nx, ny).value is Some);
                assert(pre.neighbor_allows(nx, ny, vx) || pre.neighbor_allows(x, y, vn));
                lemma_neighbor_allows_transport(pre, post, nx, ny, vx);
                lemma_neighbor_allows_transport(pre, post, x, y, vn);
            } else {
                // the fresh value was a consistent candidate: the resolved
                // neighbor p allowed it
                let k = choose|k: int|
                    0 <= k < pre.at(qx, qy).candidates@.len() && pre.at(qx, qy).candidates@[k]
                        == v;
                assert(pre.keeps(qx, qy, pre.at(qx, qy).candidates@[k]));
                assert(pre.keeps(qx, qy, v));
                assert(pre.neighbor_allows(px, py, v));
                lemma_neighbor_allows_transport(pre, post, px, py, v);
                assert(post.neighbor_allows(px, py, v));
                assert(post.at(qx, qy).value->0 == v);
            }
        } else {
            assert(post.at(x, y) == pre.at(x, y));
            assert(post.at(nx, ny) == pre.at(nx, ny));
            assert(pre.neighbor_allows(nx, ny, vx) || pre.neighbor_allows(x, y, vn));
            lemma_neighbor_allows_transport(pre, post, nx, ny, vx);
            lemma_neighbor_allows_transport(pre, post, x, y, vn);
        }
    }
}

impl Grid {
    /// Whether the cell at (nx, ny), if resolved, allows candidate `v` next
    /// to it.
    fn cell_allows(&self, nx: usize, ny: usize, v: usize) -> (r: bool)
        requires
            self.wf(),
            nx < self.size,
            ny < self.size,
            self.rules@.contains_key(v),
        ensures
            r == self.neighbor_allows(nx as int, ny as int, v),
    {
        let cv = self.cell_ref(nx, ny).value;
        match cv {
            Some(nv) => {
                proof {
                    assert(self.at(nx as int, ny as int).wf_cell(
                        self.rules@,
                        self.tile_transforms@,
                    ));
                    assert(self.at(nx as int, ny as int).candidates@ == seq![nv]);
                    assert(self.at(nx as int, ny as int).candidates@[0] == nv);
                }
                let tso = self.tile_transforms.get(&nv);
                let alo = self.rules.get(&v);
                match (tso, alo) {
                    (Some(ts), Some(al)) => allows_check(ts, al),
                    _ => {
                        proof {
                            assert(false);
                        }
                        true
                    },
                }
            },
            None => true,
        }
    }

    /// Whether candidate `v` of the cell at (x, y) survives all four resolved
    /// cardinal neighbors.
    fn candidate_keeps(&self, x: usize, y: usize, v: usize) -> (r: bool)
        requires
            self.wf(),
            x < self.size,
            y < self.size,
            self.rules@.contains_key(v),
        ensures
            r == self.keeps(x as int, y as int, v),
    {
        if x > 0 && !self.cell_allows(x - 1, y, v) {
            return false;
        }
        if x < self.size - 1 && !self.cell_allows(x + 1, y, v) {
            return false;
        }
        if y > 0 && !self.cell_allows(x, y - 1, v) {
            return false;
        }
        if y < self.size - 1 && !self.cell_allows(x, y + 1, v) {
            return false;
        }
        true
    }

    /// The candidate list of the cell at (x, y) filtered against its resolved
    /// cardinal neighbors, in order.
    fn filtered_for_cell(&self, x: usize, y: usize) -> (r: Vec<usize>)
        requires
            self.wf(),
            x < self.size,
            y < self.size,
        ensures
            r@ == self.at(x as int, y as int).candidates@.filter(
                keep_fn(*self, x as int, y as int),
            ),
    {
        let ghost s = self.at(x as int, y as int).candidates@;
        let ghost p = keep_fn(*self, x as int, y as int);
        let n = self.cell_ref(x, y).candidates.len();
        let mut out: Vec<usize> = Vec::new();
        let mut i: usize = 0;
        while i < n
            invariant
                self.wf(),
                x < self.size,
                y < self.size,
                s == self.at(x as int, y as int).candidates@,
                p == keep_fn(*self, x as int, y as int),
                n == s.len(),
                i <= n,
                out@ == s.take(i as int).filter(p),
            decreases n - i,
        {
            let v = self.cell_ref(x, y).candidates[i];
            proof {
                assert(self.at(x as int, y as int).wf_cell(self.rules@, self.tile_transforms@));
                assert(self.at(x as int, y as int).candidates@[i as int] == v);
            }
            let keep = self.candidate_keeps(x, y, v);
            if keep {
                out.push(v);
            }
            proof {
                assert(p(v) == self.keeps(x as int, y as int, v));
                assert(s.take(i + 1) =~= s.take(i as int).push(s[i as int]));
                assert(out@ == s.take(i + 1).filter(p));
            }
            i += 1;
        }
        proof {
            assert(s.take(n as int) =~= s);
        }
        out
    }

    /// One propagation pass: the constraint every resolved cell puts on its
    /// cardinal unresolved neighbors is applied, organized as a row-major
    /// scan that filters each unresolved cell's candidate set against all of
    /// its resolved neighbors at once. A full pass leaves each unresolved
    /// cell with exactly the ids that every resolved neighbor allows, the
    /// same sets a walk over the resolved cells would leave. The pass aborts
    /// at the first cell whose candidate set empties, reporting that
    /// coordinate; the cells after it are left untouched. Resolved cells are
    /// never changed, and no candidate set ever grows.
    pub fn propagate(&mut self) -> (r: Result<(), ContradictionError>)
        requires
            old(self).wf(),
        ensures
            final(self).wf(),
            final(self).size == old(self).size,
            final(self).rules == old(self).rules,
            final(self).tile_transforms == old(self).tile_transforms,
            final(self).initial_collapse_done == old(self).initial_collapse_done,
            final(self).cells@.len() == old(self).cells@.len(),
            forall|x: int, y: int|
                old(self).in_bounds(x, y) ==> (#[trigger] final(self).at(x, y)).value == old(
                    self,
                ).at(x, y).value,
            forall|x: int, y: int|
                old(self).in_bounds(x, y) && old(self).at(x, y).value is Some ==> (
                #[trigger] final(self).at(x, y)) == old(self).at(x, y),
            forall|x: int, y: int|
                old(self).in_bounds(x, y) ==> (#[trigger] final(self).at(x, y)).candidates@.len()
                    <= old(self).at(x, y).candidates@.len(),
            forall|x: int, y: int, v: usize|
                old(self).in_bounds(x, y) && #[trigger] final(self).at(x, y).candidates@.contains(
                    v,
                ) ==> old(self).at(x, y).candidates@.contains(v),
            r is Ok ==> forall|x: int, y: int|
                old(self).in_bounds(x, y) && old(self).at(x, y).value is None ==> (
                #[trigger] final(self).at(x, y)).candidates@ == old(self).at(
                    x,
                    y,
                ).candidates@.filter(keep_fn(*old(self), x, y)),
            r is Ok ==> final(self).no_empty_unresolved(),
            r is Ok ==> final(self).candidates_consistent(),
            old(self).mutually_compatible() ==> final(self).mutually_compatible(),
            (exists|x: int, y: int|
                old(self).in_bounds(x, y) && (#[trigger] old(self).at(x, y)).value is None && old(
                    self,
                ).at(x, y).candidates@.filter(keep_fn(*old(self), x, y)).len() == 0) ==> r
                is Err,
            r matches Err(e) ==> {
                &&& e.x < old(self).size
                &&& e.y < old(self).size
                &&& final(self).at(e.x as int, e.y as int).value is None
                &&& final(self).at(e.x as int, e.y as int).candidates@.len() == 0
                &&& old(self).at(e.x as int, e.y as int).candidates@.filter(
                    keep_fn(*old(self), e.x as int, e.y as int),
                ) =~= Seq::<usize>::empty()
                &&& forall|v: usize|
                    old(self).at(e.x as int, e.y as int).candidates@.contains(v) ==> !old(
                        self,
                    ).keeps(e.x as int, e.y as int, v)
                &&& forall|a: int, b: int|
                    old(self).in_bounds(a, b) && old(self).at(a, b).value is None
                        && Self::scanned_before(a, b, e.x as int, e.y as int) ==> (
                    #[trigger] final(self).at(a, b)).candidates@ == old(self).at(
                        a,
                        b,
                    ).candidates@.filter(keep_fn(*old(self), a, b)) && final(self).at(
                        a,
                        b,
                    ).candidates@.len() > 0
                &&& forall|a: int, b: int|
                    old(self).in_bounds(a, b) && old(self).at(a, b).value is None
                        && !Self::scanned_before(a, b, e.x as int, e.y as int) && !(a == e.x && b
                        == e.y) ==> (#[trigger] final(self).at(a, b)) == old(self).at(a, b)
            },
    {
        let ghost g0 = *self;
        let size = self.size;
        let mut x: usize = 0;
        while x < size
            invariant
                g0 == *old(self),
                size == g0.size,
                self.size == g0.size,
                self.rules == g0.rules,
                self.tile_transforms == g0.tile_transforms,
                self.initial_collapse_done == g0.initial_collapse_done,
                self.cells@.len() == g0.cells@.len(),
                g0.wf(),
                self.wf(),
                x <= size,
                forall|a: int, b: int|
                    g0.in_bounds(a, b) ==> (#[trigger] self.at(a, b)).value == g0.at(a, b).value,
                forall|a: int, b: int|
                    g0.in_bounds(a, b) && g0.at(a, b).value is Some ==> (#[trigger] self.at(a, b))
                        == g0.at(a, b),
                forall|a: int, b: int|
                    g0.in_bounds(a, b) && g0.at(a, b).value is None && Self::scanned_before(
                        a,
                        b,
                        x as int,
                        0,
                    ) ==> (#[trigger] self.at(a, b)).candidates@ == g0.at(a, b).candidates@.filter(
                        keep_fn(g0, a, b),
                    ) && self.at(a, b).candidates@.len() > 0,
                forall|a: int, b: int|
                    g0.in_bounds(a, b) && g0.at(a, b).value is None && !Self::scanned_before(
                        a,
                        b,
                        x as int,
                        0,
                    ) ==> (#[trigger] self.at(a, b)) == g0.at(a, b),
            decreases size - x,
        {
            let mut y: usize = 0;
            while y < size
                invariant
                    g0 == *old(self),
                    size == g0.size,
                    self.size == g0.size,
                    self.rules == g0.rules,
                    self.tile_transforms == g0.tile_transforms,
                    self.initial_collapse_done == g0.initial_collapse_done,
                    self.cells@.len() == g0.cells@.len(),
                    g0.wf(),
                    self.wf(),
                    x < size,
                    y <= size,
                    forall|a: int, b: int|
                        g0.in_bounds(a, b) ==> (#[trigger] self.at(a, b)).value == g0.at(
                            a,
                            b,
                        ).value,
                    forall|a: int, b: int|
                        g0.in_bounds(a, b) && g0.at(a, b).value is Some ==> (#[trigger] self.at(
                            a,
                            b,
                        )) == g0.at(a, b),
                    forall|a: int, b: int|
                        g0.in_bounds(a, b) && g0.at(a, b).value is None && Self::scanned_before(
                            a,
                            b,
                            x as int,
                            y as int,
                        ) ==> (#[trigger] self.at(a, b)).candidates@ == g0.at(
                            a,
                            b,
                        ).candidates@.filter(keep_fn(g0, a, b)) && self.at(a, b).candidates@.len()
                            > 0,
                    forall|a: int, b: int|
                        g0.in_bounds(a, b) && g0.at(a, b).value is None && !Self::scanned_before(
                            a,
                            b,
                            x as int,
                            y as int,
                        ) ==> (#[trigger] self.at(a, b)) == g0.at(a, b),
                decreases size - y,
            {
                let unresolved = self.cell_ref(x, y).value.is_none();
                if unresolved {
                    let ghost gs = *self;
                    let newc = self.filtered_for_cell(x, y);
                    proof {
                        assert forall|v: usize| #[trigger] keep_fn(gs, x as int, y as int)(v)
                            == keep_fn(g0, x as int, y as int)(v) by {
                            assert(keep_fn(gs, x as int, y as int)(v) == gs.keeps(
                                x as int,
                                y as int,
                                v,
                            ));
                            assert(keep_fn(g0, x as int, y as int)(v) == g0.keeps(
                                x as int,
                                y as int,
                                v,
                            ));
                        }
                        lemma_filter_ext(
                            g0.at(x as int, y as int).candidates@,
                            keep_fn(gs, x as int, y as int),
                            keep_fn(g0, x as int, y as int),
                        );
                        assert(newc@ == g0.at(x as int, y as int).candidates@.filter(
                            keep_fn(g0, x as int, y as int),
                        ));
                        // the filtered list keeps only original candidates,
                        // so the new cell is still well-formed
                        assert forall|k: int| 0 <= k < newc@.len() implies self.rules@.contains_key(
                            #[trigger] newc@[k],
                        ) && self.tile_transforms@.contains_key(newc@[k]) by {
                            assert(newc@.contains(newc@[k]));
                            assert(g0.at(x as int, y as int).candidates@.contains(newc@[k]));
                            assert(g0.at(x as int, y as int).wf_cell(
                                g0.rules@,
                                g0.tile_transforms@,
                            ));
                            let j = choose|j: int|
                                0 <= j < g0.at(x as int, y as int).candidates@.len() && g0.at(
                                    x as int,
                                    y as int,
                                ).candidates@[j] == newc@[k];
                            assert(g0.rules@.contains_key(
                                g0.at(x as int, y as int).candidates@[j],
                            ));
                        }
                    }
                    let is_empty = newc.len() == 0;
                    self.set_cell(x, y, Cell { value: None, candidates: newc });
                    proof {
                        assert forall|a: int, b: int| self.in_bounds(a, b) implies (
                        #[trigger] self.at(a, b)).wf_cell(self.rules@, self.tile_transforms@) by {
                            if !(a == x && b == y) {
                                assert(gs.at(a, b).wf_cell(gs.rules@, gs.tile_transforms@));
                            }
                        }
                    }
                    if is_empty {
                        proof {
                            assert forall|v: usize|
                                g0.at(x as int, y as int).candidates@.contains(v) implies !g0.keeps(
                                x as int,
                                y as int,
                                v,
                            ) by {
                                let s = g0.at(x as int, y as int).candidates@;
                                let p = keep_fn(g0, x as int, y as int);
                                if p(v) {
                                    let j = choose|j: int| 0 <= j < s.len() && s[j] == v;
                                    assert(p(s[j]));
                                    assert(s.filter(p).contains(s[j]));
                                }
                            }
                            assert forall|a: int, b: int| g0.in_bounds(a, b) implies (
                            #[trigger] self.at(a, b)).value == g0.at(a, b).value by {
                                if !(a == x && b == y) {
                                    assert(self.at(a, b) == gs.at(a, b));
                                }
                            }
                            if g0.mutually_compatible() {
                                lemma_mutual_transport(g0, *self);
                            }
                        }
                        return Err(ContradictionError { x, y });
                    }
                }
                y += 1;
            }
            x += 1;
        }
        proof {
            assert forall|a: int, b: int|
                g0.in_bounds(a, b) && (#[trigger] g0.at(a, b)).value is None implies self.at(
                a,
                b,
            ).candidates@ == g0.at(a, b).candidates@.filter(keep_fn(g0, a, b)) && self.at(
                a,
                b,
            ).candidates@.len() > 0 by {
                assert(Grid::scanned_before(a, b, size as int, 0));
            }
            // the survivors of a full pass all pass the test against the
            // current resolved neighbors
            assert forall|a: int, b: int, k: int|
                self.in_bounds(a, b) && self.at(a, b).value is None && 0 <= k < self.at(
                    a,
                    b,
                ).candidates@.len() implies self.keeps(
                a,
                b,
                #[trigger] self.at(a, b).candidates@[k],
            ) by {
                assert(g0.at(a, b).value is None);
                let w = self.at(a, b).candidates@[k];
                let fs = g0.at(a, b).candidates@.filter(keep_fn(g0, a, b));
                assert(self.at(a, b).candidates@ == fs);
                assert(keep_fn(g0, a, b)(fs[k]));
                assert(g0.keeps(a, b, w));
                lemma_neighbor_allows_transport(g0, *self, a - 1, b, w);
                lemma_neighbor_allows_transport(g0, *self, a + 1, b, w);
                lemma_neighbor_allows_transport(g0, *self, a, b - 1, w);
                lemma_neighbor_allows_transport(g0, *self, a, b + 1, w);
            }
            if g0.mutually_compatible() {
                lemma_mutual_transport(g0, *self);
            }
        }
        Ok(())
    }
}

/// How many cells of a flat cell vector are still unresolved.
pub open spec fn count_unresolved(s: Seq<Cell>) -> nat
    decreases s.len(),
{
    if s.len() == 0 {
        0
    } else {
        count_unresolved(s.drop_last()) + if s.last().value is None {
            1nat
        } else {
            0nat
        }
    }
}

proof fn lemma_count_le(s: Seq<Cell>)
    ensures
        count_unresolved(s) <= s.len(),
    decreases s.len(),
{
    if s.len() != 0 {
        lemma_count_le(s.drop_last());
    }
}

proof fn lemma_count_update(s: Seq<Cell>, j: int, c: Cell)
    requires
        0 <= j < s.len(),
    ensures
        count_unresolved(s.update(j, c)) + (if s[j].value is None {
            1nat
        } else {
            0nat
        }) == count_unresolved(s) + (if c.value is None {
            1nat
        } else {
            0nat
        }),
    decreases s.len(),
{
    let t = s.update(j, c);
    if j == s.len() - 1 {
        assert(t.drop_last() =~= s.drop_last());
    } else {
        assert(t.drop_last() =~= s.drop_last().update(j, c));
        lemma_count_update(s.drop_last(), j, c);
    }
}

proof fn lemma_count_pos(s: Seq<Cell>, j: int)
    requires
        0 <= j < s.len(),
        s[j].value is None,
    ensures
        count_unresolved(s) >= 1,
    decreases s.len(),
{
    if j < s.len() - 1 {
        lemma_count_pos(s.drop_last(), j);
    }
}

proof fn lemma_count_pointwise(s1: Seq<Cell>, s2: Seq<Cell>)
    requires
        s1.len() == s2.len(),
        forall|j: int| 0 <= j < s1.len() ==> (#[trigger] s1[j]).value == s2[j].value,
    ensures
        count_unresolved(s1) == count_unresolved(s2),
    decreases s1.len(),
{
    if s1.len() != 0 {
        lemma_count_pointwise(s1.drop_last(), s2.drop_last());
    }
}

proof fn lemma_flat_coords(s: int, j: int)
    requires
        s >= 0,
        0 <= j < s * s,
    ensures
        0 <= j / s < s,
        0 <= j % s < s,
        (j / s) * s + (j % s) == j,
{
    assert(0 <= j / s < s && 0 <= j % s < s && (j / s) * s + (j % s) == j) by (nonlinear_arith)
        requires
            s >= 0,
            0 <= j < s * s,
    ;
}

impl Grid {
    /// How many cells are still unresolved.
    pub open spec fn unresolved_count(self) -> nat {
        count_unresolved(self.cells@)
    }

    /// One collapse step.
    ///
    /// On the first call, while the grid's center cell has candidates left,
    /// the center cell is force-resolved to a random pick from them and the
    /// one-shot flag is set. On every later call the unresolved cell with the
    /// strictly smallest positive entropy is selected, ties broken by
    /// row-major scan order, and resolved to a random pick from its remaining
    /// candidates, which collapse to that single value. When no cell has
    /// finite positive entropy, nothing is mutated and false is returned.
    /// The grid must not be empty: the center cell has to exist.
    pub fn collapse(&mut self) -> (r: bool)
        requires
            old(self).wf(),
            old(self).size >= 1,
        ensures
            final(self).wf(),
            final(self).size == old(self).size,
            final(self).rules == old(self).rules,
            final(self).tile_transforms == old(self).tile_transforms,
            final(self).cells@.len() == old(self).cells@.len(),
            old(self).candidates_consistent() && old(self).mutually_compatible()
                ==> final(self).mutually_compatible(),
            (!old(self).initial_collapse_done && old(self).at(
                old(self).center(),
                old(self).center(),
            ).candidates@.len() > 0) ==> {
                let c = old(self).center();
                &&& r == true
                &&& final(self).initial_collapse_done
                &&& old(self).unchanged_except(*final(self), c, c)
                &&& exists|v: usize|
                    #[trigger] old(self).at(c, c).candidates@.contains(v)
                        && final(self).resolved_to(c, c, v)
            },
            (old(self).initial_collapse_done || old(self).at(
                old(self).center(),
                old(self).center(),
            ).candidates@.len() == 0) ==> {
                &&& final(self).initial_collapse_done == old(self).initial_collapse_done
                &&& r == old(self).has_selectable()
                &&& (!r ==> *final(self) == *old(self))
                &&& (r ==> exists|x: int, y: int|
                    {
                        &&& #[trigger] old(self).is_selection(x, y)
                        &&& old(self).unchanged_except(*final(self), x, y)
                        &&& exists|v: usize|
                            #[trigger] old(self).at(x, y).candidates@.contains(v)
                                && final(self).resolved_to(x, y, v)
                    })
            },
    {
        let size = self.size;
        if !self.initial_collapse_done {
            let mid = size / 2;
            let clen = self.cell_ref(mid, mid).candidates.len();
            if clen > 0 {
                let idx = rand_below(clen);
                let v = self.cell_ref(mid, mid).candidates[idx];
                proof {
                    assert(old(self).at(mid as int, mid as int).candidates@[idx as int] == v);
                    assert(old(self).at(mid as int, mid as int).candidates@.contains(v));
                    assert(old(self).at(mid as int, mid as int).wf_cell(
                        old(self).rules@,
                        old(self).tile_transforms@,
                    ));
                }
                let single: Vec<usize> = vec![v];
                proof {
                    assert(single@ =~= seq![v]);
                }
                self.set_cell(mid, mid, Cell { value: Some(v), candidates: single });
                self.initial_collapse_done = true;
                proof {
                    let ghost gf = *self;
                    assert forall|a: int, b: int| gf.in_bounds(a, b) implies (#[trigger] gf.at(
                        a,
                        b,
                    )).wf_cell(gf.rules@, gf.tile_transforms@) by {
                        if !(a == mid && b == mid) {
                            assert(old(self).at(a, b).wf_cell(
                                old(self).rules@,
                                old(self).tile_transforms@,
                            ));
                        }
                    }
                    if old(self).candidates_consistent() && old(self).mutually_compatible() {
                        assert(old(self).unchanged_except(*self, mid as int, mid as int));
                        lemma_mutual_after_resolve(*old(self), *self, mid as int, mid as int, v);
                    }
                }
                return true;
            }
        }
        let ghost pre = *self;
        let mut min_x: usize = 0;
        let mut min_y: usize = 0;
        let mut min_e: usize = usize::MAX;
        let mut x: usize = 0;
        while x < size
            invariant
                pre == *old(self),
                *self == pre,
                self.wf(),
                size == self.size,
                x <= size,
                min_e == usize::MAX ==> forall|a: int, b: int|
                    self.in_bounds(a, b) && a < x ==> !#[trigger] self.selectable(a, b),
                min_e < usize::MAX ==> {
                    &&& min_x < size
                    &&& min_y < size
                    &&& (min_x as int) < x
                    &&& self.selectable(min_x as int, min_y as int)
                    &&& self.spec_entropy(min_x as int, min_y as int) == min_e as nat
                    &&& forall|a: int, b: int|
                        #[trigger] self.selectable(a, b) && a < x ==> self.spec_entropy(a, b)
                            >= min_e as nat
                    &&& forall|a: int, b: int|
                        #[trigger] self.selectable(a, b) && Self::scanned_before(
                            a,
                            b,
                            min_x as int,
                            min_y as int,
                        ) ==> self.spec_entropy(a, b) > min_e as nat
                },
            decreases size - x,
        {
            let mut y: usize = 0;
            while y < size
                invariant
                    pre == *old(self),
                    *self == pre,
                    self.wf(),
                    size == self.size,
                    x < size,
                    y <= size,
                    min_e == usize::MAX ==> forall|a: int, b: int|
                        self.in_bounds(a, b) && Self::scanned_before(a, b, x as int, y as int)
                            ==> !#[trigger] self.selectable(a, b),
                    min_e < usize::MAX ==> {
                        &&& min_x < size
                        &&& min_y < size
                        &&& Self::scanned_before(min_x as int, min_y as int, x as int, y as int)
                        &&& self.selectable(min_x as int, min_y as int)
                        &&& self.spec_entropy(min_x as int, min_y as int) == min_e as nat
                        &&& forall|a: int, b: int|
                            #[trigger] self.selectable(a, b) && Self::scanned_before(
                                a,
                                b,
                                x as int,
                                y as int,
                            ) ==> self.spec_entropy(a, b) >= min_e as nat
                        &&& forall|a: int, b: int|
                            #[trigger] self.selectable(a, b) && Self::scanned_before(
                                a,
                                b,
                                min_x as int,
                                min_y as int,
                            ) ==> self.spec_entropy(a, b) > min_e as nat
                    },
                decreases size - y,
            {
                let e = self.entropy(x, y);
                if e != 0 && e < min_e {
                    min_x = x;
                    min_y = y;
                    min_e = e;
                }
                y += 1;
            }
            x += 1;
        }
        if min_e != usize::MAX {
            proof {
                assert(self.is_selection(min_x as int, min_y as int));
                assert(self.at(min_x as int, min_y as int).value is None);
                assert(self.at(min_x as int, min_y as int).wf_cell(
                    self.rules@,
                    self.tile_transforms@,
                ));
            }
            let clen = self.cell_ref(min_x, min_y).candidates.len();
            let idx = rand_below(clen);
            let v = self.cell_ref(min_x, min_y).candidates[idx];
            proof {
                assert(pre.at(min_x as int, min_y as int).candidates@[idx as int] == v);
                assert(pre.at(min_x as int, min_y as int).candidates@.contains(v));
            }
            let single: Vec<usize> = vec![v];
            proof {
                assert(single@ =~= seq![v]);
            }
            self.set_cell(min_x, min_y, Cell { value: Some(v), candidates: single });
            proof {
                let ghost gf = *self;
                assert forall|a: int, b: int| gf.in_bounds(a, b) implies (#[trigger] gf.at(
                    a,
                    b,
                )).wf_cell(gf.rules@, gf.tile_transforms@) by {
                    if !(a == min_x && b == min_y) {
                        assert(pre.at(a, b).wf_cell(pre.rules@, pre.tile_transforms@));
                    }
                }
                assert(pre.is_selection(min_x as int, min_y as int));
                assert(gf.resolved_to(min_x as int, min_y as int, v));
                if pre.candidates_consistent() && pre.mutually_compatible() {
                    assert(pre.unchanged_except(*self, min_x as int, min_y as int));
                    lemma_mutual_after_resolve(pre, *self, min_x as int, min_y as int, v);
                }
            }
            return true;
        }
        proof {
            assert forall|a: int, b: int| !#[trigger] self.selectable(a, b) by {
                if self.in_bounds(a, b) {
                }
            }
        }
        false
    }

    /// The run loop: collapse then propagate, repeated until the grid is
    /// fully collapsed or a propagation pass reports a contradiction. No
    /// backtracking: a contradiction ends the run. An N x N grid reaches a
    /// terminal state within at most N * N collapse calls, plus one when the
    /// one-shot initial collapse is still owed to an already-resolved center.
    ///
    /// A contradiction is only ever reported at a cell that entered the run
    /// unresolved. A one-cell grid whose cell still has candidates always
    /// fully collapses after exactly one collapse call, and so does any grid
    /// whose present ids all pass the pixel test against one another. On a
    /// grid whose candidates are consistent with its resolved cells, every
    /// pair of adjacent resolved cells stays mutually compatible: the
    /// later-resolved one passed the pixel test against the earlier.
    pub fn run(&mut self) -> (r: RunReport)
        requires
            old(self).wf(),
            old(self).no_empty_unresolved(),
        ensures
            final(self).wf(),
            final(self).size == old(self).size,
            r.outcome == RunOutcome::FullyCollapsed <==> final(self).spec_fully_collapsed(),
            forall|x: int, y: int|
                old(self).in_bounds(x, y) && old(self).at(x, y).value is Some ==> (
                #[trigger] final(self).at(x, y)).value == old(self).at(x, y).value,
            forall|x: int, y: int, v: usize|
                old(self).in_bounds(x, y) && #[trigger] final(self).at(x, y).candidates@.contains(
                    v,
                ) ==> old(self).at(x, y).candidates@.contains(v),
            r.outcome matches RunOutcome::Contradiction(e) ==> {
                &&& e.x < old(self).size
                &&& e.y < old(self).size
                &&& final(self).at(e.x as int, e.y as int).value is None
                &&& final(self).at(e.x as int, e.y as int).candidates@.len() == 0
            },
            old(self).candidates_consistent() && old(self).mutually_compatible()
                ==> final(self).mutually_compatible(),
            r.outcome matches RunOutcome::Contradiction(e) ==> old(self).at(
                e.x as int,
                e.y as int,
            ).value is None,
            (old(self).size == 1 && old(self).at(0, 0).value is None && old(self).at(
                0,
                0,
            ).candidates@.len() > 0) ==> (r.outcome == RunOutcome::FullyCollapsed
                && r.collapse_calls == 1),
            old(self).universally_compatible() ==> r.outcome == RunOutcome::FullyCollapsed,
            r.collapse_calls as int <= old(self).unresolved_count() + 1,
            (old(self).initial_collapse_done || old(self).size == 0 || old(self).at(
                old(self).center(),
                old(self).center(),
            ).value is None) ==> r.collapse_calls as int <= old(self).unresolved_count(),
    {
        let ghost orig = *old(self);
        let ghost allowance: int = if orig.initial_collapse_done || orig.size == 0 || orig.at(
            orig.center(),
            orig.center(),
        ).value is None {
            0
        } else {
            1
        };
        let mut calls: usize = 0;
        loop
            invariant
                orig == *old(self),
                self.wf(),
                self.no_empty_unresolved(),
                self.size == orig.size,
                self.rules == orig.rules,
                self.tile_transforms == orig.tile_transforms,
                self.cells@.len() == orig.cells@.len(),
                orig.initial_collapse_done ==> self.initial_collapse_done,
                !self.initial_collapse_done ==> *self == orig && calls == 0,
                orig.candidates_consistent() && orig.mutually_compatible() ==> (
                self.candidates_consistent() && self.mutually_compatible()),
                forall|u: usize| #[trigger] self.id_present(u) ==> orig.id_present(u),
                (orig.size == 1 && orig.at(0, 0).value is None && orig.at(0, 0).candidates@.len()
                    > 0) ==> (calls <= 1 && (calls == 0 ==> *self == orig) && (calls == 1
                    ==> self.spec_fully_collapsed())),
                forall|x: int, y: int|
                    orig.in_bounds(x, y) && orig.at(x, y).value is Some ==> (#[trigger] self.at(
                        x,
                        y,
                    )).value == orig.at(x, y).value,
                forall|x: int, y: int, v: usize|
                    orig.in_bounds(x, y) && #[trigger] self.at(x, y).candidates@.contains(v)
                        ==> orig.at(x, y).candidates@.contains(v),
                calls + self.unresolved_count() <= orig.unresolved_count() + (
                if allowance == 1 && self.initial_collapse_done {
                    1int
                } else {
                    0int
                }),
                allowance == (if orig.initial_collapse_done || orig.size == 0 || orig.at(
                    orig.center(),
                    orig.center(),
                ).value is None {
                    0int
                } else {
                    1int
                }),
            decreases
                    (if self.initial_collapse_done {
                        0int
                    } else {
                        1int
                    }),
                    self.unresolved_count(),
        {
            if self.is_fully_collapsed() {
                proof {
                    lemma_count_le(orig.cells@);
                    if orig.size == 1 && orig.at(0, 0).value is None && orig.at(
                        0,
                        0,
                    ).candidates@.len() > 0 && calls == 0 {
                        assert(self.at(0, 0).value is None);
                        assert(false);
                    }
                }
                return RunReport { outcome: RunOutcome::FullyCollapsed, collapse_calls: calls };
            }
            proof {
                let (wx, wy) = choose|wx: int, wy: int|
                    self.in_bounds(wx, wy) && !((#[trigger] self.at(wx, wy)).value is Some);
                assert(self.size >= 1);
                lemma_flat_bounds(self.size as int, wx, wy);
                lemma_count_pos(self.cells@, wx * self.size + wy);
                lemma_count_le(orig.cells@);
            }
            let ghost pre = *self;
            let did = self.collapse();
            proof {
                let c = pre.center();
                let (wx, wy) = choose|wx: int, wy: int|
                    pre.in_bounds(wx, wy) && !((#[trigger] pre.at(wx, wy)).value is Some);
                assert(pre.in_bounds(wx, wy));
                assert(pre.size >= 1);
                assert(pre.in_bounds(c, c));
                assert(pre.at(c, c).wf_cell(pre.rules@, pre.tile_transforms@));
                assert(pre.at(c, c).candidates@.len() > 0);
                if !pre.initial_collapse_done {
                    let v = choose|v: usize|
                        #[trigger] pre.at(c, c).candidates@.contains(v) && self.resolved_to(
                            c,
                            c,
                            v,
                        );
                    assert(self.at(c, c).value is Some);
                    if orig.size == 1 {
                        assert(c == 0);
                        assert(self.at(0, 0).value is Some);
                    }
                    lemma_flat_bounds(pre.size as int, c, c);
                    lemma_count_update(pre.cells@, c * pre.size + c, self.at(c, c));
                    assert forall|a: int, b: int, u: usize|
                        orig.in_bounds(a, b) && #[trigger] self.at(a, b).candidates@.contains(
                            u,
                        ) implies orig.at(a, b).candidates@.contains(u) by {
                        if a == c && b == c {
                            assert(self.at(c, c).candidates@ == seq![v]);
                            assert(u == v);
                            assert(pre.at(c, c).candidates@.contains(v));
                        } else {
                            assert(self.at(a, b) == pre.at(a, b));
                        }
                    }
                    assert forall|a: int, b: int|
                        orig.in_bounds(a, b) && orig.at(a, b).value is Some implies (
                    #[trigger] self.at(a, b)).value == orig.at(a, b).value by {
                        if a == c && b == c {
                            if orig.at(c, c).value is Some {
                                assert(pre.at(c, c).value == orig.at(c, c).value);
                                assert(pre.at(c, c).candidates@ == seq![pre.at(c, c).value->0]);
                                assert(v == pre.at(c, c).value->0);
                            }
                        } else {
                            assert(self.at(a, b) == pre.at(a, b));
                        }
                    }
                    assert forall|u: usize| #[trigger] self.id_present(u) implies orig.id_present(
                        u,
                    ) by {
                        let (px, py) = choose|px: int, py: int|
                            #![trigger self.at(px, py)]
                            self.in_bounds(px, py) && (self.at(px, py).value == Some(u) || self.at(
                                px,
                                py,
                            ).candidates@.contains(u));
                        if px == c && py == c {
                            assert(self.at(c, c).candidates@ == seq![v]);
                            assert(u == v);
                            assert(pre.at(c, c).candidates@.contains(v));
                            assert(pre.id_present(v));
                        } else {
                            assert(self.at(px, py) == pre.at(px, py));
                            assert(pre.in_bounds(px, py) && (pre.at(px, py).value == Some(u)
                                || pre.at(px, py).candidates@.contains(u)));
                            assert(pre.id_present(u));
                        }
                    }
                    assert forall|a: int, b: int|
                        self.in_bounds(a, b) && (#[trigger] self.at(a, b)).value is None implies self
                        .at(a, b).candidates@.len() > 0 by {
                        if !(a == c && b == c) {
                            assert(self.at(a, b) == pre.at(a, b));
                        }
                    }
                    assert(self.no_empty_unresolved());
                } else {
                    assert(pre.at(wx, wy).wf_cell(pre.rules@, pre.tile_transforms@));
                    assert(pre.at(wx, wy).candidates@.len() > 0);
                    assert(pre.at(wx, wy).candidates@.len() < usize::MAX);
                    assert(pre.selectable(wx, wy));
                    assert(pre.has_selectable());
                    let (sx, sy) = choose|sx: int, sy: int|
                        {
                            &&& #[trigger] pre.is_selection(sx, sy)
                            &&& pre.unchanged_except(*self, sx, sy)
                            &&& exists|v: usize|
                                #[trigger] pre.at(sx, sy).candidates@.contains(v) && self
                                    .resolved_to(sx, sy, v)
                        };
                    let v = choose|v: usize|
                        #[trigger] pre.at(sx, sy).candidates@.contains(v) && self.resolved_to(
                            sx,
                            sy,
                            v,
                        );
                    assert(self.at(sx, sy).value is Some);
                    if orig.size == 1 {
                        assert(sx == 0 && sy == 0);
                        assert(self.at(0, 0).value is Some);
                    }
                    assert(pre.selectable(sx, sy));
                    if pre.at(sx, sy).value is Some {
                        assert(false);
                    }
                    lemma_flat_bounds(pre.size as int, sx, sy);
                    lemma_count_update(pre.cells@, sx * pre.size + sy, self.at(sx, sy));
                    assert forall|a: int, b: int, u: usize|
                        orig.in_bounds(a, b) && #[trigger] self.at(a, b).candidates@.contains(
                            u,
                        ) implies orig.at(a, b).candidates@.contains(u) by {
                        if a == sx && b == sy {
                            assert(self.at(sx, sy).candidates@ == seq![v]);
                            assert(u == v);
                            assert(pre.at(sx, sy).candidates@.contains(v));
                        } else {
                            assert(self.at(a, b) == pre.at(a, b));
                        }
                    }
                    assert forall|a: int, b: int|
                        orig.in_bounds(a, b) && orig.at(a, b).value is Some implies (
                    #[trigger] self.at(a, b)).value == orig.at(a, b).value by {
                        if a == sx && b == sy {
                            assert(pre.at(sx, sy).value is None);
                            assert(!(orig.at(sx, sy).value is Some));
                        } else {
                            assert(self.at(a, b) == pre.at(a, b));
                        }
                    }
                    assert forall|u: usize| #[trigger] self.id_present(u) implies orig.id_present(
                        u,
                    ) by {
                        let (px, py) = choose|px: int, py: int|
                            #![trigger self.at(px, py)]
                            self.in_bounds(px, py) && (self.at(px, py).value == Some(u) || self.at(
                                px,
                                py,
                            ).candidates@.contains(u));
                        if px == sx && py == sy {
                            assert(self.at(sx, sy).candidates@ == seq![v]);
                            assert(u == v);
                            assert(pre.at(sx, sy).candidates@.contains(v));
                            assert(pre.id_present(v));
                        } else {
                            assert(self.at(px, py) == pre.at(px, py));
                            assert(pre.in_bounds(px, py) && (pre.at(px, py).value == Some(u)
                                || pre.at(px, py).candidates@.contains(u)));
                            assert(pre.id_present(u));
                        }
                    }
                    assert forall|a: int, b: int|
                        self.in_bounds(a, b) && (#[trigger] self.at(a, b)).value is None implies self
                        .at(a, b).candidates@.len() > 0 by {
                        if !(a == sx && b == sy) {
                            assert(self.at(a, b) == pre.at(a, b));
                        }
                    }
                    assert(self.no_empty_unresolved());
                }
                if orig.candidates_consistent() && orig.mutually_compatible() {
                    assert(pre.candidates_consistent() && pre.mutually_compatible());
                    assert(self.mutually_compatible());
                }
                if orig.size == 1 && orig.at(0, 0).value is None && orig.at(
                    0,
                    0,
                ).candidates@.len() > 0 {
                    assert forall|a: int, b: int| self.in_bounds(a, b) implies (
                    #[trigger] self.at(a, b)).value is Some by {
                        assert(a == 0 && b == 0);
                    }
                    assert(self.spec_fully_collapsed());
                }
            }
            calls += 1;
            let ghost mid = *self;
            let res = self.propagate();
            proof {
                assert forall|j: int| 0 <= j < mid.cells@.len() implies (#[trigger] mid.cells@[j]).value
                    == self.cells@[j].value by {
                    lemma_flat_coords(mid.size as int, j);
                    let a = j / (mid.size as int);
                    let b = j % (mid.size as int);
                    assert(mid.at(a, b).value == self.at(a, b).value);
                    assert(mid.at(a, b) == mid.cells@[j]);
                    assert(self.at(a, b) == self.cells@[j]);
                }
                lemma_count_pointwise(mid.cells@, self.cells@);
                assert forall|a: int, b: int, u: usize|
                    orig.in_bounds(a, b) && #[trigger] self.at(a, b).candidates@.contains(
                        u,
                    ) implies orig.at(a, b).candidates@.contains(u) by {
                    assert(mid.at(a, b).candidates@.contains(u));
                }
                assert forall|a: int, b: int|
                    orig.in_bounds(a, b) && orig.at(a, b).value is Some implies (#[trigger] self.at(
                    a,
                    b,
                )).value == orig.at(a, b).value by {
                    assert(self.at(a, b).value == mid.at(a, b).value);
                }
                assert forall|u: usize| #[trigger] self.id_present(u) implies orig.id_present(
                    u,
                ) by {
                    let (px, py) = choose|px: int, py: int|
                        #![trigger self.at(px, py)]
                        self.in_bounds(px, py) && (self.at(px, py).value == Some(u) || self.at(
                            px,
                            py,
                        ).candidates@.contains(u));
                    if self.at(px, py).value == Some(u) {
                        assert(mid.at(px, py).value == Some(u));
                    } else {
                        assert(self.at(px, py).candidates@.contains(u));
                        assert(mid.at(px, py).candidates@.contains(u));
                    }
                    assert(mid.in_bounds(px, py) && (mid.at(px, py).value == Some(u) || mid.at(
                        px,
                        py,
                    ).candidates@.contains(u)));
                    assert(mid.id_present(u));
                }
                if orig.candidates_consistent() && orig.mutually_compatible() {
                    assert(mid.mutually_compatible());
                    assert(self.mutually_compatible());
                }
                if orig.size == 1 && orig.at(0, 0).value is None && orig.at(
                    0,
                    0,
                ).candidates@.len() > 0 {
                    assert forall|a: int, b: int| self.in_bounds(a, b) implies (
                    #[trigger] self.at(a, b)).value is Some by {
                        assert(self.at(a, b).value == mid.at(a, b).value);
                    }
                    assert(self.spec_fully_collapsed());
                }
            }
            match res {
                Err(e) => {
                    proof {
                        assert(self.in_bounds(e.x as int, e.y as int) && self.at(
                            e.x as int,
                            e.y as int,
                        ).value is None);
                        assert(!self.spec_fully_collapsed());
                        if orig.at(e.x as int, e.y as int).value is Some {
                            assert(self.at(e.x as int, e.y as int).value == orig.at(
                                e.x as int,
                                e.y as int,
                            ).value);
                            assert(false);
                        }
                        if orig.universally_compatible() {
                            let ex = e.x as int;
                            let ey = e.y as int;
                            assert(self.at(ex, ey).value == mid.at(ex, ey).value);
                            assert(mid.at(ex, ey).value is None);
                            assert(mid.at(ex, ey).candidates@.len() > 0);
                            let w = mid.at(ex, ey).candidates@[0];
                            assert(mid.at(ex, ey).candidates@.contains(w));
                            assert(mid.id_present(w));
                            assert(!mid.keeps(ex, ey, w));
                            lemma_universal_keeps(orig, mid, ex, ey, w);
                            assert(false);
                        }
                    }
                    return RunReport {
                        outcome: RunOutcome::Contradiction(e),
                        collapse_calls: calls,
                    };
                },
                Ok(()) => {},
            }
        }
    }
}

/// The ids of the catalog tiles, in catalog order: the full candidate set a
/// fresh cell starts with.
pub open spec fn catalog_ids(tiles: Seq<Tile>) -> Seq<usize> {
    tiles.map_values(|t: Tile| t.id)
}

/// Every catalog id has a ruleset row and a transform set.
pub open spec fn covers(
    rules: Map<usize, Vec<usize>>,
    transforms: Map<usize, Vec<Vec<Vec<i32>>>>,
    ids: Seq<usize>,
) -> bool {
    forall|k: int|
        0 <= k < ids.len() ==> rules.contains_key(#[trigger] ids[k]) && transforms.contains_key(
            ids[k],
        )
}

/// Checks that every catalog tile id has both a ruleset row and a cached
/// transform set, the condition under which a fresh grid is well-formed.
pub fn catalog_covered(
    tiles: &Vec<Tile>,
    rules: &HashMap<usize, Vec<usize>>,
    transforms: &HashMap<usize, Vec<Vec<Vec<i32>>>>,
) -> (b: bool)
    ensures
        b == covers(rules@, transforms@, catalog_ids(tiles@)),
{
    let n = tiles.len();
    let mut i: usize = 0;
    while i < n
        invariant
            n == tiles@.len(),
            i <= n,
            forall|k: int|
                0 <= k < i ==> rules@.contains_key(#[trigger] catalog_ids(tiles@)[k])
                    && transforms@.contains_key(catalog_ids(tiles@)[k]),
        decreases n - i,
    {
        let id = tiles[i].id;
        proof {
            assert(catalog_ids(tiles@)[i as int] == id);
        }
        if !rules.contains_key(&id) || !transforms.contains_key(&id) {
            return false;
        }
        i += 1;
    }
    true
}

fn copy_ids(ids: &Vec<usize>) -> (r: Vec<usize>)
    ensures
        r@ == ids@,
{
    let n = ids.len();
    let mut out: Vec<usize> = Vec::new();
    let mut i: usize = 0;
    while i < n
        invariant
            n == ids@.len(),
            i <= n,
            out@ == ids@.take(i as int),
        decreases n - i,
    {
        out.push(ids[i]);
        proof {
            assert(out@ =~= ids@.take(i + 1));
        }
        i += 1;
    }
    proof {
        assert(ids@.take(n as int) =~= ids@);
    }
    out
}

impl Grid {
    /// Builds a fresh grid: every cell unresolved with the full candidate set
    /// (the catalog ids in catalog order), the initial-collapse flag clear.
    /// Fails exactly when the tile catalog is empty. The grid is well-formed
    /// whenever every catalog id has a ruleset row and a transform set.
    pub fn new(
        size: usize,
        tiles: Vec<Tile>,
        rules: HashMap<usize, Vec<usize>>,
        tile_transforms: HashMap<usize, Vec<Vec<Vec<i32>>>>,
    ) -> (r: Result<Grid, GridConstructionError>)
        requires
            size * size < usize::MAX,
            tiles@.len() < usize::MAX,
        ensures
            r is Err <==> tiles@.len() == 0,
            r is Err ==> r == Result::<Grid, GridConstructionError>::Err(
                GridConstructionError::EmptyCatalog,
            ),
            r matches Ok(g) ==> {
                &&& g.size == size
                &&& g.rules == rules
                &&& g.tile_transforms == tile_transforms
                &&& !g.initial_collapse_done
                &&& g.wf_dims()
                &&& forall|x: int, y: int|
                    g.in_bounds(x, y) ==> (#[trigger] g.at(x, y)).value is None && g.at(
                        x,
                        y,
                    ).candidates@ == catalog_ids(tiles@)
                &&& (covers(rules@, tile_transforms@, catalog_ids(tiles@)) ==> g.wf())
                &&& (covers(rules@, tile_transforms@, catalog_ids(tiles@))
                    ==> g.no_empty_unresolved())
                &&& g.candidates_consistent()
                &&& g.mutually_compatible()
            },
    {
        if tiles.len() == 0 {
            return Err(GridConstructionError::EmptyCatalog);
        }
        let n = tiles.len();
        let mut ids: Vec<usize> = Vec::new();
        let mut i: usize = 0;
        while i < n
            invariant
                n == tiles@.len(),
                i <= n,
                ids@ == catalog_ids(tiles@).take(i as int),
            decreases n - i,
        {
            ids.push(tiles[i].id);
            proof {
                assert(ids@ =~= catalog_ids(tiles@).take(i + 1));
            }
            i += 1;
        }
        proof {
            assert(catalog_ids(tiles@).take(n as int) =~= catalog_ids(tiles@));
        }
        let total = size * size;
        let mut cells: Vec<Cell> = Vec::new();
        let mut k: usize = 0;
        while k < total
            invariant
                total == size * size,
                total < usize::MAX,
                k <= total,
                ids@ == catalog_ids(tiles@),
                cells@.len() == k,
                forall|j: int|
                    0 <= j < k ==> (#[trigger] cells@[j]).value is None && cells@[j].candidates@
                        == catalog_ids(tiles@),
            decreases total - k,
        {
            let candidates = copy_ids(&ids);
            cells.push(Cell { value: None, candidates });
            k += 1;
        }
        let g = Grid { size, cells, rules, tile_transforms, initial_collapse_done: false };
        proof {
            assert forall|x: int, y: int| g.in_bounds(x, y) implies (#[trigger] g.at(x, y)).value
                is None && g.at(x, y).candidates@ == catalog_ids(tiles@) by {
                lemma_flat_bounds(g.size as int, x, y);
            }
            // nothing is resolved yet, so nothing constrains anything
            assert forall|x: int, y: int, k: int|
                g.in_bounds(x, y) && g.at(x, y).value is None && 0 <= k < g.at(
                    x,
                    y,
                ).candidates@.len() implies g.keeps(x, y, #[trigger] g.at(x, y).candidates@[k]) by {
                if g.in_bounds(x - 1, y) {
                    assert(g.at(x - 1, y).value is None);
                }
                if g.in_bounds(x + 1, y) {
                    assert(g.at(x + 1, y).value is None);
                }
                if g.in_bounds(x, y - 1) {
                    assert(g.at(x, y - 1).value is None);
                }
                if g.in_bounds(x, y + 1) {
                    assert(g.at(x, y + 1).value is None);
                }
            }
            assert forall|x: int, y: int, nx: int, ny: int|
                #![trigger g.at(x, y), g.at(nx, ny)]
                g.in_bounds(x, y) && g.in_bounds(nx, ny) && Grid::cardinal_adjacent(x, y, nx, ny)
                    && g.at(x, y).value is Some && g.at(nx, ny).value is Some implies g
                .neighbor_allows(nx, ny, g.at(x, y).value->0) || g.neighbor_allows(
                x,
                y,
                g.at(nx, ny).value->0,
            ) by {
                assert(g.at(x, y).value is None);
            }
        }
        Ok(g)
    }
}

} // verus!
