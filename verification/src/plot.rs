//! The plot: a grid of square subplots, each with a value multiplier, and
//! the placement rules for rectangular footprints on it.

use vstd::prelude::*;
use crate::rng::{random_index, random_u8_up_to};
use crate::chromosome::Chromosome;
use crate::gene::Gene;

verus! {

/// A plot of `subplot_grid.0 x subplot_grid.1` square subplots of side
/// `subplot_size`; `multipliers` holds one multiplier per subplot, row by row.
/// A subplot with multiplier 0 is not buildable.
pub struct Plot {
    pub subplot_size: u8,
    pub subplot_grid: (u8, u8),
    pub multipliers: Vec<u8>,
    pub width: u8,
    pub height: u8,
}

impl Clone for Plot {
    fn clone(&self) -> (r: Self)
        ensures
            r.subplot_size == self.subplot_size,
            r.subplot_grid == self.subplot_grid,
            r.multipliers@ == self.multipliers@,
            r.width == self.width,
            r.height == self.height,
    {
        let multipliers = self.multipliers.clone();
        proof {
            assert(multipliers@ =~= self.multipliers@);
        }
        Plot {
            subplot_size: self.subplot_size,
            subplot_grid: self.subplot_grid,
            multipliers,
            width: self.width,
            height: self.height,
        }
    }
}

/// Number of cells of the rectangle with corner `(x, y)`, `w` columns and
/// `h` rows that satisfy `p`, counted column by column.
pub open spec fn rect_count(x: int, y: int, w: int, h: int, p: spec_fn(int, int) -> bool) -> nat
    decreases w,
{
    if w <= 0 {
        0
    } else {
        rect_count(x, y, w - 1, h, p) + column_count(x + w - 1, y, h, p)
    }
}

/// Number of cells `(cx, y + j)`, `0 <= j < h`, that satisfy `p`.
pub open spec fn column_count(cx: int, y: int, h: int, p: spec_fn(int, int) -> bool) -> nat
    decreases h,
{
    if h <= 0 {
        0
    } else {
        column_count(cx, y, h - 1, p) + if p(cx, y + h - 1) { 1nat } else { 0nat }
    }
}

/// Largest value of `f` over the cells of a rectangle, and 0 if none is larger.
pub open spec fn rect_max(x: int, y: int, w: int, h: int, f: spec_fn(int, int) -> int) -> int
    decreases w,
{
    if w <= 0 {
        0
    } else {
        let a = rect_max(x, y, w - 1, h, f);
        let b = column_max(x + w - 1, y, h, f);
        if a >= b { a } else { b }
    }
}

/// Largest value of `f` over the cells `(cx, y + j)`, `0 <= j < h`, and 0 if none is larger.
pub open spec fn column_max(cx: int, y: int, h: int, f: spec_fn(int, int) -> int) -> int
    decreases h,
{
    if h <= 0 {
        0
    } else {
        let a = column_max(cx, y, h - 1, f);
        let b = f(cx, y + h - 1);
        if a >= b { a } else { b }
    }
}

/// Order in which positions are listed: row by row, then column by column.
pub open spec fn position_key(p: (u8, u8)) -> int {
    p.1 * 256 + p.0
}

impl Plot {
    /// The plot's dimensions agree with its subplot grid, and, when it has
    /// cells, every subplot has a multiplier. (A subplot size of 0 gives a
    /// plot without cells, whose multipliers are never read.)
    pub open spec fn wf(&self) -> bool {
        &&& self.width == self.subplot_size * self.subplot_grid.0
        &&& self.height == self.subplot_size * self.subplot_grid.1
        &&& self.width > 0 && self.height > 0
            ==> self.multipliers@.len() >= self.subplot_grid.0 * self.subplot_grid.1
    }

    pub open spec fn cell_count(&self) -> int {
        self.width * self.height
    }

    pub open spec fn in_plot(&self, cx: int, cy: int) -> bool {
        0 <= cx < self.width && 0 <= cy < self.height
    }

    /// Index of the subplot that holds cell `(cx, cy)`.
    pub open spec fn subplot_index(&self, cx: int, cy: int) -> int {
        (cy / self.subplot_size as int) * self.subplot_grid.0 + cx / self.subplot_size as int
    }

    /// Multiplier of the subplot that holds cell `(cx, cy)`.
    pub open spec fn multiplier_at(&self, cx: int, cy: int) -> int {
        self.multipliers@[self.subplot_index(cx, cy)] as int
    }

    /// The cell lies on the plot, in a buildable subplot.
    pub open spec fn usable(&self, cx: int, cy: int) -> bool {
        self.in_plot(cx, cy) && self.multiplier_at(cx, cy) != 0
    }

    /// Index of cell `(cx, cy)` in a row-major occupancy grid.
    pub open spec fn cell_index(&self, cx: int, cy: int) -> int {
        cy * self.width + cx
    }

    /// Every cell of the rectangle is usable.
    pub open spec fn rect_usable(&self, x: int, y: int, w: int, h: int) -> bool {
        forall|cx: int, cy: int|
            x <= cx < x + w && y <= cy < y + h ==> #[trigger] self.usable(cx, cy)
    }

    /// A footprint of `w x h` with corner `(x, y)` lies on the plot and only
    /// on buildable subplots.
    pub open spec fn legal_spot(&self, x: int, y: int, w: int, h: int) -> bool {
        &&& 0 <= x && x + w <= self.width
        &&& 0 <= y && y + h <= self.height
        &&& self.rect_usable(x, y, w, h)
    }

    /// Cell `(cx, cy)` is buildable and not yet taken in `occ`.
    pub open spec fn cell_free(&self, occ: Seq<bool>, cx: int, cy: int) -> bool {
        self.multiplier_at(cx, cy) != 0 && !occ[self.cell_index(cx, cy)]
    }

    /// A footprint of `w x h` with corner `(x, y)` lies on the plot, only on
    /// buildable subplots, and on no cell taken in `occ`.
    pub open spec fn clean_fit(&self, x: int, y: int, w: int, h: int, occ: Seq<bool>) -> bool {
        &&& x + w <= self.width
        &&& y + h <= self.height
        &&& forall|cx: int, cy: int|
            x <= cx < x + w && y <= cy < y + h ==> #[trigger] self.cell_free(occ, cx, cy)
    }

    /// A `w x h` footprint fits cleanly at every corner that keeps it within
    /// the plot's bounds, so any random draw of a corner finds a spot.
    pub open spec fn fits_everywhere(&self, w: int, h: int, occ: Seq<bool>) -> bool {
        forall|x: int, y: int| 0 <= x <= self.width - w && 0 <= y <= self.height - h
            ==> #[trigger] self.clean_fit(x, y, w, h, occ)
    }

    /// Grid index of cell `(x + i, y + j)`, as marking computes it.
    pub open spec fn rect_index(&self, x: int, y: int, i: int, j: int) -> int {
        (y + j) * self.width + (x + i)
    }

    /// Grid index `k` is one that marking the `w x h` rectangle at `(x, y)` sets.
    pub open spec fn rect_hits(&self, k: int, x: int, y: int, w: int, h: int) -> bool {
        exists|i: int, j: int|
            0 <= i < w && 0 <= j < h && k == #[trigger] self.rect_index(x, y, i, j)
    }

    /// `occ` after marking the `w x h` rectangle at `(x, y)` as taken.
    pub open spec fn mark_rect(&self, occ: Seq<bool>, x: int, y: int, w: int, h: int) -> Seq<bool> {
        Seq::new(occ.len(), |k: int| occ[k] || self.rect_hits(k, x, y, w, h))
    }

    pub fn new(subplot_size: u8, subplot_grid: (u8, u8), multipliers: Vec<u8>) -> (p: Self)
        requires
            subplot_size * subplot_grid.0 <= u8::MAX,
            subplot_size * subplot_grid.1 <= u8::MAX,
        ensures
            p.subplot_size == subplot_size,
            p.subplot_grid == subplot_grid,
            p.multipliers@ == multipliers@,
            p.width == subplot_size * subplot_grid.0,
            p.height == subplot_size * subplot_grid.1,
    {
        Plot {
            subplot_size,
            subplot_grid,
            multipliers,
            width: subplot_size * subplot_grid.0,
            height: subplot_size * subplot_grid.1,
        }
    }

    /// Whether the plot's dimensions agree with its subplot grid and every
    /// subplot has a multiplier.
    pub fn is_well_formed(&self) -> (r: bool)
        ensures
            r == self.wf(),
    {
        let s = self.subplot_size as u32;
        let g0 = self.subplot_grid.0 as u32;
        let g1 = self.subplot_grid.1 as u32;
        assert(s * g0 <= 255 * 255 && s * g1 <= 255 * 255 && g0 * g1 <= 255 * 255) by (nonlinear_arith)
            requires s <= 255, g0 <= 255, g1 <= 255;
        self.width as u32 == s * g0
            && self.height as u32 == s * g1
            && (self.width == 0 || self.height == 0 || self.multipliers.len() >= (g0 * g1) as usize)
    }

    /// Multiplier of the subplot that holds an on-plot cell.
    pub fn multiplier_of(&self, cx: u32, cy: u32) -> (m: u8)
        requires
            self.wf(),
            self.in_plot(cx as int, cy as int),
        ensures
            m == self.multiplier_at(cx as int, cy as int),
    {
        proof {
            assert(self.subplot_size > 0) by (nonlinear_arith)
                requires
                    0 <= cx < self.width,
                    self.width == self.subplot_size * self.subplot_grid.0,
                    self.subplot_size >= 0;
            lemma_subplot_index_bounds(
                self.subplot_size as int,
                self.subplot_grid.0 as int,
                self.subplot_grid.1 as int,
                cx as int,
                cy as int,
            );
        }
        let s = self.subplot_size as u32;
        let g0 = self.subplot_grid.0 as u32;
        let sx = cx / s;
        let sy = cy / s;
        let idx = (sy * g0 + sx) as usize;
        self.multipliers[idx]
    }

    /// Grid index `k` is set by the first `j` rows of column `i` when marking
    /// the rectangle at `(x, y)`.
    pub open spec fn column_hits(&self, k: int, x: int, y: int, i: int, j: int) -> bool {
        exists|b: int| 0 <= b < j && k == #[trigger] self.rect_index(x, y, i, b)
    }

    /// Whether a `w x h` footprint with corner `(x, y)` lies on the plot, only
    /// on buildable subplots, and on no cell taken in `occupied`.
    pub fn fits_cleanly(&self, x: u8, y: u8, w: u8, h: u8, occupied: &[bool]) -> (r: bool)
        requires
            self.wf(),
            occupied@.len() >= self.cell_count(),
        ensures
            r == self.clean_fit(x as int, y as int, w as int, h as int, occupied@),
    {
        let x0 = x as u32;
        let y0 = y as u32;
        let w0 = w as u32;
        let h0 = h as u32;
        let width = self.width as u32;
        if x0 + w0 > width || y0 + h0 > self.height as u32 {
            return false;
        }
        let mut i: u32 = 0;
        while i < w0
            invariant
                self.wf(),
                occupied@.len() >= self.cell_count(),
                width == self.width,
                x0 + w0 <= self.width,
                x0 == x, y0 == y, w0 == w, h0 == h,
                y0 + h0 <= self.height,
                0 <= i <= w0,
                forall|cx: int, cy: int|
                    x0 <= cx < x0 + i && y0 <= cy < y0 + h0 ==> #[trigger] self.cell_free(occupied@, cx, cy),
            decreases w0 - i,
        {
            let mut j: u32 = 0;
            while j < h0
                invariant
                    self.wf(),
                    occupied@.len() >= self.cell_count(),
                    width == self.width,
                    x0 + w0 <= self.width,
                    x0 == x, y0 == y, w0 == w, h0 == h,
                    y0 + h0 <= self.height,
                    0 <= i < w0,
                    0 <= j <= h0,
                    forall|cx: int, cy: int|
                        (x0 <= cx < x0 + i && y0 <= cy < y0 + h0) || (cx == x0 + i && y0 <= cy < y0 + j)
                            ==> #[trigger] self.cell_free(occupied@, cx, cy),
                decreases h0 - j,
            {
                let cx = x0 + i;
                let cy = y0 + j;
                if self.multiplier_of(cx, cy) == 0 {
                    assert(!self.cell_free(occupied@, cx as int, cy as int));
                    assert(x0 <= cx < x0 + w0 && y0 <= cy < y0 + h0);
                    assert(!self.clean_fit(x0 as int, y0 as int, w0 as int, h0 as int, occupied@));
                    return false;
                }
                proof {
                    lemma_cell_index_bounds(self.width as int, self.height as int, cx as int, cy as int);
                }
                let idx = cy * width + cx;
                assert(idx as int == self.cell_index(cx as int, cy as int));
                if occupied[idx as usize] {
                    assert(!self.cell_free(occupied@, cx as int, cy as int));
                    return false;
                }
                j += 1;
            }
            i += 1;
        }
        true
    }

    /// Whether every cell of the `w x h` rectangle at `(x, y)` lies on the
    /// plot in a buildable subplot. A rectangle without cells (`w <= 0` or
    /// `h <= 0`) is legal wherever it is.
    fn is_legal(&self, x: i32, y: i32, w: i32, h: i32) -> (r: bool)
        requires
            self.wf(),
            w <= 0 || h <= 0 || (x + w - 1 <= i32::MAX && y + h - 1 <= i32::MAX),
        ensures
            r == self.rect_usable(x as int, y as int, w as int, h as int),
    {
        let width = self.width as i32;
        let height = self.height as i32;
        let mut i: i32 = 0;
        while i < w
            invariant
                self.wf(),
                width == self.width,
                height == self.height,
                w <= 0 || h <= 0 || (x + w - 1 <= i32::MAX && y + h - 1 <= i32::MAX),
                0 <= i,
                i <= w || w <= 0,
                forall|cx: int, cy: int|
                    x <= cx < x + i && y <= cy < y + h ==> #[trigger] self.usable(cx, cy),
            decreases w - i,
        {
            let mut j: i32 = 0;
            while j < h
                invariant
                    self.wf(),
                    width == self.width,
                    height == self.height,
                    w <= 0 || h <= 0 || (x + w - 1 <= i32::MAX && y + h - 1 <= i32::MAX),
                    0 <= i < w,
                    0 <= j,
                    j <= h || h <= 0,
                    forall|cx: int, cy: int|
                        (x <= cx < x + i && y <= cy < y + h) || (cx == x + i && y <= cy < y + j)
                            ==> #[trigger] self.usable(cx, cy),
                decreases h - j,
            {
                let cx = x + i;
                let cy = y + j;
                if cx < 0 || cy < 0 || cx >= width || cy >= height {
                    assert(!self.usable(cx as int, cy as int));
                    return false;
                }
                if self.multiplier_of(cx as u32, cy as u32) == 0 {
                    assert(!self.usable(cx as int, cy as int));
                    return false;
                }
                j += 1;
            }
            i += 1;
        }
        true
    }

    /// All corners at which a `w x h` footprint is legal, row by row and,
    /// within a row, from left to right.
    pub fn legal_positions(&self, w: u8, h: u8) -> (r: Vec<(u8, u8)>)
        requires
            self.wf(),
        ensures
            forall|k: int| 0 <= k < r.len() ==> self.legal_spot(r[k].0 as int, r[k].1 as int, w as int, h as int),
            forall|a: int, b: int| 0 <= a < b < r.len() ==> position_key(r[a]) < position_key(r[b]),
            forall|x: int, y: int| #[trigger] self.legal_spot(x, y, w as int, h as int)
                ==> r@.contains((x as u8, y as u8)),
    {
        let w = w as u32;
        let h = h as u32;
        let width = self.width as u32;
        let height = self.height as u32;
        let mut out: Vec<(u8, u8)> = Vec::new();
        let mut y: u32 = 0;
        while y + h <= height
            invariant
                self.wf(),
                width == self.width,
                height == self.height,
                w <= 255,
                h <= 255,
                y == 0 || y + h <= height + 1,
                forall|k: int| 0 <= k < out.len() ==> self.legal_spot(out[k].0 as int, out[k].1 as int, w as int, h as int),
                forall|a: int, b: int| 0 <= a < b < out.len() ==> position_key(out[a]) < position_key(out[b]),
                forall|k: int| 0 <= k < out.len() ==> position_key(out[k]) < y * 256,
                forall|xx: int, yy: int| #[trigger] self.legal_spot(xx, yy, w as int, h as int) && yy < y
                    ==> out@.contains((xx as u8, yy as u8)),
            decreases height + 1 - y,
        {
            let mut x: u32 = 0;
            while x + w <= width
                invariant
                    self.wf(),
                    width == self.width,
                    height == self.height,
                    w <= 255,
                    h <= 255,
                    y + h <= height,
                    x == 0 || x + w <= width + 1,
                    forall|k: int| 0 <= k < out.len() ==> self.legal_spot(out[k].0 as int, out[k].1 as int, w as int, h as int),
                    forall|a: int, b: int| 0 <= a < b < out.len() ==> position_key(out[a]) < position_key(out[b]),
                    forall|k: int| 0 <= k < out.len() ==> position_key(out[k]) < y * 256 + x,
                    forall|xx: int, yy: int| #[trigger] self.legal_spot(xx, yy, w as int, h as int) && (yy < y || (yy == y && xx < x))
                        ==> out@.contains((xx as u8, yy as u8)),
                decreases width + 1 - x,
            {
                if self.is_legal(x as i32, y as i32, w as i32, h as i32) {
                    let ghost prev = out@;
                    out.push((x as u8, y as u8));
                    proof {
                        assert forall|xx: int, yy: int| #[trigger] self.legal_spot(xx, yy, w as int, h as int) && (yy < y || (yy == y && xx < x + 1))
                            implies out@.contains((xx as u8, yy as u8)) by {
                            if yy == y && xx == x {
                                assert(out@[out@.len() - 1] == (xx as u8, yy as u8));
                            } else {
                                assert(prev.contains((xx as u8, yy as u8)));
                                let k = choose|k: int| 0 <= k < prev.len() && prev[k] == (xx as u8, yy as u8);
                                assert(out@[k] == (xx as u8, yy as u8));
                            }
                        }
                    }
                } else {
                    assert(!self.legal_spot(x as int, y as int, w as int, h as int));
                }
                x += 1;
            }
            proof {
                assert forall|xx: int, yy: int| #[trigger] self.legal_spot(xx, yy, w as int, h as int) && yy < y + 1
                    implies out@.contains((xx as u8, yy as u8)) by {
                    if yy == y {
                        assert(xx < x);
                    }
                }
            }
            y += 1;
        }
        proof {
            assert forall|xx: int, yy: int| #[trigger] self.legal_spot(xx, yy, w as int, h as int)
                implies out@.contains((xx as u8, yy as u8)) by {
                assert(yy < y);
            }
        }
        out
    }

    /// A corner at which a `w x h` footprint is legal, drawn at random among
    /// all such corners; `(0, 0)` when there is none.
    pub fn random_legal_position(&self, rng: &mut rand::rngs::StdRng, w: u8, h: u8) -> (r: (u8, u8))
        requires
            self.wf(),
        ensures
            (exists|x: int, y: int| self.legal_spot(x, y, w as int, h as int))
                ==> self.legal_spot(r.0 as int, r.1 as int, w as int, h as int),
            !(exists|x: int, y: int| self.legal_spot(x, y, w as int, h as int)) ==> r == (0u8, 0u8),
            !(exists|x: int, y: int| self.legal_spot(x, y, w as int, h as int)) ==> *final(rng) == *old(rng),
    {
        let candidates = self.legal_positions(w, h);
        if candidates.len() == 0 {
            proof {
                assert forall|x: int, y: int| !self.legal_spot(x, y, w as int, h as int) by {
                    if self.legal_spot(x, y, w as int, h as int) {
                        assert(candidates@.contains((x as u8, y as u8)));
                    }
                }
            }
            return (0, 0);
        }
        let k = random_index(rng, candidates.len());
        candidates[k]
    }

    /// Up to `tries` random corners for a `w x h` footprint; the first one at
    /// which it fits cleanly, or `None`. Which corners are drawn is up to the
    /// generator; when the footprint fits cleanly at every corner in range,
    /// the first draw succeeds.
    pub fn find_legal_position(
        &self,
        rng: &mut rand::rngs::StdRng,
        w: u8,
        h: u8,
        occupied: &[bool],
        tries: usize,
    ) -> (r: Option<(u8, u8)>)
        requires
            self.wf(),
            tries > 0 ==> w <= self.width && h <= self.height,
            occupied@.len() >= self.cell_count(),
        ensures
            r matches Some(p) ==> self.clean_fit(p.0 as int, p.1 as int, w as int, h as int, occupied@),
            tries == 0 ==> r is None && *final(rng) == *old(rng),
            tries > 0 && self.fits_everywhere(w as int, h as int, occupied@) ==> r is Some,
    {
        if tries == 0 {
            return None;
        }
        let mut t: usize = 0;
        while t < tries
            invariant
                self.wf(),
                tries > 0 ==> w <= self.width && h <= self.height,
                occupied@.len() >= self.cell_count(),
                self.fits_everywhere(w as int, h as int, occupied@) ==> t == 0,
            decreases tries - t,
        {
            let x = random_u8_up_to(rng, self.width - w);
            let y = random_u8_up_to(rng, self.height - h);
            if self.fits_cleanly(x, y, w, h, occupied) {
                return Some((x, y));
            }
            assert(!self.fits_everywhere(w as int, h as int, occupied@));
            t += 1;
        }
        None
    }

    /// Marks every cell of the `w x h` rectangle at `(x, y)` as taken.
    pub fn mark_occupied(&self, x: u8, y: u8, w: u8, h: u8, occupied: &mut [bool])
        requires
            w == 0 || h == 0 || self.rect_index(x as int, y as int, w - 1, h - 1) < old(occupied)@.len(),
        ensures
            final(occupied)@ == self.mark_rect(old(occupied)@, x as int, y as int, w as int, h as int),
    {
        let ghost orig = occupied@;
        let len = occupied.len();
        let width = self.width as usize;
        let mut i: usize = 0;
        while i < w as usize
            invariant
                orig == old(occupied)@,
                occupied@.len() == orig.len(),
                len == orig.len(),
                width == self.width,
                w == 0 || h == 0 || self.rect_index(x as int, y as int, w - 1, h - 1) < orig.len(),
                0 <= i <= w,
                occupied@ == Seq::new(orig.len(), |k: int| orig[k] || self.rect_hits(k, x as int, y as int, i as int, h as int)),
            decreases w - i,
        {
            let mut j: usize = 0;
            while j < h as usize
                invariant
                    orig == old(occupied)@,
                    occupied@.len() == orig.len(),
                    len == orig.len(),
                    width == self.width,
                    w == 0 || h == 0 || self.rect_index(x as int, y as int, w - 1, h - 1) < orig.len(),
                    0 <= i < w,
                    0 <= j <= h,
                    occupied@ == Seq::new(orig.len(), |k: int| orig[k]
                        || self.rect_hits(k, x as int, y as int, i as int, h as int)
                        || self.column_hits(k, x as int, y as int, i as int, j as int)),
                decreases h - j,
            {
                proof {
                    lemma_rect_index_monotone(self.width as int, x as int, y as int, i as int, j as int, w as int, h as int);
                }
                assert((y + j) * width <= self.rect_index(x as int, y as int, i as int, j as int) < orig.len());
                let row = (y as usize + j) * width;
                let idx = row + (x as usize + i);
                let ghost before = occupied@;
                occupied[idx] = true;
                proof {
                    let k0 = self.rect_index(x as int, y as int, i as int, j as int);
                    assert(idx == k0);
                    assert forall|k: int| 0 <= k < orig.len() implies
                        (self.column_hits(k, x as int, y as int, i as int, j + 1)
                            <==> (self.column_hits(k, x as int, y as int, i as int, j as int) || k == k0)) by {
                        if k == k0 {
                            assert(self.rect_index(x as int, y as int, i as int, j as int) == k0);
                        }
                        if self.column_hits(k, x as int, y as int, i as int, j as int) {
                            let b = choose|b: int| 0 <= b < j && k == #[trigger] self.rect_index(x as int, y as int, i as int, b);
                            assert(0 <= b < j + 1 && k == self.rect_index(x as int, y as int, i as int, b));
                        }
                        if self.column_hits(k, x as int, y as int, i as int, j + 1) {
                            let b = choose|b: int| 0 <= b < j + 1 && k == #[trigger] self.rect_index(x as int, y as int, i as int, b);
                            if b < j {
                                assert(self.column_hits(k, x as int, y as int, i as int, j as int));
                            }
                        }
                    }
                    assert(occupied@ =~= Seq::new(orig.len(), |k: int| orig[k]
                        || self.rect_hits(k, x as int, y as int, i as int, h as int)
                        || self.column_hits(k, x as int, y as int, i as int, j + 1)));
                }
                j += 1;
            }
            proof {
                assert forall|k: int| 0 <= k < orig.len() implies
                    (self.rect_hits(k, x as int, y as int, i + 1, h as int)
                        <==> (self.rect_hits(k, x as int, y as int, i as int, h as int)
                            || self.column_hits(k, x as int, y as int, i as int, h as int))) by {
                    if self.rect_hits(k, x as int, y as int, i + 1, h as int) {
                        let (a, b) = choose|a: int, b: int| 0 <= a < i + 1 && 0 <= b < h && k == #[trigger] self.rect_index(x as int, y as int, a, b);
                        if a < i {
                            assert(self.rect_hits(k, x as int, y as int, i as int, h as int));
                        } else {
                            assert(self.column_hits(k, x as int, y as int, i as int, h as int));
                        }
                    }
                    if self.rect_hits(k, x as int, y as int, i as int, h as int) {
                        let (a, b) = choose|a: int, b: int| 0 <= a < i && 0 <= b < h && k == #[trigger] self.rect_index(x as int, y as int, a, b);
                        assert(0 <= a < i + 1 && 0 <= b < h && k == self.rect_index(x as int, y as int, a, b));
                    }
                    if self.column_hits(k, x as int, y as int, i as int, h as int) {
                        let b = choose|b: int| 0 <= b < h && k == #[trigger] self.rect_index(x as int, y as int, i as int, b);
                        assert(0 <= i < i + 1 && 0 <= b < h && k == self.rect_index(x as int, y as int, i as int, b));
                    }
                }
                assert(occupied@ =~= Seq::new(orig.len(), |k: int| orig[k] || self.rect_hits(k, x as int, y as int, i + 1, h as int)));
            }
            i += 1;
        }
        proof {
            assert(occupied@ =~= self.mark_rect(orig, x as int, y as int, w as int, h as int));
        }
    }
}

impl Plot {
    /// Cells taken after laying out the first `n` genes, each placed gene
    /// taking its whole footprint.
    pub open spec fn layout_marks(&self, genes: Seq<Gene>, n: int) -> Seq<bool>
        decreases n,
    {
        if n <= 0 {
            Seq::new(self.cell_count() as nat, |k: int| false)
        } else {
            let prev = self.layout_marks(genes, n - 1);
            let g = genes[n - 1];
            if g.placed {
                self.mark_rect(prev, g.x as int, g.y as int, g.span_w(), g.span_h())
            } else {
                prev
            }
        }
    }

    /// Each of the first `n` placed genes fits cleanly among those before it.
    pub open spec fn layout_legal_upto(&self, genes: Seq<Gene>, n: int) -> bool
        decreases n,
    {
        if n <= 0 {
            true
        } else {
            let g = genes[n - 1];
            &&& self.layout_legal_upto(genes, n - 1)
            &&& g.placed ==> self.clean_fit(g.x as int, g.y as int, g.span_w(), g.span_h(), self.layout_marks(genes, n - 1))
        }
    }

    /// Every placed gene lies on buildable cells of the plot, and no two overlap.
    pub open spec fn layout_legal(&self, genes: Seq<Gene>) -> bool {
        self.layout_legal_upto(genes, genes.len() as int)
    }

    /// Whether the chromosome's placed genes all fit cleanly, each among the ones before it.
    pub fn chromosome_is_legal(&self, chromosome: &Chromosome) -> (r: bool)
        requires
            self.wf(),
        ensures
            r == self.layout_legal(chromosome.genes@),
    {
        assert((self.width as int) * (self.height as int) <= 255 * 255) by (nonlinear_arith)
            requires self.width <= 255, self.height <= 255;
        let cells = (self.width as usize) * (self.height as usize);
        let mut occupied = vec![false; cells];
        proof {
            assert(occupied@ =~= self.layout_marks(chromosome.genes@, 0));
        }
        let mut n: usize = 0;
        while n < chromosome.genes.len()
            invariant
                self.wf(),
                0 <= n <= chromosome.genes.len(),
                occupied@ == self.layout_marks(chromosome.genes@, n as int),
                occupied@.len() == self.cell_count(),
                self.layout_legal_upto(chromosome.genes@, n as int),
            decreases chromosome.genes.len() - n,
        {
            let g = chromosome.genes[n];
            if g.placed {
                let (w, h) = g.spans();
                if !self.fits_cleanly(g.x, g.y, w, h, occupied.as_slice()) {
                    proof {
                        lemma_legal_stays_false(self, chromosome.genes@, n as int + 1, chromosome.genes.len() as int);
                    }
                    return false;
                }
                proof {
                    if w > 0 && h > 0 {
                        lemma_last_cell_index(self.width as int, self.height as int, g.x as int, g.y as int, w as int, h as int);
                    }
                }
                self.mark_occupied(g.x, g.y, w, h, occupied.as_mut_slice());
            }
            n = n + 1;
        }
        true
    }
}

/// Once a layout prefix is illegal, every longer prefix is too.
proof fn lemma_legal_stays_false(plot: &Plot, genes: Seq<Gene>, n: int, m: int)
    requires
        1 <= n <= m,
        !plot.layout_legal_upto(genes, n),
    ensures
        !plot.layout_legal_upto(genes, m),
    decreases m - n,
{
    if n < m {
        lemma_legal_stays_false(plot, genes, n, m - 1);
    }
}

/// The last cell of a rectangle that lies on the plot has an index inside the grid.
pub proof fn lemma_last_cell_index(width: int, height: int, x: int, y: int, w: int, h: int)
    requires
        0 <= x,
        0 <= y,
        0 < w,
        0 < h,
        x + w <= width,
        y + h <= height,
    ensures
        (y + h - 1) * width + (x + w - 1) < width * height,
{
    assert((y + h - 1) * width + (x + w - 1) < width * height) by (nonlinear_arith)
        requires
            0 <= x,
            0 <= y,
            0 < w,
            0 < h,
            x + w <= width,
            y + h <= height,
    ;
}

/// An on-plot cell's grid index lies inside the grid.
pub proof fn lemma_cell_index_bounds(width: int, height: int, cx: int, cy: int)
    requires
        0 <= cx < width <= 255,
        0 <= cy < height <= 255,
    ensures
        0 <= cy * width + cx < width * height <= 255 * 255,
{
    assert(0 <= cy * width + cx < width * height <= 255 * 255) by (nonlinear_arith)
        requires
            0 <= cx < width <= 255,
            0 <= cy < height <= 255,
    ;
}

/// Every index that marking a rectangle sets is at most that of its last cell.
pub proof fn lemma_rect_index_monotone(width: int, x: int, y: int, i: int, j: int, w: int, h: int)
    requires
        0 <= width,
        0 <= x,
        0 <= y,
        0 <= i < w,
        0 <= j < h,
    ensures
        0 <= (y + j) * width <= (y + j) * width + (x + i) <= (y + h - 1) * width + (x + w - 1),
{
    assert(0 <= (y + j) * width <= (y + j) * width + (x + i) <= (y + h - 1) * width + (x + w - 1)) by (nonlinear_arith)
        requires
            0 <= width,
            0 <= x,
            0 <= y,
            0 <= i < w,
            0 <= j < h,
    ;
}

/// An on-plot cell's subplot index lies inside the subplot grid.
pub proof fn lemma_subplot_index_bounds(s: int, g0: int, g1: int, cx: int, cy: int)
    requires
        s > 0,
        0 <= g0 <= 255,
        0 <= g1 <= 255,
        0 <= cx < s * g0,
        0 <= cy < s * g1,
    ensures
        0 <= cx / s < g0,
        0 <= cy / s < g1,
        0 <= (cy / s) * g0 + cx / s < g0 * g1 <= 255 * 255,
{
    vstd::arithmetic::div_mod::lemma_fundamental_div_mod(cx, s);
    vstd::arithmetic::div_mod::lemma_fundamental_div_mod(cy, s);
    vstd::arithmetic::div_mod::lemma_div_pos_is_pos(cx, s);
    vstd::arithmetic::div_mod::lemma_div_pos_is_pos(cy, s);
    vstd::arithmetic::div_mod::lemma_mod_bound(cx, s);
    vstd::arithmetic::div_mod::lemma_mod_bound(cy, s);
    assert(cx / s < g0) by (nonlinear_arith)
        requires
            s * (cx / s) + cx % s == cx,
            cx % s >= 0,
            cx < s * g0,
            s > 0,
    ;
    assert(cy / s < g1) by (nonlinear_arith)
        requires
            s * (cy / s) + cy % s == cy,
            cy % s >= 0,
            cy < s * g1,
            s > 0,
    ;
    let a = cy / s;
    let b = cx / s;
    assert(a * g0 + b < g0 * g1) by (nonlinear_arith)
        requires
            0 <= a < g1,
            0 <= b < g0,
    ;
    assert(0 <= a * g0) by (nonlinear_arith)
        requires
            0 <= a,
            0 <= g0,
    ;
    assert(g0 * g1 <= 255 * 255) by (nonlinear_arith)
        requires
            0 <= g0 <= 255,
            0 <= g1 <= 255,
    ;
}

} // verus!
