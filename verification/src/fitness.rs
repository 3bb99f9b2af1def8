//! Scoring a layout on a plot.
//!
//! Genes are scored in order. A placed gene scores by the best multiplier
//! under its footprint, its value and a gold bonus, minus penalties for its
//! cells that fall off the plot or on unbuildable subplots, and for its
//! cells that an earlier gene already took; the sum is divided by the
//! footprint's area. All arithmetic is that of `i32`, so a layout whose
//! score would leave `i32` has no score.

use vstd::prelude::*;
use crate::chromosome::Chromosome;
use crate::gene::Gene;
use crate::generator::Config;
use crate::plot::{Plot, rect_count, column_count, rect_max, column_max, lemma_cell_index_bounds};

verus! {

/// `v` is a value of `i32`.
pub open spec fn fits_i32(v: int) -> bool {
    i32::MIN <= v <= i32::MAX
}

/// Division rounding toward zero, as Rust's integer `/` does, for `d > 0`.
pub open spec fn trunc_div(a: int, d: int) -> int {
    if a >= 0 { a / d } else { -((-a) / d) }
}

/// The score of a placed gene from its counts: `value` (as `i32`), footprint
/// `area`, `good` usable cells, `overlap` usable cells already taken, best
/// multiplier `m` and gold factor `gold` (2 for a gold gene, else 1); `None`
/// when a step leaves `i32` or the area is 0.
pub open spec fn score_with_gold(value: int, area: int, good: int, overlap: int, m: int, cfg: Config, gold: int) -> Option<int> {
    let out = area - good;
    let tiebreak = trunc_div(value * good, 2);
    let base = value * gold * m;
    let pm = if m >= 1 { m } else { 1 };
    let opm = cfg.outside_penalty_multiplier as int;
    let ovm = cfg.overlap_penalty_multiplier as int;
    let outside = out * value * opm * pm;
    let overlap_pen = overlap * value * ovm * pm;
    let num = base * area + tiebreak - outside - overlap_pen;
    if area != 0
        && fits_i32(value * good)
        && fits_i32(value * gold)
        && fits_i32(base)
        && fits_i32(out * value)
        && fits_i32(out * value * opm)
        && fits_i32(outside)
        && fits_i32(overlap * value)
        && fits_i32(overlap * value * ovm)
        && fits_i32(overlap_pen)
        && fits_i32(base * area)
        && fits_i32(base * area + tiebreak)
        && fits_i32(base * area + tiebreak - outside)
        && fits_i32(num)
    {
        Some(trunc_div(num, area))
    } else {
        None
    }
}

impl Plot {
    /// The cells that are usable.
    pub open spec fn usable_pred(&self) -> spec_fn(int, int) -> bool {
        |cx: int, cy: int| self.usable(cx, cy)
    }

    /// The usable cells that `occ` marks as taken.
    pub open spec fn taken_pred(&self, occ: Seq<bool>) -> spec_fn(int, int) -> bool {
        |cx: int, cy: int| self.usable(cx, cy) && occ[self.cell_index(cx, cy)]
    }

    /// The multiplier a cell counts with: that of its subplot when usable, else 0.
    pub open spec fn counted_multiplier(&self) -> spec_fn(int, int) -> int {
        |cx: int, cy: int| if self.usable(cx, cy) { self.multiplier_at(cx, cy) } else { 0 }
    }

    /// Usable cells under the gene's footprint.
    pub open spec fn good_cells(&self, g: Gene) -> nat {
        rect_count(g.x as int, g.y as int, g.span_w(), g.span_h(), self.usable_pred())
    }

    /// Usable cells under the gene's footprint that `occ` marks as taken.
    pub open spec fn overlap_cells(&self, g: Gene, occ: Seq<bool>) -> nat {
        rect_count(g.x as int, g.y as int, g.span_w(), g.span_h(), self.taken_pred(occ))
    }

    /// Best multiplier under the gene's footprint (0 when no cell is usable).
    pub open spec fn best_multiplier(&self, g: Gene) -> int {
        rect_max(g.x as int, g.y as int, g.span_w(), g.span_h(), self.counted_multiplier())
    }

    /// Score of a placed gene against the occupancy `occ` left by earlier genes.
    pub open spec fn gene_score(&self, cfg: Config, g: Gene, occ: Seq<bool>) -> Option<int> {
        score_with_gold(
            (g.value as i32) as int,
            g.span_w() * g.span_h(),
            self.good_cells(g) as int,
            self.overlap_cells(g, occ) as int,
            self.best_multiplier(g),
            cfg,
            if g.gold { 2 } else { 1 },
        )
    }

    /// `occ` after a placed gene takes the usable cells under its footprint.
    pub open spec fn place_usable(&self, g: Gene, occ: Seq<bool>) -> Seq<bool> {
        Seq::new(occ.len(), |k: int| occ[k] || (g.covers(k % self.width as int, k / self.width as int)
            && self.usable(k % self.width as int, k / self.width as int)))
    }

    pub open spec fn empty_grid(&self) -> Seq<bool> {
        Seq::new(self.cell_count() as nat, |k: int| false)
    }

    /// Occupancy after scoring the first `n` genes.
    pub open spec fn occupancy_after(&self, genes: Seq<Gene>, n: int) -> Seq<bool>
        decreases n,
    {
        if n <= 0 {
            self.empty_grid()
        } else {
            let prev = self.occupancy_after(genes, n - 1);
            if genes[n - 1].placed { self.place_usable(genes[n - 1], prev) } else { prev }
        }
    }

    /// Running fitness after scoring the first `n` genes; `None` once a step leaves `i32`.
    pub open spec fn fitness_after(&self, cfg: Config, genes: Seq<Gene>, n: int) -> Option<int>
        decreases n,
    {
        if n <= 0 {
            Some(0)
        } else {
            match self.fitness_after(cfg, genes, n - 1) {
                None => None,
                Some(f) => {
                    let g = genes[n - 1];
                    if !g.placed {
                        Some(f)
                    } else {
                        match self.gene_score(cfg, g, self.occupancy_after(genes, n - 1)) {
                            None => None,
                            Some(s) => if fits_i32(f + s) { Some(f + s) } else { None },
                        }
                    }
                }
            }
        }
    }

    /// Fitness of a whole layout; `None` when its computation leaves `i32`.
    pub open spec fn layout_fitness(&self, cfg: Config, genes: Seq<Gene>) -> Option<int> {
        self.fitness_after(cfg, genes, genes.len() as int)
    }
}

/// Cell `(cx, cy)` has been visited after full columns `x .. x + i` of height
/// `h` and the first `j` cells of column `x + i`.
pub open spec fn scanned(x: int, y: int, h: int, i: int, j: int, cx: int, cy: int) -> bool {
    (x <= cx < x + i && y <= cy < y + h) || (cx == x + i && y <= cy < y + j)
}

pub open spec fn max2(a: int, b: int) -> int {
    if a >= b { a } else { b }
}

/// The arithmetic of a placed gene's score, each step checked against `i32`.
fn combine_score(value: i32, area: i32, good: i32, overlap: i32, m: i32, cfg: &Config, gold: i32) -> (r: Option<i32>)
    requires
        0 <= good <= area,
    ensures
        r is Some <==> score_with_gold(value as int, area as int, good as int, overlap as int, m as int, *cfg, gold as int) is Some,
        r matches Some(s) ==> score_with_gold(value as int, area as int, good as int, overlap as int, m as int, *cfg, gold as int) == Some(s as int),
{
    let t1 = value.checked_mul(good)?;
    let tiebreak = t1.checked_div(2)?;
    let g1 = value.checked_mul(gold)?;
    let base = g1.checked_mul(m)?;
    let pm = if m >= 1 { m } else { 1 };
    let out = area - good;
    let o1 = out.checked_mul(value)?;
    let o2 = o1.checked_mul(cfg.outside_penalty_multiplier)?;
    let outside = o2.checked_mul(pm)?;
    let p1 = overlap.checked_mul(value)?;
    let p2 = p1.checked_mul(cfg.overlap_penalty_multiplier)?;
    let overlap_pen = p2.checked_mul(pm)?;
    let n1 = base.checked_mul(area)?;
    let n2 = n1.checked_add(tiebreak)?;
    let n3 = n2.checked_sub(outside)?;
    let num = n3.checked_sub(overlap_pen)?;
    num.checked_div(area)
}

impl Plot {
    /// Walks the gene's footprint column by column: counts its usable cells
    /// and those of them already taken, finds its best multiplier, and takes
    /// its usable cells in `occupied`.
    fn scan_footprint(&self, g: Gene, occupied: &mut Vec<bool>) -> (r: (u32, u32, u8))
        requires
            self.wf(),
            old(occupied)@.len() == self.cell_count(),
        ensures
            r.0 == self.good_cells(g),
            r.1 == self.overlap_cells(g, old(occupied)@),
            r.2 == self.best_multiplier(g),
            final(occupied)@ == self.place_usable(g, old(occupied)@),
    {
        let ghost pre = occupied@;
        let ghost p = self.usable_pred();
        let ghost t = self.taken_pred(pre);
        let ghost f = self.counted_multiplier();
        let (sw8, sh8) = g.spans();
        let sw = sw8 as u32;
        let sh = sh8 as u32;
        let x = g.x as u32;
        let y = g.y as u32;
        let width = self.width as u32;
        let height = self.height as u32;
        let mut good: u32 = 0;
        let mut overlap: u32 = 0;
        let mut best: u8 = 0;
        let mut i: u32 = 0;
        while i < sw
            invariant
                self.wf(),
                pre.len() == self.cell_count(),
                occupied@.len() == pre.len(),
                p == self.usable_pred(),
                t == self.taken_pred(pre),
                f == self.counted_multiplier(),
                sw == g.span_w(),
                sh == g.span_h(),
                x == g.x,
                y == g.y,
                width == self.width,
                height == self.height,
                0 <= i <= sw,
                good == rect_count(x as int, y as int, i as int, sh as int, p),
                overlap == rect_count(x as int, y as int, i as int, sh as int, t),
                best == rect_max(x as int, y as int, i as int, sh as int, f),
                good <= i * sh,
                overlap <= i * sh,
                occupied@ == Seq::new(pre.len(), |k: int| pre[k]
                    || (scanned(x as int, y as int, sh as int, i as int, 0, k % self.width as int, k / self.width as int)
                        && self.usable(k % self.width as int, k / self.width as int))),
            decreases sw - i,
        {
            let mut j: u32 = 0;
            while j < sh
                invariant
                    self.wf(),
                    pre.len() == self.cell_count(),
                    occupied@.len() == pre.len(),
                    p == self.usable_pred(),
                    t == self.taken_pred(pre),
                    f == self.counted_multiplier(),
                    sw == g.span_w(),
                    sh == g.span_h(),
                    sw <= 255,
                    sh <= 255,
                    x == g.x,
                    y == g.y,
                    width == self.width,
                    height == self.height,
                    0 <= i < sw,
                    0 <= j <= sh,
                    good == rect_count(x as int, y as int, i as int, sh as int, p) + column_count(x + i, y as int, j as int, p),
                    overlap == rect_count(x as int, y as int, i as int, sh as int, t) + column_count(x + i, y as int, j as int, t),
                    best == max2(rect_max(x as int, y as int, i as int, sh as int, f), column_max(x + i, y as int, j as int, f)),
                    good <= i * sh + j,
                    overlap <= i * sh + j,
                    occupied@ == Seq::new(pre.len(), |k: int| pre[k]
                        || (scanned(x as int, y as int, sh as int, i as int, j as int, k % self.width as int, k / self.width as int)
                            && self.usable(k % self.width as int, k / self.width as int))),
                decreases sh - j,
            {
                proof {
                    lemma_scan_bound(i as int, j as int, sw as int, sh as int);
                }
                let cx = x + i;
                let cy = y + j;
                let ghost before = occupied@;
                if cx < width && cy < height {
                    let mult = self.multiplier_of(cx, cy);
                    if mult != 0 {
                        proof {
                            lemma_cell_index_bounds(self.width as int, self.height as int, cx as int, cy as int);
                        }
                        let idx = (cy * width + cx) as usize;
                        proof {
                            lemma_index_cell(self.width as int, cx as int, cy as int);
                        }
                        good = good + 1;
                        if occupied[idx] {
                            overlap = overlap + 1;
                        }
                        if mult > best {
                            best = mult;
                        }
                        occupied.set(idx, true);
                        proof {
                            let w = self.width as int;
                            let k0 = idx as int;
                            assert forall|k: int| 0 <= k < pre.len() implies
                                #[trigger] occupied@[k] == (pre[k]
                                    || (scanned(x as int, y as int, sh as int, i as int, j + 1, k % w, k / w)
                                        && self.usable(k % w, k / w))) by {
                                if k != k0 {
                                    if k % w == cx && k / w == cy {
                                        vstd::arithmetic::div_mod::lemma_fundamental_div_mod(k, w);
                                        assert(k == (k / w) * w + k % w) by (nonlinear_arith)
                                            requires k == w * (k / w) + k % w;
                                    }
                                }
                            }
                            assert(occupied@ =~= Seq::new(pre.len(), |k: int| pre[k]
                                || (scanned(x as int, y as int, sh as int, i as int, j + 1, k % self.width as int, k / self.width as int)
                                    && self.usable(k % self.width as int, k / self.width as int))));
                        }
                    } else {
                        proof {
                            assert(occupied@ =~= Seq::new(pre.len(), |k: int| pre[k]
                                || (scanned(x as int, y as int, sh as int, i as int, j + 1, k % self.width as int, k / self.width as int)
                                    && self.usable(k % self.width as int, k / self.width as int))));
                        }
                    }
                } else {
                    proof {
                        assert(occupied@ =~= Seq::new(pre.len(), |k: int| pre[k]
                            || (scanned(x as int, y as int, sh as int, i as int, j + 1, k % self.width as int, k / self.width as int)
                                && self.usable(k % self.width as int, k / self.width as int))));
                    }
                }
                j = j + 1;
            }
            proof {
                assert((i + 1) * sh == i * sh + sh) by (nonlinear_arith);
                assert(occupied@ =~= Seq::new(pre.len(), |k: int| pre[k]
                    || (scanned(x as int, y as int, sh as int, i + 1, 0, k % self.width as int, k / self.width as int)
                        && self.usable(k % self.width as int, k / self.width as int))));
            }
            i = i + 1;
        }
        proof {
            assert(occupied@ =~= self.place_usable(g, pre));
        }
        (good, overlap, best)
    }
}

/// While scanning a footprint of at most `255 x 255` cells, counts stay below its area.
proof fn lemma_scan_bound(i: int, j: int, sw: int, sh: int)
    requires
        0 <= i < sw <= 255,
        0 <= j < sh <= 255,
    ensures
        i * sh + j + 1 <= sw * sh <= 255 * 255,
{
    assert(i * sh + j + 1 <= sw * sh <= 255 * 255) by (nonlinear_arith)
        requires
            0 <= i < sw <= 255,
            0 <= j < sh <= 255,
    ;
}

/// The grid index of an on-plot cell gives back its column and row.
pub proof fn lemma_index_cell(w: int, cx: int, cy: int)
    requires
        0 <= cx < w,
        0 <= cy,
    ensures
        (cy * w + cx) % w == cx,
        (cy * w + cx) / w == cy,
{
    vstd::arithmetic::div_mod::lemma_fundamental_div_mod_converse(cy * w + cx, w, cy, cx);
}

impl Plot {
    /// Score of one placed gene against `occupied`, which it then takes its
    /// usable cells in.
    fn score_gene(&self, config: &Config, g: Gene, occupied: &mut Vec<bool>) -> (r: Option<i32>)
        requires
            self.wf(),
            old(occupied)@.len() == self.cell_count(),
        ensures
            final(occupied)@ == self.place_usable(g, old(occupied)@),
            r is Some <==> self.gene_score(*config, g, old(occupied)@) is Some,
            r matches Some(s) ==> self.gene_score(*config, g, old(occupied)@) == Some(s as int),
    {
        let (good, overlap, best) = self.scan_footprint(g, occupied);
        let (sw, sh) = g.spans();
        assert((sw as int) * (sh as int) <= 255 * 255) by (nonlinear_arith)
            requires sw <= 255, sh <= 255;
        let area = (sw as i32) * (sh as i32);
        proof {
            lemma_rect_count_bound(g.x as int, g.y as int, g.span_w(), g.span_h(), self.usable_pred());
            lemma_rect_count_bound(g.x as int, g.y as int, g.span_w(), g.span_h(), self.taken_pred(old(occupied)@));
        }
        let gold: i32 = if g.gold { 2 } else { 1 };
        let value = #[verifier::truncate] (g.value as i32);
        combine_score(value, area, good as i32, overlap as i32, best as i32, config, gold)
    }

    /// Fitness of a layout on this plot, or `None` when computing it in
    /// `i32` would overflow (or divide by a zero area).
    pub fn checked_fitness(&self, chromosome: &Chromosome, config: &Config) -> (r: Option<i32>)
        requires
            self.wf(),
        ensures
            r is Some <==> self.layout_fitness(*config, chromosome.genes@) is Some,
            r matches Some(f) ==> self.layout_fitness(*config, chromosome.genes@) == Some(f as int),
    {
        assert((self.width as int) * (self.height as int) <= 255 * 255) by (nonlinear_arith)
            requires self.width <= 255, self.height <= 255;
        let cells = (self.width as usize) * (self.height as usize);
        let mut occupied = vec![false; cells];
        proof {
            assert(occupied@ =~= self.empty_grid());
        }
        let mut fitness: i32 = 0;
        let mut n: usize = 0;
        while n < chromosome.genes.len()
            invariant
                self.wf(),
                0 <= n <= chromosome.genes.len(),
                occupied@ == self.occupancy_after(chromosome.genes@, n as int),
                self.fitness_after(*config, chromosome.genes@, n as int) == Some(fitness as int),
            decreases chromosome.genes.len() - n,
        {
            let g = chromosome.genes[n];
            proof {
                lemma_occupancy_len(self, chromosome.genes@, n as int);
            }
            if g.placed {
                match self.score_gene(config, g, &mut occupied) {
                    None => {
                        proof {
                            lemma_fitness_stays_none(self, *config, chromosome.genes@, n as int + 1, chromosome.genes.len() as int);
                        }
                        return None;
                    }
                    Some(s) => {
                        match fitness.checked_add(s) {
                            None => {
                                proof {
                                    lemma_fitness_stays_none(self, *config, chromosome.genes@, n as int + 1, chromosome.genes.len() as int);
                                }
                                return None;
                            }
                            Some(f) => {
                                fitness = f;
                            }
                        }
                    }
                }
            }
            n = n + 1;
        }
        Some(fitness)
    }

    /// Scores a layout and records the score as the chromosome's fitness.
    pub fn evaluate_chromosome(&self, chromosome: &mut Chromosome, config: &Config) -> (r: i32)
        requires
            self.wf(),
            self.layout_fitness(*config, old(chromosome).genes@) is Some,
        ensures
            self.layout_fitness(*config, old(chromosome).genes@) == Some(r as int),
            final(chromosome).genes@ == old(chromosome).genes@,
            final(chromosome).fitness == r,
    {
        let fitness = match self.checked_fitness(chromosome, config) {
            Some(f) => f,
            None => 0,
        };
        chromosome.fitness = fitness;
        fitness
    }
}

/// The occupancy grid always has one entry per cell of the plot.
pub proof fn lemma_occupancy_len(plot: &Plot, genes: Seq<Gene>, n: int)
    ensures
        plot.occupancy_after(genes, n).len() == plot.empty_grid().len(),
    decreases n,
{
    if n > 0 {
        lemma_occupancy_len(plot, genes, n - 1);
    }
}

/// Once the running fitness has no value, it has none for any longer prefix.
proof fn lemma_fitness_stays_none(plot: &Plot, cfg: Config, genes: Seq<Gene>, n: int, m: int)
    requires
        1 <= n <= m,
        plot.fitness_after(cfg, genes, n) is None,
    ensures
        plot.fitness_after(cfg, genes, m) is None,
    decreases m - n,
{
    if n < m {
        lemma_fitness_stays_none(plot, cfg, genes, n, m - 1);
    }
}

/// A rectangle has no more cells satisfying a predicate than it has cells.
pub proof fn lemma_rect_count_bound(x: int, y: int, w: int, h: int, p: spec_fn(int, int) -> bool)
    requires
        0 <= w,
        0 <= h,
    ensures
        rect_count(x, y, w, h, p) <= w * h,
    decreases w,
{
    if w > 0 {
        lemma_rect_count_bound(x, y, w - 1, h, p);
        lemma_column_count_bound(x + w - 1, y, h, p);
        assert(w * h == (w - 1) * h + h) by (nonlinear_arith);
    }
}

pub proof fn lemma_column_count_bound(cx: int, y: int, h: int, p: spec_fn(int, int) -> bool)
    requires
        0 <= h,
    ensures
        column_count(cx, y, h, p) <= h,
    decreases h,
{
    if h > 0 {
        lemma_column_count_bound(cx, y, h - 1, p);
    }
}

} // verus!
