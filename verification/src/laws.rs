//! Properties that hold across the library's operations.

use vstd::prelude::*;
use crate::chromosome::{Chromosome, initial_genes, spliced};
use crate::fitness::{fits_i32, trunc_div, score_with_gold, lemma_rect_count_bound};
use crate::gene::Gene;
use crate::generator::{Config, GeneratorData};
use crate::plot::{Plot, rect_count, column_count, rect_max, column_max};
use crate::population::{is_selection_of, is_ranking, sorted_by_fitness};

verus! {

broadcast use vstd::seq_lib::group_to_multiset_ensures, vstd::multiset::group_multiset_axioms;

/// A rectangle where every cell satisfies `p` counts all its cells.
pub proof fn lemma_rect_count_full(x: int, y: int, w: int, h: int, p: spec_fn(int, int) -> bool)
    requires
        0 <= w,
        0 <= h,
        forall|cx: int, cy: int| x <= cx < x + w && y <= cy < y + h ==> #[trigger] p(cx, cy),
    ensures
        rect_count(x, y, w, h, p) == w * h,
    decreases w,
{
    if w > 0 {
        lemma_rect_count_full(x, y, w - 1, h, p);
        lemma_column_count_full(x + w - 1, y, h, p);
        assert(w * h == (w - 1) * h + h) by (nonlinear_arith);
        assert(rect_count(x, y, w, h, p) == rect_count(x, y, w - 1, h, p) + column_count(x + w - 1, y, h, p));
    } else {
        assert(w * h == 0) by (nonlinear_arith)
            requires w == 0;
    }
}

proof fn lemma_column_count_full(cx: int, y: int, h: int, p: spec_fn(int, int) -> bool)
    requires
        0 <= h,
        forall|cy: int| y <= cy < y + h ==> #[trigger] p(cx, cy),
    ensures
        column_count(cx, y, h, p) == h,
    decreases h,
{
    if h > 0 {
        lemma_column_count_full(cx, y, h - 1, p);
        assert(p(cx, y + h - 1));
    }
}

/// A rectangle where no cell satisfies `p` counts none.
pub proof fn lemma_rect_count_empty(x: int, y: int, w: int, h: int, p: spec_fn(int, int) -> bool)
    requires
        forall|cx: int, cy: int| x <= cx < x + w && y <= cy < y + h ==> !#[trigger] p(cx, cy),
    ensures
        rect_count(x, y, w, h, p) == 0,
    decreases w,
{
    if w > 0 {
        lemma_rect_count_empty(x, y, w - 1, h, p);
        lemma_column_count_empty(x + w - 1, y, h, p);
    }
}

proof fn lemma_column_count_empty(cx: int, y: int, h: int, p: spec_fn(int, int) -> bool)
    requires
        forall|cy: int| y <= cy < y + h ==> !#[trigger] p(cx, cy),
    ensures
        column_count(cx, y, h, p) == 0,
    decreases h,
{
    if h > 0 {
        lemma_column_count_empty(cx, y, h - 1, p);
        assert(!p(cx, y + h - 1));
    }
}

/// The cells that scoring takes are among those that the legality check marks.
proof fn lemma_occupancy_within_marks(plot: &Plot, genes: Seq<Gene>, n: int)
    requires
        0 <= n <= genes.len(),
    ensures
        plot.occupancy_after(genes, n).len() == plot.cell_count(),
        plot.layout_marks(genes, n).len() == plot.cell_count(),
        forall|k: int| 0 <= k < plot.cell_count() && #[trigger] plot.occupancy_after(genes, n)[k]
            ==> plot.layout_marks(genes, n)[k],
    decreases n,
{
    if n > 0 {
        lemma_occupancy_within_marks(plot, genes, n - 1);
        let g = genes[n - 1];
        if g.placed {
            let w = plot.width as int;
            let occ = plot.occupancy_after(genes, n - 1);
            let marks = plot.layout_marks(genes, n - 1);
            assert forall|k: int| 0 <= k < plot.cell_count() && #[trigger] plot.occupancy_after(genes, n)[k]
                implies plot.layout_marks(genes, n)[k] by {
                if !occ[k] {
                    let cx = k % w;
                    let cy = k / w;
                    assert(g.covers(cx, cy));
                    assert(w > 0) by (nonlinear_arith)
                        requires 0 <= k < w * plot.height, 0 <= w;
                    vstd::arithmetic::div_mod::lemma_fundamental_div_mod(k, w);
                    assert(k == cy * w + cx) by (nonlinear_arith)
                        requires k == w * (k / w) + k % w, cx == k % w, cy == k / w;
                    let i = cx - g.x;
                    let j = cy - g.y;
                    assert(k == plot.rect_index(g.x as int, g.y as int, i, j));
                    assert(plot.rect_hits(k, g.x as int, g.y as int, g.span_w(), g.span_h()));
                }
            }
        }
    }
}

/// A layout that passes the legality check is scored without penalty: every
/// placed gene has all its cells usable and none already taken, so its score
/// is that of a footprint fully on buildable ground with no overlap.
pub proof fn law_legal_layout_has_no_penalty(plot: &Plot, cfg: Config, genes: Seq<Gene>, n: int)
    requires
        plot.wf(),
        plot.layout_legal(genes),
        0 <= n < genes.len(),
        genes[n].placed,
    ensures
        plot.good_cells(genes[n]) == genes[n].span_w() * genes[n].span_h(),
        plot.overlap_cells(genes[n], plot.occupancy_after(genes, n)) == 0,
        plot.gene_score(cfg, genes[n], plot.occupancy_after(genes, n)) == score_with_gold(
            (genes[n].value as i32) as int,
            genes[n].span_w() * genes[n].span_h(),
            genes[n].span_w() * genes[n].span_h(),
            0,
            plot.best_multiplier(genes[n]),
            cfg,
            if genes[n].gold { 2 } else { 1 },
        ),
{
    let g = genes[n];
    lemma_legal_prefix(plot, genes, n + 1, genes.len() as int);
    assert(plot.layout_legal_upto(genes, n + 1));
    let marks = plot.layout_marks(genes, n);
    let occ = plot.occupancy_after(genes, n);
    assert(plot.clean_fit(g.x as int, g.y as int, g.span_w(), g.span_h(), marks));
    lemma_occupancy_within_marks(plot, genes, n);
    let x = g.x as int;
    let y = g.y as int;
    let w = g.span_w();
    let h = g.span_h();
    assert forall|cx: int, cy: int| x <= cx < x + w && y <= cy < y + h implies #[trigger] plot.usable_pred()(cx, cy) by {
        assert(plot.cell_free(marks, cx, cy));
    }
    lemma_rect_count_full(x, y, w, h, plot.usable_pred());
    assert forall|cx: int, cy: int| x <= cx < x + w && y <= cy < y + h implies !#[trigger] plot.taken_pred(occ)(cx, cy) by {
        assert(plot.cell_free(marks, cx, cy));
        crate::plot::lemma_cell_index_bounds(plot.width as int, plot.height as int, cx, cy);
    }
    lemma_rect_count_empty(x, y, w, h, plot.taken_pred(occ));
}

/// Legality of a layout prefix carries over to shorter prefixes.
proof fn lemma_legal_prefix(plot: &Plot, genes: Seq<Gene>, n: int, m: int)
    requires
        0 <= n <= m,
        plot.layout_legal_upto(genes, m),
    ensures
        plot.layout_legal_upto(genes, n),
    decreases m - n,
{
    if n < m {
        lemma_legal_prefix(plot, genes, n, m - 1);
    }
}

/// A layout with no placed gene is legal and scores 0.
pub proof fn law_unplaced_layout_scores_zero(plot: &Plot, cfg: Config, genes: Seq<Gene>)
    requires
        forall|j: int| 0 <= j < genes.len() ==> !(#[trigger] genes[j]).placed,
    ensures
        plot.layout_fitness(cfg, genes) == Some(0int),
        plot.layout_legal(genes),
{
    lemma_unplaced_prefix(plot, cfg, genes, genes.len() as int);
}

proof fn lemma_unplaced_prefix(plot: &Plot, cfg: Config, genes: Seq<Gene>, n: int)
    requires
        n <= genes.len(),
        forall|j: int| 0 <= j < genes.len() ==> !(#[trigger] genes[j]).placed,
    ensures
        plot.fitness_after(cfg, genes, n) == Some(0int),
        plot.layout_legal_upto(genes, n),
    decreases n,
{
    if n > 0 {
        lemma_unplaced_prefix(plot, cfg, genes, n - 1);
        assert(!genes[n - 1].placed);
    }
}

/// Every gene of a fresh chromosome is unplaced.
pub proof fn lemma_initial_genes_unplaced(gens: Seq<(GeneratorData, u8)>)
    ensures
        forall|j: int| 0 <= j < initial_genes(gens).len() ==> !(#[trigger] initial_genes(gens)[j]).placed,
    decreases gens.len(),
{
    if gens.len() > 0 {
        lemma_initial_genes_unplaced(gens.drop_last());
        let (g, count) = gens.last();
        let prefix = initial_genes(gens.drop_last());
        let tail = Seq::new(count as nat, |i: int| Gene::initial(g));
        assert forall|j: int| 0 <= j < initial_genes(gens).len() implies !(#[trigger] initial_genes(gens)[j]).placed by {
            if j < prefix.len() {
                assert(initial_genes(gens)[j] == prefix[j]);
            } else {
                assert(initial_genes(gens)[j] == tail[j - prefix.len()]);
            }
        }
    }
}

/// A fresh chromosome is a legal layout and scores 0 on any plot.
pub proof fn law_fresh_chromosome_scores_zero(plot: &Plot, cfg: Config, gens: Seq<(GeneratorData, u8)>)
    ensures
        plot.layout_fitness(cfg, initial_genes(gens)) == Some(0int),
        plot.layout_legal(initial_genes(gens)),
{
    lemma_initial_genes_unplaced(gens);
    law_unplaced_layout_scores_zero(plot, cfg, initial_genes(gens));
}

/// A footprint that fits cleanly is at a legal position.
pub proof fn law_clean_fit_is_legal(plot: &Plot, x: int, y: int, w: int, h: int, occ: Seq<bool>)
    requires
        0 <= x,
        0 <= y,
        plot.clean_fit(x, y, w, h, occ),
    ensures
        plot.legal_spot(x, y, w, h),
{
    assert forall|cx: int, cy: int| x <= cx < x + w && y <= cy < y + h implies #[trigger] plot.usable(cx, cy) by {
        assert(plot.cell_free(occ, cx, cy));
    }
}

/// Once a footprint's rectangle is marked, the same footprint no longer fits cleanly there.
pub proof fn law_marked_rect_no_longer_fits(plot: &Plot, occ: Seq<bool>, x: int, y: int, w: int, h: int)
    requires
        0 <= x,
        0 <= y,
        0 < w,
        0 < h,
        x + w <= plot.width,
        y + h <= plot.height,
        occ.len() >= plot.cell_count(),
    ensures
        !plot.clean_fit(x, y, w, h, plot.mark_rect(occ, x, y, w, h)),
{
    let marked = plot.mark_rect(occ, x, y, w, h);
    crate::plot::lemma_cell_index_bounds(plot.width as int, plot.height as int, x, y);
    assert(plot.rect_index(x, y, 0, 0) == plot.cell_index(x, y));
    assert(plot.rect_hits(plot.cell_index(x, y), x, y, w, h));
    assert(marked[plot.cell_index(x, y)]);
    assert(!plot.cell_free(marked, x, y));
}

/// Crossing a layout with itself gives that layout back, wherever the cut.
pub proof fn law_self_crossover(genes: Seq<Gene>, cut: int, from_first: bool)
    ensures
        spliced(genes, genes, cut, from_first) == genes,
{
    assert(spliced(genes, genes, cut, from_first) =~= genes);
}

/// With at least one elite, selection never loses the best fitness: the
/// first survivor has the highest fitness of the population before selection.
pub proof fn law_selection_keeps_best(new: Seq<Chromosome>, old: Seq<Chromosome>, elites: nat, target: nat)
    requires
        is_selection_of(new, old, elites, target),
        elites >= 1,
        old.len() > 0,
    ensures
        new.len() > 0,
        forall|i: int| 0 <= i < old.len() ==> new[0].fitness >= (#[trigger] old[i]).fitness,
        exists|i: int| 0 <= i < old.len() && new[0].fitness == (#[trigger] old[i]).fitness,
{
    let r = choose|r: Seq<Chromosome>| #[trigger] is_ranking(r, old) && r.take(elites as int).to_multiset().subset_of(new.to_multiset());
    assert(r.len() == r.to_multiset().len());
    assert(old.len() == old.to_multiset().len());
    let top = r[0];
    assert(r.take(elites as int).contains(top)) by {
        assert(r.take(elites as int)[0] == top);
    }
    assert(r.take(elites as int).to_multiset().count(top) > 0);
    assert(new.to_multiset().count(top) > 0);
    assert(new.contains(top));
    let j = choose|j: int| 0 <= j < new.len() && new[j] == top;
    assert(new[0].fitness >= top.fitness) by {
        if j > 0 {
            assert(sorted_by_fitness(new));
        }
    }
    assert forall|i: int| 0 <= i < old.len() implies new[0].fitness >= (#[trigger] old[i]).fitness by {
        assert(old.contains(old[i]));
        assert(old.to_multiset().count(old[i]) > 0);
        assert(r.contains(old[i]));
        let k = choose|k: int| 0 <= k < r.len() && r[k] == old[i];
        if k > 0 {
            assert(sorted_by_fitness(r));
        }
    }
    assert(new.contains(new[0]));
    assert(new.to_multiset().count(new[0]) > 0);
    assert(old.to_multiset().count(new[0]) > 0);
    assert(old.contains(new[0]));
    let i0 = choose|i: int| 0 <= i < old.len() && old[i] == new[0];
    assert(new[0].fitness == old[i0].fitness);
}

/// The genes of a layout that are placed, in order.
pub open spec fn placed_only(genes: Seq<Gene>) -> Seq<Gene>
    decreases genes.len(),
{
    if genes.len() == 0 {
        Seq::empty()
    } else {
        let rest = placed_only(genes.drop_last());
        if genes.last().placed { rest.push(genes.last()) } else { rest }
    }
}

/// Scoring and the legality check of a prefix depend on that prefix alone.
proof fn lemma_prefix_decides(plot: &Plot, cfg: Config, s: Seq<Gene>, t: Seq<Gene>, m: int)
    requires
        0 <= m <= s.len(),
        m <= t.len(),
        forall|i: int| 0 <= i < m ==> s[i] == t[i],
    ensures
        plot.occupancy_after(s, m) == plot.occupancy_after(t, m),
        plot.fitness_after(cfg, s, m) == plot.fitness_after(cfg, t, m),
        plot.layout_marks(s, m) == plot.layout_marks(t, m),
        plot.layout_legal_upto(s, m) == plot.layout_legal_upto(t, m),
    decreases m,
{
    if m > 0 {
        lemma_prefix_decides(plot, cfg, s, t, m - 1);
        assert(s[m - 1] == t[m - 1]);
    }
}

/// Scoring and the legality check of the first `n` genes agree with those of
/// the placed genes among them.
proof fn lemma_placed_only_prefix(plot: &Plot, cfg: Config, genes: Seq<Gene>, n: int)
    requires
        0 <= n <= genes.len(),
    ensures
        ({
            let p = placed_only(genes.take(n));
            &&& plot.occupancy_after(genes, n) == plot.occupancy_after(p, p.len() as int)
            &&& plot.fitness_after(cfg, genes, n) == plot.fitness_after(cfg, p, p.len() as int)
            &&& plot.layout_marks(genes, n) == plot.layout_marks(p, p.len() as int)
            &&& plot.layout_legal_upto(genes, n) == plot.layout_legal_upto(p, p.len() as int)
        }),
    decreases n,
{
    if n > 0 {
        lemma_placed_only_prefix(plot, cfg, genes, n - 1);
        let g = genes[n - 1];
        let p = placed_only(genes.take(n - 1));
        assert(genes.take(n).drop_last() =~= genes.take(n - 1));
        assert(genes.take(n).last() == g);
        if g.placed {
            let q = p.push(g);
            assert(placed_only(genes.take(n)) == q);
            lemma_prefix_decides(plot, cfg, p, q, p.len() as int);
            assert(q[p.len() as int] == g);
        } else {
            assert(placed_only(genes.take(n)) == p);
        }
    }
}

/// Unplaced genes never change a layout's score or its legality: a layout
/// scores and checks exactly as its placed genes, in order, do alone.
pub proof fn law_unplaced_genes_do_not_count(plot: &Plot, cfg: Config, genes: Seq<Gene>)
    ensures
        plot.layout_fitness(cfg, genes) == plot.layout_fitness(cfg, placed_only(genes)),
        plot.layout_legal(genes) == plot.layout_legal(placed_only(genes)),
{
    lemma_placed_only_prefix(plot, cfg, genes, genes.len() as int);
    assert(genes.take(genes.len() as int) =~= genes);
}

/// For a footprint with cells and a corner on the plot, every cell lying on
/// buildable ground is the same as fitting cleanly on an empty grid.
pub proof fn law_legal_is_clean_fit_on_empty_grid(plot: &Plot, x: int, y: int, w: int, h: int)
    requires
        plot.wf(),
        0 <= x,
        0 <= y,
        1 <= w,
        1 <= h,
    ensures
        plot.rect_usable(x, y, w, h)
            == plot.clean_fit(x, y, w, h, Seq::new(plot.cell_count() as nat, |k: int| false)),
{
    let empty = Seq::new(plot.cell_count() as nat, |k: int| false);
    if plot.rect_usable(x, y, w, h) {
        assert(plot.usable(x + w - 1, y + h - 1));
        assert forall|cx: int, cy: int| x <= cx < x + w && y <= cy < y + h implies #[trigger] plot.cell_free(empty, cx, cy) by {
            assert(plot.usable(cx, cy));
            crate::plot::lemma_cell_index_bounds(plot.width as int, plot.height as int, cx, cy);
        }
    }
    if plot.clean_fit(x, y, w, h, empty) {
        assert forall|cx: int, cy: int| x <= cx < x + w && y <= cy < y + h implies #[trigger] plot.usable(cx, cy) by {
            assert(plot.cell_free(empty, cx, cy));
        }
    }
}

/// The best multiplier under a footprint is never negative.
proof fn lemma_rect_max_nonneg(x: int, y: int, w: int, h: int, f: spec_fn(int, int) -> int)
    ensures
        rect_max(x, y, w, h, f) >= 0,
    decreases w,
{
    if w > 0 {
        lemma_rect_max_nonneg(x, y, w - 1, h, f);
    }
}

/// The score of a gene with no penalty: its value times its gold factor and
/// best multiplier, plus half its value.
pub open spec fn legal_gene_score(plot: &Plot, g: Gene) -> int {
    let v = (g.value as i32) as int;
    v * (if g.gold { 2int } else { 1int }) * plot.best_multiplier(g) + v / 2
}

/// Sum of the penalty-free scores of the placed genes among the first `n`.
pub open spec fn legal_total(plot: &Plot, genes: Seq<Gene>, n: int) -> int
    decreases n,
{
    if n <= 0 {
        0
    } else {
        legal_total(plot, genes, n - 1) + if genes[n - 1].placed { legal_gene_score(plot, genes[n - 1]) } else { 0 }
    }
}

/// With every cell usable and none taken, a gene's score does not depend on
/// the penalty settings, and when it exists it is `v * gold * m + v / 2`.
proof fn lemma_penalty_free_score(v: int, area: int, m: int, cfg: Config, gold: int)
    requires
        area > 0,
        v >= 0,
        m >= 0,
        gold == 1 || gold == 2,
    ensures
        score_with_gold(v, area, area, 0, m, cfg, gold) == (
            if fits_i32(v * area) && fits_i32(v * gold) && fits_i32(v * gold * m)
                && fits_i32(v * gold * m * area) && fits_i32(v * gold * m * area + (v * area) / 2)
            { Some(v * gold * m + v / 2) } else { None }),
{
    let base = v * gold * m;
    assert(v * area >= 0 && base >= 0 && base * area >= 0) by (nonlinear_arith)
        requires v >= 0, area > 0, m >= 0, gold >= 1, base == v * gold * m;
    let t = (v * area) / 2;
    let rt = (v * area) % 2;
    let q = v / 2;
    let sv = v % 2;
    vstd::arithmetic::div_mod::lemma_fundamental_div_mod(v, 2);
    vstd::arithmetic::div_mod::lemma_fundamental_div_mod(v * area, 2);
    assert(q * area <= t < q * area + area) by (nonlinear_arith)
        requires
            v == 2 * q + sv,
            0 <= sv < 2,
            v * area == 2 * t + rt,
            0 <= rt < 2,
            area > 0;
    assert(base * area + t == (base + q) * area + (t - q * area)) by (nonlinear_arith);
    vstd::arithmetic::div_mod::lemma_fundamental_div_mod_converse(base * area + t, area, base + q, t - q * area);
    assert(trunc_div(v * area, 2) == t);
    assert((area - area) * v == 0);
    assert(0 * v * (cfg.outside_penalty_multiplier as int) == 0) by (nonlinear_arith);
    assert(0 * v * (cfg.overlap_penalty_multiplier as int) == 0) by (nonlinear_arith);
    let pm = if m >= 1 { m } else { 1 };
    assert(0 * v * (cfg.outside_penalty_multiplier as int) * pm == 0) by (nonlinear_arith);
    assert(0 * v * (cfg.overlap_penalty_multiplier as int) * pm == 0) by (nonlinear_arith);
    assert(trunc_div(base * area + t, area) == base + q);
}

/// Running fitness of a legal layout, for two settings.
proof fn lemma_legal_running_fitness(plot: &Plot, cfg: Config, other: Config, genes: Seq<Gene>, n: int)
    requires
        plot.wf(),
        plot.layout_legal(genes),
        forall|j: int| 0 <= j < genes.len() ==> (#[trigger] genes[j]).value <= i32::MAX,
        0 <= n <= genes.len(),
    ensures
        plot.fitness_after(cfg, genes, n) == plot.fitness_after(other, genes, n),
        plot.fitness_after(cfg, genes, n) matches Some(f) ==> f == legal_total(plot, genes, n),
    decreases n,
{
    if n > 0 {
        lemma_legal_running_fitness(plot, cfg, other, genes, n - 1);
        let g = genes[n - 1];
        if g.placed {
            law_legal_layout_has_no_penalty(plot, cfg, genes, n - 1);
            law_legal_layout_has_no_penalty(plot, other, genes, n - 1);
            let area = g.span_w() * g.span_h();
            let v = (g.value as i32) as int;
            assert(v == g.value);
            let gold: int = if g.gold { 2 } else { 1 };
            let m = plot.best_multiplier(g);
            lemma_rect_max_nonneg(g.x as int, g.y as int, g.span_w(), g.span_h(), plot.counted_multiplier());
            assert(area >= 0) by (nonlinear_arith)
                requires area == g.span_w() * g.span_h(), g.span_w() >= 0, g.span_h() >= 0;
            if area > 0 {
                lemma_penalty_free_score(v, area, m, cfg, gold);
                lemma_penalty_free_score(v, area, m, other, gold);
            }
        }
    }
}

/// A legal layout whose values are values of `i32` scores the same under
/// any penalty settings, and when it has a score, that score is the sum over
/// its placed genes of value times gold factor times best multiplier plus
/// half the value.
pub proof fn law_legal_layout_fitness(plot: &Plot, cfg: Config, other: Config, genes: Seq<Gene>)
    requires
        plot.wf(),
        plot.layout_legal(genes),
        forall|j: int| 0 <= j < genes.len() ==> (#[trigger] genes[j]).value <= i32::MAX,
    ensures
        plot.layout_fitness(cfg, genes) == plot.layout_fitness(other, genes),
        plot.layout_fitness(cfg, genes) matches Some(f) ==> f == legal_total(plot, genes, genes.len() as int),
{
    lemma_legal_running_fitness(plot, cfg, other, genes, genes.len() as int);
}

/// Rounding toward zero keeps order for a positive divisor.
proof fn lemma_trunc_div_monotone(a: int, b: int, d: int)
    requires
        a <= b,
        d > 0,
    ensures
        trunc_div(a, d) <= trunc_div(b, d),
{
    if a >= 0 {
        vstd::arithmetic::div_mod::lemma_div_is_ordered(a, b, d);
    } else if b >= 0 {
        vstd::arithmetic::div_mod::lemma_div_pos_is_pos(-a, d);
        vstd::arithmetic::div_mod::lemma_div_pos_is_pos(b, d);
    } else {
        vstd::arithmetic::div_mod::lemma_div_is_ordered(-b, -a, d);
    }
}

/// With a value that is not negative, higher penalty multipliers never give a higher score.
proof fn lemma_score_monotone(v: int, area: int, good: int, overlap: int, m: int, cfg: Config, higher: Config, gold: int)
    requires
        v >= 0,
        0 <= good <= area,
        overlap >= 0,
        cfg.outside_penalty_multiplier <= higher.outside_penalty_multiplier,
        cfg.overlap_penalty_multiplier <= higher.overlap_penalty_multiplier,
        score_with_gold(v, area, good, overlap, m, cfg, gold) is Some,
        score_with_gold(v, area, good, overlap, m, higher, gold) is Some,
    ensures
        score_with_gold(v, area, good, overlap, m, higher, gold)->0 <= score_with_gold(v, area, good, overlap, m, cfg, gold)->0,
{
    let out = area - good;
    let pm = if m >= 1 { m } else { 1 };
    let o1 = cfg.outside_penalty_multiplier as int;
    let o2 = higher.outside_penalty_multiplier as int;
    let p1 = cfg.overlap_penalty_multiplier as int;
    let p2 = higher.overlap_penalty_multiplier as int;
    assert(out * v * o1 * pm <= out * v * o2 * pm) by (nonlinear_arith)
        requires out >= 0, v >= 0, pm >= 1, o1 <= o2;
    assert(overlap * v * p1 * pm <= overlap * v * p2 * pm) by (nonlinear_arith)
        requires overlap >= 0, v >= 0, pm >= 1, p1 <= p2;
    let base = v * gold * m;
    let tb = trunc_div(v * good, 2);
    lemma_trunc_div_monotone(
        base * area + tb - out * v * o2 * pm - overlap * v * p2 * pm,
        base * area + tb - out * v * o1 * pm - overlap * v * p1 * pm,
        area,
    );
}

/// Running fitness under higher penalty multipliers, where both exist.
proof fn lemma_running_monotone(plot: &Plot, cfg: Config, higher: Config, genes: Seq<Gene>, n: int)
    requires
        plot.wf(),
        forall|j: int| 0 <= j < genes.len() ==> (#[trigger] genes[j]).value <= i32::MAX,
        cfg.outside_penalty_multiplier <= higher.outside_penalty_multiplier,
        cfg.overlap_penalty_multiplier <= higher.overlap_penalty_multiplier,
        0 <= n <= genes.len(),
        plot.fitness_after(cfg, genes, n) is Some,
        plot.fitness_after(higher, genes, n) is Some,
    ensures
        plot.fitness_after(higher, genes, n)->0 <= plot.fitness_after(cfg, genes, n)->0,
    decreases n,
{
    if n > 0 {
        lemma_running_monotone(plot, cfg, higher, genes, n - 1);
        let g = genes[n - 1];
        if g.placed {
            let occ = plot.occupancy_after(genes, n - 1);
            let v = (g.value as i32) as int;
            assert(v == g.value);
            lemma_rect_count_bound(g.x as int, g.y as int, g.span_w(), g.span_h(), plot.usable_pred());
            lemma_score_monotone(
                v,
                g.span_w() * g.span_h(),
                plot.good_cells(g) as int,
                plot.overlap_cells(g, occ) as int,
                plot.best_multiplier(g),
                cfg,
                higher,
                if g.gold { 2 } else { 1 },
            );
        }
    }
}

/// With values that are values of `i32`, raising a penalty multiplier never
/// raises a layout's fitness (where the layout has a fitness under both settings).
pub proof fn law_penalties_never_raise_fitness(plot: &Plot, cfg: Config, higher: Config, genes: Seq<Gene>)
    requires
        plot.wf(),
        forall|j: int| 0 <= j < genes.len() ==> (#[trigger] genes[j]).value <= i32::MAX,
        cfg.outside_penalty_multiplier <= higher.outside_penalty_multiplier,
        cfg.overlap_penalty_multiplier <= higher.overlap_penalty_multiplier,
        plot.layout_fitness(cfg, genes) is Some,
        plot.layout_fitness(higher, genes) is Some,
    ensures
        plot.layout_fitness(higher, genes)->0 <= plot.layout_fitness(cfg, genes)->0,
{
    lemma_running_monotone(plot, cfg, higher, genes, genes.len() as int);
}

/// Two footprints share a cell.
pub open spec fn footprints_meet(a: Gene, b: Gene) -> bool {
    exists|cx: int, cy: int| a.covers(cx, cy) && #[trigger] b.covers(cx, cy)
}

/// A placed gene of the layout lies on buildable ground by itself.
pub open spec fn alone_legal(plot: &Plot, g: Gene) -> bool {
    plot.legal_spot(g.x as int, g.y as int, g.span_w(), g.span_h())
}

/// Legality stated without order: among the first `n` genes, every placed one
/// lies on buildable ground, and no two placed ones share a cell.
pub open spec fn legal_without_order(plot: &Plot, genes: Seq<Gene>, n: int) -> bool {
    &&& forall|i: int| 0 <= i < n && (#[trigger] genes[i]).placed ==> alone_legal(plot, genes[i])
    &&& forall|i: int, j: int| 0 <= i < n && 0 <= j < n && i != j && (#[trigger] genes[i]).placed && (#[trigger] genes[j]).placed
        ==> !footprints_meet(genes[i], genes[j])
}

/// An earlier placed gene among the first `n` covers cell `(cx, cy)`.
pub open spec fn covered_before(genes: Seq<Gene>, n: int, cx: int, cy: int) -> bool {
    exists|j: int| 0 <= j < n && genes[j].placed && #[trigger] genes[j].covers(cx, cy)
}

/// Marking a rectangle that lies within the plot's width sets exactly the
/// grid indices of the on-plot cells it covers.
proof fn lemma_rect_hits_cell(plot: &Plot, x: int, y: int, w: int, h: int, cx: int, cy: int)
    requires
        0 <= x,
        0 <= y,
        x + w <= plot.width,
        plot.in_plot(cx, cy),
    ensures
        plot.rect_hits(plot.cell_index(cx, cy), x, y, w, h) == (x <= cx < x + w && y <= cy < y + h),
{
    let width = plot.width as int;
    let k = plot.cell_index(cx, cy);
    crate::fitness::lemma_index_cell(width, cx, cy);
    if plot.rect_hits(k, x, y, w, h) {
        let (i, j) = choose|i: int, j: int| 0 <= i < w && 0 <= j < h && k == #[trigger] plot.rect_index(x, y, i, j);
        crate::fitness::lemma_index_cell(width, x + i, y + j);
    }
    if x <= cx < x + w && y <= cy < y + h {
        assert(k == plot.rect_index(x, y, cx - x, cy - y));
    }
}

/// While the layout so far is legal, its marks are exactly the cells that
/// earlier placed genes cover.
proof fn lemma_marks_are_covered_cells(plot: &Plot, genes: Seq<Gene>, n: int)
    requires
        plot.wf(),
        0 <= n <= genes.len(),
        plot.layout_legal_upto(genes, n),
    ensures
        plot.layout_marks(genes, n).len() == plot.cell_count(),
        forall|cx: int, cy: int| plot.in_plot(cx, cy) ==>
            plot.layout_marks(genes, n)[plot.cell_index(cx, cy)] == #[trigger] covered_before(genes, n, cx, cy),
    decreases n,
{
    if n > 0 {
        lemma_marks_are_covered_cells(plot, genes, n - 1);
        let g = genes[n - 1];
        let prev = plot.layout_marks(genes, n - 1);
        assert(plot.layout_legal_upto(genes, n - 1));
        if g.placed {
            assert(plot.clean_fit(g.x as int, g.y as int, g.span_w(), g.span_h(), prev));
            assert(plot.layout_marks(genes, n) == plot.mark_rect(prev, g.x as int, g.y as int, g.span_w(), g.span_h()));
        } else {
            assert(plot.layout_marks(genes, n) == prev);
        }
        assert forall|cx: int, cy: int| plot.in_plot(cx, cy) implies
            plot.layout_marks(genes, n)[plot.cell_index(cx, cy)] == #[trigger] covered_before(genes, n, cx, cy) by {
            crate::plot::lemma_cell_index_bounds(plot.width as int, plot.height as int, cx, cy);
            if g.placed {
                lemma_rect_hits_cell(plot, g.x as int, g.y as int, g.span_w(), g.span_h(), cx, cy);
            }
            if covered_before(genes, n, cx, cy) {
                let j = choose|j: int| 0 <= j < n && genes[j].placed && #[trigger] genes[j].covers(cx, cy);
                if j < n - 1 {
                    assert(covered_before(genes, n - 1, cx, cy));
                }
            }
            if covered_before(genes, n - 1, cx, cy) {
                let j = choose|j: int| 0 <= j < n - 1 && genes[j].placed && #[trigger] genes[j].covers(cx, cy);
                assert(0 <= j < n && genes[j].placed && genes[j].covers(cx, cy));
            }
            if g.placed && g.covers(cx, cy) {
                assert(genes[n - 1].covers(cx, cy));
            }
        }
    } else {
        assert forall|cx: int, cy: int| plot.in_plot(cx, cy) implies
            plot.layout_marks(genes, n)[plot.cell_index(cx, cy)] == #[trigger] covered_before(genes, n, cx, cy) by {
            crate::plot::lemma_cell_index_bounds(plot.width as int, plot.height as int, cx, cy);
        }
    }
}

/// The legality check, gene by gene against the cells taken so far, is the
/// same as legality stated without order.
proof fn lemma_legal_upto_without_order(plot: &Plot, genes: Seq<Gene>, n: int)
    requires
        plot.wf(),
        0 <= n <= genes.len(),
    ensures
        plot.layout_legal_upto(genes, n) == legal_without_order(plot, genes, n),
    decreases n,
{
    if n > 0 {
        lemma_legal_upto_without_order(plot, genes, n - 1);
        let g = genes[n - 1];
        let x = g.x as int;
        let y = g.y as int;
        let w = g.span_w();
        let h = g.span_h();
        if legal_without_order(plot, genes, n) {
            assert(legal_without_order(plot, genes, n - 1));
            lemma_marks_are_covered_cells(plot, genes, n - 1);
            if g.placed {
                let marks = plot.layout_marks(genes, n - 1);
                assert(alone_legal(plot, genes[n - 1]));
                assert forall|cx: int, cy: int| x <= cx < x + w && y <= cy < y + h implies #[trigger] plot.cell_free(marks, cx, cy) by {
                    assert(plot.usable(cx, cy));
                    if covered_before(genes, n - 1, cx, cy) {
                        let j = choose|j: int| 0 <= j < n - 1 && genes[j].placed && #[trigger] genes[j].covers(cx, cy);
                        assert(genes[n - 1].covers(cx, cy));
                        assert(footprints_meet(genes[j], genes[n - 1]));
                    }
                }
            }
        }
        if plot.layout_legal_upto(genes, n) {
            lemma_marks_are_covered_cells(plot, genes, n - 1);
            let marks = plot.layout_marks(genes, n - 1);
            assert forall|i: int| 0 <= i < n && (#[trigger] genes[i]).placed implies alone_legal(plot, genes[i]) by {
                if i == n - 1 {
                    assert forall|cx: int, cy: int| x <= cx < x + w && y <= cy < y + h implies #[trigger] plot.usable(cx, cy) by {
                        assert(plot.cell_free(marks, cx, cy));
                    }
                }
            }
            assert forall|i: int, j: int| 0 <= i < n && 0 <= j < n && i != j && (#[trigger] genes[i]).placed && (#[trigger] genes[j]).placed
                implies !footprints_meet(genes[i], genes[j]) by {
                if i == n - 1 || j == n - 1 {
                    let other = if i == n - 1 { j } else { i };
                    if footprints_meet(genes[i], genes[j]) {
                        let (cx, cy) = choose|cx: int, cy: int| genes[i].covers(cx, cy) && #[trigger] genes[j].covers(cx, cy);
                        assert(g.covers(cx, cy));
                        assert(plot.cell_free(marks, cx, cy));
                        assert(genes[other].covers(cx, cy));
                        assert(covered_before(genes, n - 1, cx, cy));
                    }
                }
            }
        }
    }
}

/// A value occurring at least twice in a sequence does so at two different positions.
proof fn lemma_two_positions(s: Seq<Gene>, a: Gene)
    requires
        s.to_multiset().count(a) >= 2,
    ensures
        exists|i: int, j: int| 0 <= i < s.len() && 0 <= j < s.len() && i != j && s[i] == a && s[j] == a,
{
    assert(s.contains(a));
    let i = choose|i: int| 0 <= i < s.len() && s[i] == a;
    let r = s.remove(i);
    assert(r.to_multiset() =~= s.to_multiset().remove(a));
    assert(r.to_multiset().count(a) >= 1);
    assert(r.contains(a));
    let j0 = choose|j: int| 0 <= j < r.len() && r[j] == a;
    let j = if j0 < i { j0 } else { j0 + 1 };
    assert(s[j] == a);
}

/// Legality stated without order carries over to a rearrangement of the layout.
proof fn lemma_without_order_rearranged(plot: &Plot, s: Seq<Gene>, t: Seq<Gene>)
    requires
        s.to_multiset() == t.to_multiset(),
        legal_without_order(plot, s, s.len() as int),
    ensures
        legal_without_order(plot, t, t.len() as int),
{
    assert(s.len() == s.to_multiset().len());
    assert(t.len() == t.to_multiset().len());
    assert forall|i: int| 0 <= i < t.len() && (#[trigger] t[i]).placed implies alone_legal(plot, t[i]) by {
        assert(t.contains(t[i]));
        assert(t.to_multiset().count(t[i]) > 0);
        assert(s.contains(t[i]));
        let k = choose|k: int| 0 <= k < s.len() && s[k] == t[i];
        assert(s[k].placed);
    }
    assert forall|i: int, j: int| 0 <= i < t.len() && 0 <= j < t.len() && i != j && (#[trigger] t[i]).placed && (#[trigger] t[j]).placed
        implies !footprints_meet(t[i], t[j]) by {
        let a = t[i];
        let b = t[j];
        if a == b {
            assert(t.to_multiset().count(a) >= 2) by {
                let m = t.to_multiset();
                let r = t.remove(i);
                assert(r.to_multiset() =~= m.remove(a));
                let jj = if j < i { j } else { j - 1 };
                assert(r[jj] == a);
                assert(r.contains(a));
                assert(t.contains(a));
                assert(m.count(a) > 0);
                assert(r.to_multiset().count(a) > 0);
                assert(m.remove(a).count(a) == m.count(a) - 1);
            }
            lemma_two_positions(s, a);
            let (p, q) = choose|p: int, q: int| 0 <= p < s.len() && 0 <= q < s.len() && p != q && s[p] == a && s[q] == a;
            assert(s[p].placed && s[q].placed);
        } else {
            assert(t.contains(a));
            assert(t.to_multiset().count(a) > 0);
            assert(s.contains(a));
            assert(t.contains(b));
            assert(t.to_multiset().count(b) > 0);
            assert(s.contains(b));
            let p = choose|p: int| 0 <= p < s.len() && s[p] == a;
            let q = choose|q: int| 0 <= q < s.len() && s[q] == b;
            assert(s[p].placed && s[q].placed);
        }
    }
}

/// Legality ignores the order of genes and ignores unplaced genes: two
/// layouts whose placed genes are the same, counted with repetition, are
/// both legal or both not.
pub proof fn law_legality_ignores_order(plot: &Plot, genes: Seq<Gene>, other: Seq<Gene>)
    requires
        plot.wf(),
        placed_only(genes).to_multiset() == placed_only(other).to_multiset(),
    ensures
        plot.layout_legal(genes) == plot.layout_legal(other),
{
    let cfg = Config { outside_penalty_multiplier: 0, overlap_penalty_multiplier: 0, elite_count: 0 };
    law_unplaced_genes_do_not_count(plot, cfg, genes);
    law_unplaced_genes_do_not_count(plot, cfg, other);
    let p = placed_only(genes);
    let q = placed_only(other);
    lemma_legal_upto_without_order(plot, p, p.len() as int);
    lemma_legal_upto_without_order(plot, q, q.len() as int);
    if legal_without_order(plot, p, p.len() as int) {
        lemma_without_order_rearranged(plot, p, q);
    }
    if legal_without_order(plot, q, q.len() as int) {
        lemma_without_order_rearranged(plot, q, p);
    }
}

/// Legality of a layout, stated without order: every placed gene lies on
/// buildable ground of the plot, and no two placed genes share a cell.
pub proof fn law_legality_without_order(plot: &Plot, genes: Seq<Gene>)
    requires
        plot.wf(),
    ensures
        plot.layout_legal(genes) == legal_without_order(plot, genes, genes.len() as int),
{
    lemma_legal_upto_without_order(plot, genes, genes.len() as int);
}

/// Once a rectangle within the plot is marked, no rectangle sharing a cell
/// with it fits cleanly.
pub proof fn law_marked_rect_blocks_overlaps(
    plot: &Plot,
    occ: Seq<bool>,
    x1: int, y1: int, w1: int, h1: int,
    x: int, y: int, w: int, h: int,
    cx: int, cy: int,
)
    requires
        0 <= x1,
        0 <= y1,
        x1 + w1 <= plot.width,
        y1 + h1 <= plot.height,
        0 <= x,
        0 <= y,
        occ.len() >= plot.cell_count(),
        x1 <= cx < x1 + w1 && y1 <= cy < y1 + h1,
        x <= cx < x + w && y <= cy < y + h,
    ensures
        !plot.clean_fit(x, y, w, h, plot.mark_rect(occ, x1, y1, w1, h1)),
{
    let marked = plot.mark_rect(occ, x1, y1, w1, h1);
    crate::plot::lemma_cell_index_bounds(plot.width as int, plot.height as int, cx, cy);
    lemma_rect_hits_cell(plot, x1, y1, w1, h1, cx, cy);
    assert(marked[plot.cell_index(cx, cy)]);
    assert(!plot.cell_free(marked, cx, cy));
}

/// Freeing cells, or shrinking the rectangle inside itself, never stops a
/// clean fit.
pub proof fn law_clean_fit_monotone(
    plot: &Plot,
    occ: Seq<bool>,
    freer: Seq<bool>,
    x: int, y: int, w: int, h: int,
    x2: int, y2: int, w2: int, h2: int,
)
    requires
        0 <= x,
        0 <= y,
        freer.len() == occ.len(),
        occ.len() >= plot.cell_count(),
        forall|k: int| 0 <= k < occ.len() && #[trigger] freer[k] ==> occ[k],
        x <= x2,
        y <= y2,
        x2 + w2 <= x + w,
        y2 + h2 <= y + h,
        plot.clean_fit(x, y, w, h, occ),
    ensures
        plot.clean_fit(x, y, w, h, freer),
        plot.clean_fit(x2, y2, w2, h2, occ),
{
    assert forall|cx: int, cy: int| x <= cx < x + w && y <= cy < y + h implies #[trigger] plot.cell_free(freer, cx, cy) by {
        assert(plot.cell_free(occ, cx, cy));
        crate::plot::lemma_cell_index_bounds(plot.width as int, plot.height as int, cx, cy);
        if freer[plot.cell_index(cx, cy)] {
            assert(occ[plot.cell_index(cx, cy)]);
        }
    }
    assert forall|cx: int, cy: int| x2 <= cx < x2 + w2 && y2 <= cy < y2 + h2 implies #[trigger] plot.cell_free(occ, cx, cy) by {
        assert(plot.cell_free(occ, cx, cy));
    }
}

/// Every cell of the rectangle has `f` at most the rectangle's maximum, and
/// the maximum is 0 or the value of `f` at one of its cells.
proof fn lemma_rect_max_is_max(x: int, y: int, w: int, h: int, f: spec_fn(int, int) -> int)
    ensures
        forall|cx: int, cy: int| x <= cx < x + w && y <= cy < y + h ==> #[trigger] f(cx, cy) <= rect_max(x, y, w, h, f),
        rect_max(x, y, w, h, f) == 0
            || exists|cx: int, cy: int| x <= cx < x + w && y <= cy < y + h && #[trigger] f(cx, cy) == rect_max(x, y, w, h, f),
    decreases w,
{
    if w > 0 {
        lemma_rect_max_is_max(x, y, w - 1, h, f);
        lemma_column_max_is_max(x + w - 1, y, h, f);
        let a = rect_max(x, y, w - 1, h, f);
        let b = column_max(x + w - 1, y, h, f);
        if a < b && b != 0 {
            let cy = choose|cy: int| y <= cy < y + h && #[trigger] f(x + w - 1, cy) == b;
            assert(f(x + w - 1, cy) == rect_max(x, y, w, h, f));
        }
        if a >= b && a != 0 {
            let (cx, cy) = choose|cx: int, cy: int| x <= cx < x + w - 1 && y <= cy < y + h && #[trigger] f(cx, cy) == a;
            assert(f(cx, cy) == rect_max(x, y, w, h, f));
        }
        assert forall|cx: int, cy: int| x <= cx < x + w && y <= cy < y + h implies #[trigger] f(cx, cy) <= rect_max(x, y, w, h, f) by {
            if cx == x + w - 1 {
                assert(f(x + w - 1, cy) <= b);
            }
        }
    }
}

proof fn lemma_column_max_is_max(cx: int, y: int, h: int, f: spec_fn(int, int) -> int)
    ensures
        forall|cy: int| y <= cy < y + h ==> #[trigger] f(cx, cy) <= column_max(cx, y, h, f),
        column_max(cx, y, h, f) == 0 || exists|cy: int| y <= cy < y + h && #[trigger] f(cx, cy) == column_max(cx, y, h, f),
    decreases h,
{
    if h > 0 {
        lemma_column_max_is_max(cx, y, h - 1, f);
        let a = column_max(cx, y, h - 1, f);
        let b = f(cx, y + h - 1);
        if a >= b && a != 0 {
            let cy = choose|cy: int| y <= cy < y + h - 1 && #[trigger] f(cx, cy) == a;
            assert(f(cx, cy) == column_max(cx, y, h, f));
        }
    }
}

/// The multiplier a placed gene is scored with is the largest multiplier of
/// the usable cells under its footprint: no usable cell under it has a larger
/// one, it is the multiplier of one of them when there is one, and it is 0
/// when there is none.
pub proof fn law_best_multiplier_is_the_largest(plot: &Plot, g: Gene)
    ensures
        forall|cx: int, cy: int| g.covers(cx, cy) && #[trigger] plot.usable(cx, cy)
            ==> plot.multiplier_at(cx, cy) <= plot.best_multiplier(g),
        (exists|cx: int, cy: int| g.covers(cx, cy) && #[trigger] plot.usable(cx, cy))
            ==> exists|cx: int, cy: int| g.covers(cx, cy) && #[trigger] plot.usable(cx, cy)
                && plot.multiplier_at(cx, cy) == plot.best_multiplier(g),
        !(exists|cx: int, cy: int| g.covers(cx, cy) && #[trigger] plot.usable(cx, cy)) ==> plot.best_multiplier(g) == 0,
{
    let f = plot.counted_multiplier();
    let x = g.x as int;
    let y = g.y as int;
    let w = g.span_w();
    let h = g.span_h();
    lemma_rect_max_is_max(x, y, w, h, f);
    let m = plot.best_multiplier(g);
    assert forall|cx: int, cy: int| g.covers(cx, cy) && #[trigger] plot.usable(cx, cy)
        implies plot.multiplier_at(cx, cy) <= m by {
        assert(f(cx, cy) <= m);
    }
    if m != 0 {
        let (cx, cy) = choose|cx: int, cy: int| x <= cx < x + w && y <= cy < y + h && #[trigger] f(cx, cy) == m;
        assert(plot.usable(cx, cy));
        assert(g.covers(cx, cy));
    } else {
        assert forall|cx: int, cy: int| g.covers(cx, cy) implies !#[trigger] plot.usable(cx, cy) by {
            if plot.usable(cx, cy) {
                assert(f(cx, cy) <= m);
                assert(plot.multiplier_at(cx, cy) >= 0);
            }
        }
    }
}

/// One mutation step changes only placement and position: without the flip
/// the gene stays as it is; with it, its placement toggles, and a gene that
/// thereby gets placed with a drawn position lands exactly at that position;
/// in every other case its position stays.
pub proof fn law_mutation_step(g: Gene, flip: bool, relocate: Option<(u8, u8)>)
    ensures
        ({
            let r = g.mutated(flip, relocate);
            &&& r.id == g.id && r.w == g.w && r.h == g.h && r.value == g.value
            &&& r.rotated == g.rotated && r.gold == g.gold
            &&& !flip ==> r == g
            &&& flip ==> r.placed == !g.placed
            &&& relocate matches Some(p) ==> (flip && !g.placed ==> r.x == p.0 && r.y == p.1)
            &&& !(flip && !g.placed && relocate is Some) ==> r.x == g.x && r.y == g.y
        }),
{
}

/// Number of generator instances that `gens` lists.
pub open spec fn instance_total(gens: Seq<(GeneratorData, u8)>) -> nat
    decreases gens.len(),
{
    if gens.len() == 0 {
        0
    } else {
        instance_total(gens.drop_last()) + gens.last().1 as nat
    }
}

/// `g` is a fresh instance of generator `d`: its kind, footprint (`w` the
/// generator's width, `h` its height), value and gold flag, unrotated and
/// unplaced at the origin.
pub open spec fn fresh_instance_of(g: Gene, d: GeneratorData) -> bool {
    &&& g.id == d.id
    &&& g.w == d.width
    &&& g.h == d.height
    &&& g.value == d.base_value
    &&& g.gold == d.gold
    &&& !g.rotated
    &&& !g.placed
    &&& g.x == 0
    &&& g.y == 0
}

/// A fresh chromosome has one gene per generator instance, in the order of
/// the list: the genes at positions `instance_total(gens.take(i))` up to
/// `instance_total(gens.take(i + 1))` are fresh instances of generator `i`.
pub proof fn law_fresh_genes_come_from_generators(gens: Seq<(GeneratorData, u8)>)
    ensures
        initial_genes(gens).len() == instance_total(gens),
        forall|i: int, j: int| 0 <= i < gens.len()
            && instance_total(gens.take(i)) <= j < instance_total(gens.take(i + 1))
            ==> fresh_instance_of(#[trigger] initial_genes(gens)[j], #[trigger] gens[i].0),
    decreases gens.len(),
{
    if gens.len() > 0 {
        let rest = gens.drop_last();
        law_fresh_genes_come_from_generators(rest);
        let n = gens.len() - 1;
        assert(gens.take(n) =~= rest);
        assert(gens.take(n + 1) =~= gens);
        let prefix = initial_genes(rest);
        let (d, count) = gens.last();
        assert forall|i: int, j: int| 0 <= i < gens.len()
            && instance_total(gens.take(i)) <= j < instance_total(gens.take(i + 1))
            implies fresh_instance_of(#[trigger] initial_genes(gens)[j], #[trigger] gens[i].0) by {
            if i < n {
                assert(gens.take(i) =~= rest.take(i));
                assert(gens.take(i + 1) =~= rest.take(i + 1));
                lemma_instance_total_prefix(rest, i + 1);
                assert(initial_genes(gens)[j] == prefix[j]);
                assert(rest[i] == gens[i]);
            } else {
                assert(initial_genes(gens)[j] == Gene::initial(d));
            }
        }
    }
}

/// The instances of a prefix of the list are no more than those of the whole list.
proof fn lemma_instance_total_prefix(gens: Seq<(GeneratorData, u8)>, i: int)
    requires
        0 <= i <= gens.len(),
    ensures
        instance_total(gens.take(i)) <= instance_total(gens),
    decreases gens.len(),
{
    if i < gens.len() {
        assert(gens.drop_last().take(i) =~= gens.take(i));
        lemma_instance_total_prefix(gens.drop_last(), i);
    } else {
        assert(gens.take(i) =~= gens);
    }
}

} // verus!
