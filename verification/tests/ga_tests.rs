use ga_plot::browse::next_shown_index;
use ga_plot::chromosome::Chromosome;
use ga_plot::gene::Gene;
use ga_plot::generator::{Config, GeneratorData};
use ga_plot::plot::Plot;
use ga_plot::population::{rank_by_fitness, Population};
use rand::rngs::StdRng;
use rand::SeedableRng;

fn gene(x: u8, y: u8, w: u8, h: u8, value: u32) -> Gene {
    Gene { id: 1, x, y, w, h, value, rotated: false, placed: true, gold: false }
}

/// 4 x 2 plot: a buildable 2 x 2 subplot with multiplier 3, then an unbuildable one.
fn half_plot() -> Plot {
    Plot::new(2, (2, 1), vec![3, 0])
}

fn config(outside: i32, overlap: i32, elites: usize) -> Config {
    Config { outside_penalty_multiplier: outside, overlap_penalty_multiplier: overlap, elite_count: elites }
}

fn chrom(genes: Vec<Gene>) -> Chromosome {
    Chromosome { genes, fitness: 0 }
}

#[test]
fn generator_data_new_keeps_fields() {
    let g = GeneratorData::new(2, 2000, 2, 3, true);
    assert_eq!((g.id, g.base_value, g.width, g.height, g.gold), (2, 2000, 2, 3, true));
}

#[test]
fn gene_from_generator_is_unplaced() {
    let g = Gene::from(GeneratorData::new(5, 1000, 2, 3, true));
    assert_eq!((g.id, g.x, g.y, g.w, g.h, g.value), (5, 0, 0, 2, 3, 1000));
    assert!(!g.rotated && !g.placed && g.gold);
}

#[test]
fn plot_new_computes_dimensions() {
    let p = Plot::new(7, (3, 4), vec![0, 0, 4, 3, 3, 3, 2, 2, 2, 1, 1, 1]);
    assert_eq!((p.width, p.height), (21, 28));
    assert_eq!(p.multiplier_of(14, 0), 4);
    assert_eq!(p.multiplier_of(20, 27), 1);
    assert_eq!(p.multiplier_of(0, 7), 3);
}

#[test]
fn fits_cleanly_cases() {
    let p = half_plot();
    let mut occ = vec![false; 8];
    assert!(p.fits_cleanly(0, 0, 2, 2, &occ));
    assert!(!p.fits_cleanly(1, 0, 2, 2, &occ)); // reaches the unbuildable subplot
    assert!(!p.fits_cleanly(3, 0, 2, 1, &occ)); // leaves the plot
    assert!(!p.fits_cleanly(0, 1, 1, 2, &occ)); // leaves the plot downwards
    occ[5] = true; // cell (1, 1)
    assert!(!p.fits_cleanly(0, 0, 2, 2, &occ));
    assert!(p.fits_cleanly(0, 0, 1, 2, &occ));
    // an empty footprint fits wherever its corner is within bounds
    assert!(p.fits_cleanly(4, 2, 0, 0, &occ));
}

#[test]
fn mark_occupied_marks_exactly_the_rectangle() {
    let p = Plot::new(1, (4, 3), vec![1; 12]);
    let mut occ = vec![false; 12];
    p.mark_occupied(1, 1, 2, 2, &mut occ);
    let expected: Vec<bool> = (0..12).map(|k| matches!(k, 5 | 6 | 9 | 10)).collect();
    assert_eq!(occ, expected);
}

#[test]
fn marked_rectangle_no_longer_fits() {
    let p = Plot::new(1, (4, 3), vec![1; 12]);
    let mut occ = vec![false; 12];
    assert!(p.fits_cleanly(1, 0, 3, 2, &occ));
    p.mark_occupied(1, 0, 3, 2, &mut occ);
    assert!(!p.fits_cleanly(1, 0, 3, 2, &occ));
}

#[test]
fn legal_positions_are_listed_row_by_row() {
    // 3 x 2 plot of 1-cell subplots; the middle of the top row is unbuildable
    let p = Plot::new(1, (3, 2), vec![1, 0, 1, 1, 1, 1]);
    assert_eq!(p.legal_positions(1, 1), vec![(0, 0), (2, 0), (0, 1), (1, 1), (2, 1)]);
    assert_eq!(p.legal_positions(2, 1), vec![(0, 1), (1, 1)]);
    assert_eq!(p.legal_positions(1, 2), vec![(0, 0), (2, 0)]);
    assert_eq!(p.legal_positions(3, 3), vec![]);
}

#[test]
fn random_legal_position_picks_a_legal_corner() {
    let p = Plot::new(1, (3, 2), vec![1, 0, 1, 1, 1, 1]);
    let mut rng = StdRng::seed_from_u64(7);
    let legal = p.legal_positions(1, 2);
    for _ in 0..50 {
        let pos = p.random_legal_position(&mut rng, 1, 2);
        assert!(legal.contains(&pos));
    }
    // several draws reach more than one candidate
    let mut seen = std::collections::HashSet::new();
    for _ in 0..50 {
        seen.insert(p.random_legal_position(&mut rng, 1, 1));
    }
    assert!(seen.len() > 1);
}

#[test]
fn random_legal_position_without_candidates_is_origin() {
    let p = Plot::new(1, (2, 2), vec![0, 0, 0, 0]);
    let mut rng = StdRng::seed_from_u64(1);
    assert_eq!(p.random_legal_position(&mut rng, 1, 1), (0, 0));
}

#[test]
fn find_legal_position_with_no_tries_is_none() {
    let p = half_plot();
    let occ = vec![false; 8];
    let mut rng = StdRng::seed_from_u64(3);
    assert_eq!(p.find_legal_position(&mut rng, 1, 1, &occ, 0), None);
}

#[test]
fn find_legal_position_finds_the_only_spot() {
    // only corner (0, 0) fits a 2 x 2 footprint cleanly
    let p = half_plot();
    let occ = vec![false; 8];
    let mut rng = StdRng::seed_from_u64(11);
    assert_eq!(p.find_legal_position(&mut rng, 2, 2, &occ, 200), Some((0, 0)));
}

#[test]
fn find_legal_position_results_fit_cleanly() {
    let p = Plot::new(2, (3, 3), vec![1, 0, 2, 3, 1, 0, 1, 1, 1]);
    let mut occ = vec![false; 36];
    occ[14] = true;
    let mut rng = StdRng::seed_from_u64(5);
    for _ in 0..30 {
        if let Some((x, y)) = p.find_legal_position(&mut rng, 2, 1, &occ, 10) {
            assert!(p.fits_cleanly(x, y, 2, 1, &occ));
            assert!(p.legal_positions(2, 1).contains(&(x, y)));
        }
    }
}

#[test]
fn chromosome_is_legal_cases() {
    let p = half_plot();
    let mut unplaced = gene(3, 1, 2, 2, 10);
    unplaced.placed = false;
    assert!(p.chromosome_is_legal(&chrom(vec![unplaced])));
    assert!(p.chromosome_is_legal(&chrom(vec![gene(0, 0, 1, 2, 10), gene(1, 0, 1, 2, 10)])));
    assert!(!p.chromosome_is_legal(&chrom(vec![gene(0, 0, 2, 2, 10), gene(1, 1, 1, 1, 10)])));
    assert!(!p.chromosome_is_legal(&chrom(vec![gene(1, 0, 2, 1, 10)])));
    let mut rotated = gene(0, 0, 1, 3, 10);
    rotated.rotated = true; // lays 3 x 1, into the unbuildable subplot
    assert!(!p.chromosome_is_legal(&chrom(vec![rotated])));
}

#[test]
fn evaluate_single_gene_on_buildable_ground() {
    let p = half_plot();
    let mut c = chrom(vec![gene(0, 0, 2, 2, 10)]);
    // tiebreak 10*4/2 = 20, base 10*1*3 = 30, (30*4 + 20) / 4 = 35
    assert_eq!(p.evaluate_chromosome(&mut c, &config(1, 1, 0)), 35);
    assert_eq!(c.fitness, 35);
}

#[test]
fn evaluate_gold_gene_doubles_base() {
    let p = half_plot();
    let mut g = gene(0, 0, 2, 2, 10);
    g.gold = true;
    let mut c = chrom(vec![g]);
    // base 10*2*3 = 60, (60*4 + 20) / 4 = 65
    assert_eq!(p.evaluate_chromosome(&mut c, &config(1, 1, 0)), 65);
}

#[test]
fn evaluate_overlap_penalised_for_later_gene() {
    let p = half_plot();
    let mut c = chrom(vec![gene(0, 0, 2, 2, 10), gene(0, 0, 2, 2, 10)]);
    // second gene: overlap 4 * 10 * 1 * 3 = 120, (120 + 20 - 120) / 4 = 5
    assert_eq!(p.evaluate_chromosome(&mut c, &config(1, 1, 0)), 40);
}

#[test]
fn evaluate_gene_off_the_plot() {
    let p = half_plot();
    let mut c = chrom(vec![gene(3, 0, 2, 2, 10)]);
    // no usable cell: outside 4 * 10 * 1 * 1 = 40, -40 / 4 = -10
    assert_eq!(p.evaluate_chromosome(&mut c, &config(1, 1, 0)), -10);
}

#[test]
fn evaluate_rounds_toward_zero() {
    let p = half_plot();
    let mut c = chrom(vec![gene(1, 0, 3, 1, 10)]);
    // good 1, out 2, best 3: tiebreak 5, base 30, outside 2*10*2*3 = 120,
    // (90 + 5 - 120) / 3 = -25 / 3 = -8
    assert_eq!(p.evaluate_chromosome(&mut c, &config(2, 1, 0)), -8);
}

#[test]
fn evaluate_value_beyond_i32_wraps() {
    let p = half_plot();
    let mut c = chrom(vec![gene(0, 0, 2, 2, u32::MAX)]);
    // value -1: tiebreak -4/2 = -2, base -3, (-12 - 2) / 4 = -3
    assert_eq!(p.evaluate_chromosome(&mut c, &config(1, 1, 0)), -3);
}

#[test]
fn evaluate_skips_unplaced_genes() {
    let p = half_plot();
    let mut off = gene(3, 0, 2, 2, 10);
    off.placed = false;
    let mut c = chrom(vec![off, gene(0, 0, 2, 2, 10)]);
    assert_eq!(p.evaluate_chromosome(&mut c, &config(1, 1, 0)), 35);
}

#[test]
fn checked_fitness_reports_overflow() {
    let p = half_plot();
    let c = chrom(vec![gene(0, 0, 2, 2, 2_000_000_000)]);
    assert_eq!(p.checked_fitness(&c, &config(1, 1, 0)), None);
    let mut zero_area = gene(0, 0, 0, 2, 10);
    zero_area.placed = true;
    assert_eq!(p.checked_fitness(&chrom(vec![zero_area]), &config(1, 1, 0)), None);
    assert_eq!(p.checked_fitness(&chrom(vec![gene(0, 0, 2, 2, 10)]), &config(1, 1, 0)), Some(35));
}

#[test]
fn legal_layout_scores_without_penalty() {
    let p = Plot::new(2, (2, 2), vec![1, 2, 3, 4]);
    let c = chrom(vec![gene(0, 0, 2, 2, 8), gene(2, 0, 2, 2, 8), gene(0, 2, 4, 2, 8)]);
    assert!(p.chromosome_is_legal(&c));
    // penalties would show for any other multipliers; here each gene scores
    // (8*m*area + 8*area/2) / area = 8*m + 4
    let f = p.checked_fitness(&c, &config(100, 100, 0)).unwrap();
    assert_eq!(f, (8 * 1 + 4) + (8 * 2 + 4) + (8 * 4 + 4));
    assert_eq!(p.checked_fitness(&c, &config(1, 1, 0)), Some(f));
}

#[test]
fn chromosome_new_expands_counts() {
    let gens = vec![
        (GeneratorData::new(1, 1000, 2, 2, false), 3),
        (GeneratorData::new(2, 2000, 2, 3, true), 0),
        (GeneratorData::new(3, 500, 1, 1, false), 2),
    ];
    let c = Chromosome::new(&gens);
    let ids: Vec<u8> = c.genes.iter().map(|g| g.id).collect();
    assert_eq!(ids, vec![1, 1, 1, 3, 3]);
    assert!(c.genes.iter().all(|g| !g.placed && !g.rotated && g.x == 0 && g.y == 0));
    assert_eq!(c.fitness, 0);
}

#[test]
fn fresh_chromosome_is_legal_and_scores_zero() {
    let gens = vec![(GeneratorData::new(1, 1000, 2, 2, false), 10), (GeneratorData::new(2, 2000, 2, 3, false), 5)];
    let p = Plot::new(7, (3, 4), vec![0, 0, 4, 3, 3, 3, 2, 2, 2, 1, 1, 1]);
    let mut c = Chromosome::new(&gens);
    assert!(p.chromosome_is_legal(&c));
    assert_eq!(p.evaluate_chromosome(&mut c, &config(3, 3, 0)), 0);
}

#[test]
fn apply_mutation_cases() {
    let mut g = gene(1, 1, 2, 2, 10);
    g.placed = false;
    assert_eq!(format!("{:?}", g.apply_mutation(false, Some((3, 3)))), format!("{:?}", g));
    let placed = g.apply_mutation(true, None);
    assert!(placed.placed && placed.x == 1 && placed.y == 1);
    let moved = g.apply_mutation(true, Some((3, 0)));
    assert!(moved.placed && moved.x == 3 && moved.y == 0);
    let removed = moved.apply_mutation(true, Some((0, 0)));
    assert!(!removed.placed && removed.x == 3 && removed.y == 0);
}

#[test]
fn mutate_keeps_kinds_and_stays_on_plot() {
    let gens = vec![(GeneratorData::new(1, 1000, 2, 2, false), 20)];
    let p = Plot::new(7, (3, 4), vec![0, 0, 4, 3, 3, 3, 2, 2, 2, 1, 1, 1]);
    let mut rng = StdRng::seed_from_u64(42);
    let mut c = Chromosome::new(&gens);
    c.fitness = 9;
    let mut changed = false;
    for _ in 0..5 {
        let m = c.mutate(&mut rng, &p);
        assert_eq!(m.genes.len(), c.genes.len());
        assert_eq!(m.fitness, 9);
        for (a, b) in c.genes.iter().zip(m.genes.iter()) {
            assert_eq!((a.id, a.w, a.h, a.value, a.rotated, a.gold), (b.id, b.w, b.h, b.value, b.rotated, b.gold));
            assert!(b.x < p.width && b.y < p.height);
            if a.placed != b.placed || a.x != b.x || a.y != b.y {
                changed = true;
            }
        }
        c = m;
    }
    assert!(changed);
}

#[test]
fn splice_takes_prefix_from_the_chosen_parent() {
    let a = chrom((0..5).map(|i| gene(i, 0, 1, 1, 1)).collect());
    let b = chrom((0..5).map(|i| gene(i, 1, 1, 1, 1)).collect());
    let first = a.splice(&b, 2, true);
    let ys: Vec<u8> = first.genes.iter().map(|g| g.y).collect();
    assert_eq!(ys, vec![0, 0, 1, 1, 1]);
    let second = a.splice(&b, 2, false);
    let ys: Vec<u8> = second.genes.iter().map(|g| g.y).collect();
    assert_eq!(ys, vec![1, 1, 0, 0, 0]);
    assert_eq!(first.fitness, 0);
}

#[test]
fn crossover_is_a_splice() {
    let mut a = chrom((0..6).map(|i| gene(i, 0, 1, 1, 1)).collect());
    a.fitness = 7;
    let b = chrom((0..6).map(|i| gene(i, 1, 1, 1, 1)).collect());
    let mut rng = StdRng::seed_from_u64(9);
    for _ in 0..20 {
        let c = a.crossover(&mut rng, &b);
        assert_eq!(c.fitness, 0);
        assert_eq!(c.genes.len(), 6);
        let ys: Vec<u8> = c.genes.iter().map(|g| g.y).collect();
        let ok = (0..6).any(|cut| {
            let f: Vec<u8> = (0..6).map(|i| if i < cut { 0 } else { 1 }).collect();
            let s: Vec<u8> = (0..6).map(|i| if i >= cut { 0 } else { 1 }).collect();
            ys == f || ys == s
        });
        assert!(ok);
        for (i, g) in c.genes.iter().enumerate() {
            assert_eq!(g.x as usize, i);
        }
    }
}

#[test]
fn rank_by_fitness_sorts_best_first() {
    let mk = |f: i32, tag: u8| Chromosome { genes: vec![gene(tag, 0, 1, 1, 1)], fitness: f };
    let v = vec![mk(3, 0), mk(7, 1), mk(3, 2), mk(-1, 3), mk(7, 4)];
    let r = rank_by_fitness(v);
    let fitness: Vec<i32> = r.iter().map(|c| c.fitness).collect();
    assert_eq!(fitness, vec![7, 7, 3, 3, -1]);
    let mut tags: Vec<(i32, u8)> = r.iter().map(|c| (c.fitness, c.genes[0].x)).collect();
    tags.sort();
    assert_eq!(tags, vec![(-1, 3), (3, 0), (3, 2), (7, 1), (7, 4)]);
    assert!(rank_by_fitness(Vec::new()).is_empty());
}

fn setup_population(pop_size: usize, elites: usize) -> Population {
    let gens = vec![(GeneratorData::new(1, 1000, 2, 2, false), 4), (GeneratorData::new(2, 2000, 2, 3, false), 2)];
    let p = Plot::new(7, (3, 4), vec![0, 0, 4, 3, 3, 3, 2, 2, 2, 1, 1, 1]);
    Population::new(pop_size, &gens, &p, StdRng::seed_from_u64(31415926535), config(2, 2, elites))
}

#[test]
fn population_new_has_fresh_chromosomes() {
    let pop = setup_population(10, 2);
    assert_eq!(pop.chromosomes.len(), 10);
    for c in &pop.chromosomes {
        assert_eq!(c.genes.len(), 6);
        assert_eq!(c.fitness, 0);
        assert!(c.genes.iter().all(|g| !g.placed));
    }
    assert_eq!((pop.plot.width, pop.plot.height), (21, 28));
}

#[test]
fn population_mutate_and_crossover_double_it() {
    let mut pop = setup_population(5, 1);
    pop.mutate();
    assert_eq!(pop.chromosomes.len(), 10);
    pop.crossover();
    assert_eq!(pop.chromosomes.len(), 20);
    for c in &pop.chromosomes[10..] {
        assert_eq!(c.fitness, 0);
        assert_eq!(c.genes.len(), 6);
    }
    for c in &pop.chromosomes {
        let ids: Vec<u8> = c.genes.iter().map(|g| g.id).collect();
        assert_eq!(ids, vec![1, 1, 1, 1, 2, 2]);
    }
}

#[test]
fn population_evaluate_records_fitness() {
    let mut pop = setup_population(6, 1);
    pop.mutate();
    pop.mutate();
    let cfg = config(2, 2, 1);
    let expected: Vec<Option<i32>> = pop.chromosomes.iter().map(|c| pop.plot.checked_fitness(c, &cfg)).collect();
    pop.evaluate();
    for (c, e) in pop.chromosomes.iter().zip(expected) {
        assert_eq!(Some(c.fitness), e);
    }
}

#[test]
fn selection_keeps_best_and_restores_size() {
    let mut pop = setup_population(6, 2);
    for _ in 0..3 {
        pop.mutate();
        pop.crossover();
        pop.evaluate();
        let best = pop.chromosomes.iter().map(|c| c.fitness).max().unwrap();
        let mut before: Vec<i32> = pop.chromosomes.iter().map(|c| c.fitness).collect();
        before.sort_unstable_by_key(|f| -f);
        pop.selection();
        assert_eq!(pop.chromosomes.len(), 6);
        let after: Vec<i32> = pop.chromosomes.iter().map(|c| c.fitness).collect();
        assert!(after.windows(2).all(|w| w[0] >= w[1]));
        assert_eq!(after[0], best);
        assert_eq!(&after[..2], &before[..2]);
    }
}

#[test]
fn selection_with_more_elites_than_target_keeps_the_elites() {
    let mut pop = setup_population(2, 3);
    pop.mutate();
    pop.mutate();
    pop.evaluate();
    pop.selection();
    assert_eq!(pop.chromosomes.len(), 3);
}

#[test]
fn splice_with_itself_is_identity() {
    let a = chrom((0..4).map(|i| gene(i, i, 1, 1, 1)).collect());
    for cut in 0..5 {
        for from_first in [true, false] {
            let s = a.splice(&a, cut, from_first);
            let xs: Vec<(u8, u8)> = s.genes.iter().map(|g| (g.x, g.y)).collect();
            assert_eq!(xs, vec![(0, 0), (1, 1), (2, 2), (3, 3)]);
        }
    }
}

#[test]
fn find_legal_position_succeeds_at_once_when_every_corner_fits() {
    let p = Plot::new(1, (4, 3), vec![1; 12]);
    let occ = vec![false; 12];
    let mut rng = StdRng::seed_from_u64(17);
    for _ in 0..20 {
        let pos = p.find_legal_position(&mut rng, 2, 2, &occ, 1);
        let (x, y) = pos.unwrap();
        assert!(x <= 2 && y <= 1);
    }
}

#[test]
fn random_legal_position_without_candidates_leaves_generator() {
    let p = Plot::new(1, (2, 2), vec![1, 1, 1, 1]);
    let mut rng = StdRng::seed_from_u64(5);
    assert_eq!(p.random_legal_position(&mut rng, 3, 1), (0, 0));
    assert!(rng == StdRng::seed_from_u64(5));
    let _ = p.random_legal_position(&mut rng, 1, 1);
    assert!(rng != StdRng::seed_from_u64(5));
}

#[test]
fn find_legal_position_without_tries_leaves_generator_and_accepts_any_size() {
    let p = half_plot();
    let occ = vec![false; 8];
    let mut rng = StdRng::seed_from_u64(8);
    assert_eq!(p.find_legal_position(&mut rng, 9, 9, &occ, 0), None);
    assert!(rng == StdRng::seed_from_u64(8));
}

#[test]
fn population_new_keeps_the_generator() {
    let pop = setup_population(3, 1);
    assert!(pop.rng == StdRng::seed_from_u64(31415926535));
    assert_eq!(pop.pop_size, 3);
    assert_eq!(pop.gens.len(), 2);
}

#[test]
fn is_well_formed_cases() {
    assert!(Plot::new(7, (3, 4), vec![0; 12]).is_well_formed());
    assert!(!Plot::new(7, (3, 4), vec![0; 11]).is_well_formed());
    assert!(Plot::new(0, (3, 4), vec![]).is_well_formed());
    assert!(Plot::new(2, (0, 4), vec![]).is_well_formed());
    let mut p = half_plot();
    p.width = 5;
    assert!(!p.is_well_formed());
}

#[test]
fn next_shown_index_steps() {
    assert_eq!(next_shown_index(0, 3, true, false), 1);
    assert_eq!(next_shown_index(2, 3, true, false), 2);
    assert_eq!(next_shown_index(2, 3, false, true), 1);
    assert_eq!(next_shown_index(0, 3, false, true), 0);
    assert_eq!(next_shown_index(1, 3, true, true), 1);
    assert_eq!(next_shown_index(0, 0, false, true), 0);
}

#[test]
fn unplaced_genes_do_not_change_fitness_or_legality() {
    let p = half_plot();
    let cfg = config(2, 3, 0);
    let base = chrom(vec![gene(0, 0, 1, 2, 10), gene(1, 0, 2, 1, 7)]);
    let mut junk = gene(3, 1, 2, 2, 99);
    junk.placed = false;
    let padded = chrom(vec![junk, gene(0, 0, 1, 2, 10), junk, gene(1, 0, 2, 1, 7), junk]);
    assert_eq!(p.checked_fitness(&base, &cfg), p.checked_fitness(&padded, &cfg));
    assert_eq!(p.chromosome_is_legal(&base), p.chromosome_is_legal(&padded));
}

#[test]
fn legal_layout_fitness_is_the_penalty_free_sum() {
    let p = Plot::new(2, (2, 2), vec![1, 2, 3, 4]);
    let mut g = gene(2, 2, 2, 2, 9);
    g.gold = true;
    let c = chrom(vec![gene(0, 0, 2, 2, 7), g, gene(0, 2, 1, 2, 5)]);
    assert!(p.chromosome_is_legal(&c));
    let expected = (7 * 1 * 1 + 7 / 2) + (9 * 2 * 4 + 9 / 2) + (5 * 1 * 3 + 5 / 2);
    assert_eq!(p.checked_fitness(&c, &config(0, 0, 0)), Some(expected));
    assert_eq!(p.checked_fitness(&c, &config(50, 70, 0)), Some(expected));
}

#[test]
fn higher_penalties_never_raise_fitness() {
    let p = half_plot();
    let c = chrom(vec![gene(0, 0, 2, 2, 10), gene(1, 0, 3, 2, 6), gene(1, 1, 2, 2, 4)]);
    let low = p.checked_fitness(&c, &config(1, 1, 0)).unwrap();
    let mid = p.checked_fitness(&c, &config(2, 1, 0)).unwrap();
    let high = p.checked_fitness(&c, &config(2, 5, 0)).unwrap();
    assert!(high <= mid && mid <= low);
    assert!(high < low);
}

#[test]
fn legality_ignores_gene_order() {
    let p = Plot::new(1, (4, 3), vec![1; 12]);
    let a = gene(0, 0, 2, 2, 1);
    let b = gene(2, 0, 2, 3, 1);
    let c = gene(1, 1, 2, 2, 1);
    assert!(p.chromosome_is_legal(&chrom(vec![a, b])));
    assert!(p.chromosome_is_legal(&chrom(vec![b, a])));
    assert!(!p.chromosome_is_legal(&chrom(vec![a, c])));
    assert!(!p.chromosome_is_legal(&chrom(vec![c, a])));
    assert!(!p.chromosome_is_legal(&chrom(vec![a, a])));
}

#[test]
fn zero_subplot_size_gives_a_plot_without_cells() {
    let p = Plot::new(0, (3, 4), vec![]);
    assert_eq!((p.width, p.height), (0, 0));
    assert!(p.is_well_formed());
    let occ: Vec<bool> = Vec::new();
    assert!(p.fits_cleanly(0, 0, 0, 0, &occ));
    assert!(!p.fits_cleanly(0, 0, 1, 1, &occ));
    assert_eq!(p.legal_positions(0, 0), vec![(0, 0)]);
    assert_eq!(p.legal_positions(1, 1), vec![]);
    let mut rng = StdRng::seed_from_u64(2);
    assert_eq!(p.random_legal_position(&mut rng, 1, 1), (0, 0));
    // every cell is off the plot: the gene pays value * outside multiplier
    let mut c = chrom(vec![gene(0, 0, 2, 3, 10)]);
    assert_eq!(p.evaluate_chromosome(&mut c, &config(4, 1, 0)), -40);
    assert!(!p.chromosome_is_legal(&c));
}

#[test]
fn mutate_needs_no_cells_when_every_gene_is_placed() {
    let p = Plot::new(0, (1, 1), vec![]);
    let c = chrom(vec![gene(0, 0, 1, 1, 1), gene(2, 2, 1, 1, 1)]);
    let mut rng = StdRng::seed_from_u64(4);
    for _ in 0..10 {
        let m = c.mutate(&mut rng, &p);
        for (a, b) in c.genes.iter().zip(m.genes.iter()) {
            assert_eq!((a.x, a.y), (b.x, b.y));
        }
    }
}

#[test]
fn a_marked_rectangle_blocks_overlapping_ones() {
    let p = Plot::new(1, (5, 4), vec![1; 20]);
    let mut occ = vec![false; 20];
    p.mark_occupied(1, 1, 2, 2, &mut occ);
    assert!(!p.fits_cleanly(2, 2, 3, 2, &occ));
    assert!(!p.fits_cleanly(0, 0, 2, 2, &occ));
    assert!(p.fits_cleanly(3, 0, 2, 4, &occ));
    assert!(p.fits_cleanly(0, 3, 5, 1, &occ));
}
