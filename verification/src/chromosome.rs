//! A chromosome: one candidate layout, as a list of genes and its fitness.

use vstd::prelude::*;
use crate::gene::Gene;
use crate::generator::GeneratorData;
use crate::plot::Plot;
use crate::rng::{flip_coin, random_index, random_u8_up_to};

verus! {

/// One candidate layout: a gene per generator instance, and the fitness
/// that the last evaluation gave it.
#[derive(Clone, Debug)]
pub struct Chromosome {
    pub genes: Vec<Gene>,
    pub fitness: i32,
}

impl View for Chromosome {
    type V = (Seq<Gene>, i32);

    open spec fn view(&self) -> (Seq<Gene>, i32) {
        (self.genes@, self.fitness)
    }
}

/// The genes of a fresh chromosome: for each `(generator, count)` in turn,
/// `count` unplaced genes of that generator.
pub open spec fn initial_genes(gens: Seq<(GeneratorData, u8)>) -> Seq<Gene>
    decreases gens.len(),
{
    if gens.len() == 0 {
        Seq::empty()
    } else {
        let (g, count) = gens.last();
        initial_genes(gens.drop_last()) + Seq::new(count as nat, |i: int| Gene::initial(g))
    }
}

/// Two genes are instances of the same generator kind, laid the same way.
pub open spec fn same_kind(a: Gene, b: Gene) -> bool {
    &&& a.id == b.id
    &&& a.w == b.w
    &&& a.h == b.h
    &&& a.value == b.value
    &&& a.gold == b.gold
    &&& a.rotated == b.rotated
}

/// `genes` has, position by position, the kinds of `kinds`.
pub open spec fn genes_of_kind(genes: Seq<Gene>, kinds: Seq<Gene>) -> bool {
    &&& genes.len() == kinds.len()
    &&& forall|j: int| 0 <= j < genes.len() ==> same_kind(#[trigger] genes[j], kinds[j])
}

/// `b` can come out of mutating `a` on `plot`: only placement and position
/// change, and a gene is moved only as it gets placed, to a cell of the plot.
pub open spec fn is_mutation_of(a: Gene, b: Gene, plot: &Plot) -> bool {
    &&& b.id == a.id
    &&& b.w == a.w
    &&& b.h == a.h
    &&& b.value == a.value
    &&& b.rotated == a.rotated
    &&& b.gold == a.gold
    &&& ((b.placed == a.placed && b.x == a.x && b.y == a.y)
        || (b.placed == !a.placed && b.x == a.x && b.y == a.y)
        || (b.placed && !a.placed && b.x < plot.width && b.y < plot.height))
}

/// Some gene of the layout is unplaced.
pub open spec fn has_unplaced(genes: Seq<Gene>) -> bool {
    exists|i: int| 0 <= i < genes.len() && !(#[trigger] genes[i]).placed
}

/// `m` can come out of mutating `c` on `plot`: same length and fitness, and
/// each gene a mutation of the one at its position.
pub open spec fn is_mutant_of(m: Chromosome, c: Chromosome, plot: &Plot) -> bool {
    &&& m.genes.len() == c.genes.len()
    &&& m.fitness == c.fitness
    &&& forall|i: int| 0 <= i < c.genes.len() ==> is_mutation_of(c.genes[i], #[trigger] m.genes[i], plot)
}

/// `c` can come out of crossing `a` with `b`: fitness 0, and the genes of a
/// one-point crossover at a cut inside `a`.
pub open spec fn is_offspring_of(c: Chromosome, a: Chromosome, b: Chromosome) -> bool {
    &&& c.fitness == 0
    &&& exists|cut: int, from_first: bool|
        0 <= cut < a.genes.len() && c.genes@ == #[trigger] spliced(a.genes@, b.genes@, cut, from_first)
}

/// The genes of a one-point crossover at `cut`: positions before `cut` from
/// `first` when `from_first`, else from `second`, the rest from the other one.
pub open spec fn spliced(first: Seq<Gene>, second: Seq<Gene>, cut: int, from_first: bool) -> Seq<Gene> {
    Seq::new(first.len(), |i: int|
        if from_first {
            if i < cut { first[i] } else { second[i] }
        } else {
            if i >= cut { first[i] } else { second[i] }
        })
}

impl Gene {
    /// The gene after one mutation step: when `flip`, its placement is
    /// toggled, and when it thereby gets placed and `relocate` holds a
    /// position, it moves there.
    pub open spec fn mutated(self, flip: bool, relocate: Option<(u8, u8)>) -> Gene {
        if !flip {
            self
        } else if !self.placed {
            match relocate {
                Some(p) => Gene { placed: true, x: p.0, y: p.1, ..self },
                None => Gene { placed: true, ..self },
            }
        } else {
            Gene { placed: false, ..self }
        }
    }

    pub fn apply_mutation(self, flip: bool, relocate: Option<(u8, u8)>) -> (r: Gene)
        ensures
            r == self.mutated(flip, relocate),
    {
        let mut g = self;
        if flip {
            g.placed = !g.placed;
            if g.placed {
                if let Some((x, y)) = relocate {
                    g.x = x;
                    g.y = y;
                }
            }
        }
        g
    }
}

impl Chromosome {
    /// A chromosome with every generator instance unplaced, and fitness 0.
    pub fn new(gens: &Vec<(GeneratorData, u8)>) -> (c: Self)
        ensures
            c.genes@ == initial_genes(gens@),
            c.fitness == 0,
    {
        let mut genes: Vec<Gene> = Vec::new();
        let mut n: usize = 0;
        while n < gens.len()
            invariant
                0 <= n <= gens.len(),
                genes@ == initial_genes(gens@.take(n as int)),
            decreases gens.len() - n,
        {
            let (generator, count) = gens[n];
            let gene = Gene::from(generator);
            let ghost start = genes@;
            let mut k: u8 = 0;
            while k < count
                invariant
                    0 <= k <= count,
                    gene == Gene::initial(generator),
                    genes@ == start + Seq::new(k as nat, |i: int| Gene::initial(generator)),
                decreases count - k,
            {
                genes.push(gene);
                k = k + 1;
                proof {
                    assert(genes@ =~= start + Seq::new(k as nat, |i: int| Gene::initial(generator)));
                }
            }
            proof {
                assert(gens@.take(n + 1).drop_last() =~= gens@.take(n as int));
                assert(gens@.take(n + 1).last() == (generator, count));
            }
            n = n + 1;
        }
        proof {
            assert(gens@.take(gens@.len() as int) =~= gens@);
        }
        Chromosome { genes, fitness: 0 }
    }

    /// A mutant: each gene, on a coin flip, toggles its placement, and when
    /// it gets placed, on a second flip, moves to a random cell of the plot
    /// (so the plot must have cells when some gene is unplaced).
    /// The fitness is carried over.
    pub fn mutate(&self, rng: &mut rand::rngs::StdRng, plot: &Plot) -> (m: Self)
        requires
            has_unplaced(self.genes@) ==> plot.width > 0 && plot.height > 0,
        ensures
            is_mutant_of(m, *self, plot),
    {
        let mut genes: Vec<Gene> = Vec::new();
        let mut n: usize = 0;
        while n < self.genes.len()
            invariant
                0 <= n <= self.genes.len(),
                has_unplaced(self.genes@) ==> plot.width > 0 && plot.height > 0,
                genes.len() == n,
                forall|i: int| 0 <= i < n ==> is_mutation_of(self.genes[i], #[trigger] genes[i], plot),
            decreases self.genes.len() - n,
        {
            let gene = self.genes[n];
            let flip = flip_coin(rng);
            let mut relocate: Option<(u8, u8)> = None;
            if flip && !gene.placed {
                assert(!self.genes@[n as int].placed);
                if flip_coin(rng) {
                    let x = random_u8_up_to(rng, plot.width - 1);
                    let y = random_u8_up_to(rng, plot.height - 1);
                    relocate = Some((x, y));
                }
            }
            genes.push(gene.apply_mutation(flip, relocate));
            n = n + 1;
        }
        Chromosome { genes, fitness: self.fitness }
    }

    /// The one-point crossover of this chromosome with `other` at `cut`, with fitness 0.
    pub fn splice(&self, other: &Chromosome, cut: usize, from_first: bool) -> (c: Self)
        requires
            other.genes.len() >= self.genes.len(),
        ensures
            c.genes@ == spliced(self.genes@, other.genes@, cut as int, from_first),
            c.fitness == 0,
    {
        let mut genes: Vec<Gene> = Vec::with_capacity(self.genes.len());
        let mut i: usize = 0;
        while i < self.genes.len()
            invariant
                0 <= i <= self.genes.len(),
                other.genes.len() >= self.genes.len(),
                genes@ == spliced(self.genes@, other.genes@, cut as int, from_first).take(i as int),
            decreases self.genes.len() - i,
        {
            if from_first {
                if i < cut {
                    genes.push(self.genes[i]);
                } else {
                    genes.push(other.genes[i]);
                }
            } else {
                if i >= cut {
                    genes.push(self.genes[i]);
                } else {
                    genes.push(other.genes[i]);
                }
            }
            i = i + 1;
            proof {
                assert(genes@ =~= spliced(self.genes@, other.genes@, cut as int, from_first).take(i as int));
            }
        }
        proof {
            assert(genes@ =~= spliced(self.genes@, other.genes@, cut as int, from_first));
        }
        Chromosome { genes, fitness: 0 }
    }

    /// An offspring with `other`: a random cut point, and a coin flip for
    /// which parent gives the genes before it.
    pub fn crossover(&self, rng: &mut rand::rngs::StdRng, other: &Self) -> (c: Self)
        requires
            self.genes.len() > 0,
            other.genes.len() >= self.genes.len(),
        ensures
            is_offspring_of(c, *self, *other),
    {
        let cut = random_index(rng, self.genes.len());
        let from_first = flip_coin(rng);
        let c = self.splice(other, cut, from_first);
        assert(c.genes@ == spliced(self.genes@, other.genes@, cut as int, from_first));
        c
    }
}

} // verus!
