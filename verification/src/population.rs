//! A population of candidate layouts and the steps of one generation:
//! mutation, crossover, evaluation and selection.

use vstd::prelude::*;
use std::collections::VecDeque;
use crate::chromosome::{Chromosome, initial_genes, genes_of_kind, has_unplaced, is_mutant_of, is_offspring_of, spliced};
use crate::generator::{Config, GeneratorData};
use crate::plot::Plot;
use crate::rng::random_index;

verus! {

broadcast use vstd::seq_lib::group_to_multiset_ensures, vstd::seq_lib::lemma_multiset_commutative;

/// Fitness never increases along the sequence.
pub open spec fn sorted_by_fitness(s: Seq<Chromosome>) -> bool {
    forall|a: int, b: int| 0 <= a < b < s.len() ==> s[a].fitness >= s[b].fitness
}

/// `r` holds the chromosomes of `s`, best fitness first.
pub open spec fn is_ranking(r: Seq<Chromosome>, s: Seq<Chromosome>) -> bool {
    r.to_multiset() == s.to_multiset() && sorted_by_fitness(r)
}

/// The chromosomes of a population and how the generations change them.
pub struct Population {
    pub chromosomes: Vec<Chromosome>,
    pub pop_size: usize,
    pub plot: Plot,
    pub gens: Vec<(GeneratorData, u8)>,
    pub rng: rand::rngs::StdRng,
    pub config: Config,
}

/// A copy of the generator list.
fn copy_gens(gens: &Vec<(GeneratorData, u8)>) -> (r: Vec<(GeneratorData, u8)>)
    ensures
        r@ == gens@,
{
    let mut r: Vec<(GeneratorData, u8)> = Vec::new();
    let mut i: usize = 0;
    while i < gens.len()
        invariant
            0 <= i <= gens.len(),
            r@ == gens@.take(i as int),
        decreases gens.len() - i,
    {
        r.push(gens[i]);
        i = i + 1;
        proof {
            assert(r@ =~= gens@.take(i as int));
        }
    }
    proof {
        assert(gens@.take(gens@.len() as int) =~= gens@);
    }
    r
}

/// The chromosomes, reordered best fitness first.
pub fn rank_by_fitness(v: Vec<Chromosome>) -> (r: Vec<Chromosome>)
    ensures
        is_ranking(r@, v@),
{
    let ghost orig = v@;
    let mut rest = v;
    let mut out: Vec<Chromosome> = Vec::new();
    proof {
        assert(out@.to_multiset().add(rest@.to_multiset()) =~= orig.to_multiset());
    }
    while rest.len() > 0
        invariant
            out@.to_multiset().add(rest@.to_multiset()) == orig.to_multiset(),
            sorted_by_fitness(out@),
            forall|a: int, b: int| 0 <= a < out.len() && 0 <= b < rest.len() ==> out[a].fitness >= rest[b].fitness,
        decreases rest.len(),
    {
        let mut best: usize = 0;
        let mut k: usize = 1;
        while k < rest.len()
            invariant
                0 <= best < k <= rest.len(),
                forall|b: int| 0 <= b < k ==> rest[best as int].fitness >= rest[b].fitness,
            decreases rest.len() - k,
        {
            if rest[k].fitness > rest[best].fitness {
                best = k;
            }
            k = k + 1;
        }
        let ghost before_rest = rest@;
        let ghost before_out = out@;
        let c = rest.remove(best);
        out.push(c);
        proof {
            assert(before_rest.remove(best as int).to_multiset() =~= before_rest.to_multiset().remove(c));
            assert(out@.to_multiset() =~= before_out.to_multiset().insert(c));
            assert(before_rest.to_multiset().count(c) > 0);
            assert(out@.to_multiset().add(rest@.to_multiset()) =~= orig.to_multiset());
            assert forall|a: int, b: int| 0 <= a < out.len() && 0 <= b < rest.len() implies out[a].fitness >= rest[b].fitness by {
                if b < best {
                    assert(rest[b] == before_rest[b]);
                } else {
                    assert(rest[b] == before_rest[b + 1]);
                }
            }
        }
    }
    proof {
        assert(rest@.to_multiset() =~= vstd::multiset::Multiset::empty());
        assert(out@.to_multiset() =~= orig.to_multiset());
    }
    out
}

impl Population {
    /// The chromosomes, in order.
    pub open spec fn members(&self) -> Seq<Chromosome> {
        self.chromosomes@
    }

    /// The plot the layouts are scored on.
    pub open spec fn plot_view(&self) -> Plot {
        self.plot
    }

    /// The target number of chromosomes that selection keeps.
    pub open spec fn target_size(&self) -> nat {
        self.pop_size as nat
    }

    /// The generators every chromosome holds instances of.
    pub open spec fn generators(&self) -> Seq<(GeneratorData, u8)> {
        self.gens@
    }

    pub open spec fn settings(&self) -> Config {
        self.config
    }

    /// The random generator the generation steps draw from.
    pub open spec fn random_source(&self) -> rand::rngs::StdRng {
        self.rng
    }

    /// The plot is consistent and every chromosome has one gene per generator instance.
    pub open spec fn wf(&self) -> bool {
        &&& self.plot.wf()
        &&& forall|i: int| 0 <= i < self.chromosomes.len()
            ==> genes_of_kind((#[trigger] self.chromosomes[i]).genes@, initial_genes(self.gens@))
    }

    /// `pop_size` fresh chromosomes, all genes unplaced.
    pub fn new(
        pop_size: usize,
        gens: &Vec<(GeneratorData, u8)>,
        plot: &Plot,
        rng: rand::rngs::StdRng,
        config: Config,
    ) -> (p: Self)
        ensures
            p.members().len() == pop_size,
            forall|i: int| 0 <= i < pop_size ==> (#[trigger] p.members()[i]).genes@ == initial_genes(gens@)
                && p.members()[i].fitness == 0,
            p.plot_view().subplot_size == plot.subplot_size,
            p.plot_view().subplot_grid == plot.subplot_grid,
            p.plot_view().multipliers@ == plot.multipliers@,
            p.plot_view().width == plot.width,
            p.plot_view().height == plot.height,
            p.target_size() == pop_size,
            p.generators() == gens@,
            p.settings() == config,
            p.random_source() == rng,
            plot.wf() ==> p.wf(),
    {
        let mut chromosomes: Vec<Chromosome> = Vec::new();
        let mut i: usize = 0;
        while i < pop_size
            invariant
                0 <= i <= pop_size,
                chromosomes.len() == i,
                forall|k: int| 0 <= k < i ==> (#[trigger] chromosomes[k]).genes@ == initial_genes(gens@)
                    && chromosomes[k].fitness == 0,
            decreases pop_size - i,
        {
            chromosomes.push(Chromosome::new(gens));
            i = i + 1;
        }
        let p = Population {
            chromosomes,
            pop_size,
            plot: plot.clone(),
            gens: copy_gens(gens),
            rng,
            config,
        };
        proof {
            assert(p.plot.wf() == plot.wf());
        }
        p
    }

    /// Every member of a well-formed population holds, position by
    /// position, one gene of each generator instance, of that instance's kind.
    pub proof fn lemma_members_of_kind(&self)
        requires
            self.wf(),
        ensures
            self.plot_view().wf(),
            forall|i: int| 0 <= i < self.members().len()
                ==> genes_of_kind((#[trigger] self.members()[i]).genes@, initial_genes(self.generators())),
    {
    }
}

/// `new` can come out of selection from `old` keeping `elites` best and
/// filling up to `target`: as many as the larger of the two, ranked best
/// first, all drawn from `old`, and the first `elites` of some ranking of
/// `old` among them.
pub open spec fn is_selection_of(new: Seq<Chromosome>, old: Seq<Chromosome>, elites: nat, target: nat) -> bool {
    &&& elites <= old.len()
    &&& new.len() == if elites >= target { elites } else { target }
    &&& sorted_by_fitness(new)
    &&& new.to_multiset().subset_of(old.to_multiset())
    &&& exists|r: Seq<Chromosome>| #[trigger] is_ranking(r, old) && r.take(elites as int).to_multiset().subset_of(new.to_multiset())
}

/// After the members of `old`, `new` holds for each of them, in order, an
/// offspring of it with some member of `old`.
pub open spec fn offspring_follow(new: Seq<Chromosome>, old: Seq<Chromosome>) -> bool {
    forall|i: int| 0 <= i < old.len() ==> #[trigger] has_partner(new[old.len() + i], old[i], old)
}

/// `c` is an offspring of `a` with some member of `pool`.
pub open spec fn has_partner(c: Chromosome, a: Chromosome, pool: Seq<Chromosome>) -> bool {
    exists|p: int| 0 <= p < pool.len() && is_offspring_of(c, a, #[trigger] pool[p])
}

/// Every member of `a` also appears in `b`, so it has the gene kinds all of `b` have.
proof fn lemma_kinds_carry(a: Seq<Chromosome>, b: Seq<Chromosome>, kinds: Seq<crate::gene::Gene>)
    requires
        a.to_multiset().subset_of(b.to_multiset()),
        forall|i: int| 0 <= i < b.len() ==> genes_of_kind((#[trigger] b[i]).genes@, kinds),
    ensures
        forall|i: int| 0 <= i < a.len() ==> genes_of_kind((#[trigger] a[i]).genes@, kinds),
{
    assert forall|i: int| 0 <= i < a.len() implies genes_of_kind((#[trigger] a[i]).genes@, kinds) by {
        assert(a.contains(a[i]));
        assert(a.to_multiset().count(a[i]) > 0);
        assert(b.to_multiset().count(a[i]) > 0);
        assert(b.contains(a[i]));
        let j = choose|j: int| 0 <= j < b.len() && b[j] == a[i];
        assert(genes_of_kind(b[j].genes@, kinds));
    }
}

impl Population {
    /// Adds a mutant of every chromosome after the current ones.
    pub fn mutate(&mut self)
        requires
            (exists|i: int| 0 <= i < old(self).members().len() && has_unplaced((#[trigger] old(self).members()[i]).genes@))
                ==> old(self).plot_view().width > 0 && old(self).plot_view().height > 0,
        ensures
            old(self).wf() ==> final(self).wf(),
            final(self).members().len() == 2 * old(self).members().len(),
            final(self).members().take(old(self).members().len() as int) == old(self).members(),
            forall|i: int| 0 <= i < old(self).members().len() ==>
                is_mutant_of(#[trigger] final(self).members()[old(self).members().len() + i], old(self).members()[i], &old(self).plot_view()),
            final(self).plot_view() == old(self).plot_view(),
            final(self).target_size() == old(self).target_size(),
            final(self).generators() == old(self).generators(),
            final(self).settings() == old(self).settings(),
    {
        let ghost before = self.chromosomes@;
        let n = self.chromosomes.len();
        let mut mutants: Vec<Chromosome> = Vec::new();
        proof {
            if exists|k: int| 0 <= k < n && has_unplaced((#[trigger] before[k]).genes@) {
                let k = choose|k: int| 0 <= k < n && has_unplaced((#[trigger] before[k]).genes@);
                assert(has_unplaced(old(self).members()[k].genes@));
            }
        }
        let mut i: usize = 0;
        while i < n
            invariant
                n == self.chromosomes.len(),
                self.chromosomes@ == before,
                before == old(self).chromosomes@,
                self.plot == old(self).plot,
                self.pop_size == old(self).pop_size,
                self.gens@ == old(self).gens@,
                self.config == old(self).config,
                (exists|k: int| 0 <= k < n && has_unplaced((#[trigger] before[k]).genes@))
                    ==> self.plot.width > 0 && self.plot.height > 0,
                0 <= i <= n,
                mutants.len() == i,
                forall|k: int| 0 <= k < i ==> is_mutant_of(#[trigger] mutants[k], before[k], &self.plot),
            decreases n - i,
        {
            proof {
                if has_unplaced(before[i as int].genes@) {
                    assert(0 <= i < n && has_unplaced(before[i as int].genes@));
                }
            }
            let m = self.chromosomes[i].mutate(&mut self.rng, &self.plot);
            mutants.push(m);
            i = i + 1;
        }
        let ghost added = mutants@;
        self.chromosomes.append(&mut mutants);
        proof {
            assert(self.chromosomes@.take(n as int) =~= before);
            if old(self).wf() {
                assert forall|k: int| 0 <= k < self.chromosomes.len() implies
                    genes_of_kind((#[trigger] self.chromosomes[k]).genes@, initial_genes(self.gens@)) by {
                    if k >= n {
                        assert(self.chromosomes[k] == added[k - n]);
                        assert(genes_of_kind(before[k - n].genes@, initial_genes(self.gens@)));
                    } else {
                        assert(self.chromosomes[k] == before[k]);
                    }
                }
            }
            assert forall|k: int| 0 <= k < n implies
                is_mutant_of(#[trigger] self.chromosomes@[n + k], before[k], &self.plot) by {
                assert(self.chromosomes@[n + k] == added[k]);
            }
        }
    }

    /// Adds, for every chromosome, an offspring of it with a random partner
    /// among the current chromosomes, after the current ones.
    pub fn crossover(&mut self)
        requires
            forall|i: int| 0 <= i < old(self).members().len() ==> (#[trigger] old(self).members()[i]).genes.len() > 0,
            forall|i: int, p: int| 0 <= i < old(self).members().len() && 0 <= p < old(self).members().len()
                ==> (#[trigger] old(self).members()[i]).genes.len() <= (#[trigger] old(self).members()[p]).genes.len(),
        ensures
            old(self).wf() ==> final(self).wf(),
            final(self).members().len() == 2 * old(self).members().len(),
            final(self).members().take(old(self).members().len() as int) == old(self).members(),
            offspring_follow(final(self).members(), old(self).members()),
            final(self).plot_view() == old(self).plot_view(),
            final(self).target_size() == old(self).target_size(),
            final(self).generators() == old(self).generators(),
            final(self).settings() == old(self).settings(),
    {
        let ghost before = self.chromosomes@;
        let n = self.chromosomes.len();
        let mut offspring: Vec<Chromosome> = Vec::new();
        proof {
            assert forall|k: int| 0 <= k < n implies (#[trigger] before[k]).genes.len() > 0 by {
                assert(old(self).members()[k].genes.len() > 0);
            }
            assert forall|k: int, p: int| 0 <= k < n && 0 <= p < n
                implies (#[trigger] before[k]).genes.len() <= (#[trigger] before[p]).genes.len() by {
                assert(old(self).members()[k].genes.len() <= old(self).members()[p].genes.len());
            }
        }
        let mut i: usize = 0;
        while i < n
            invariant
                n == self.chromosomes.len(),
                self.chromosomes@ == before,
                before == old(self).chromosomes@,
                self.plot == old(self).plot,
                self.pop_size == old(self).pop_size,
                self.gens@ == old(self).gens@,
                self.config == old(self).config,
                forall|k: int| 0 <= k < n ==> (#[trigger] before[k]).genes.len() > 0,
                forall|k: int, p: int| 0 <= k < n && 0 <= p < n
                    ==> (#[trigger] before[k]).genes.len() <= (#[trigger] before[p]).genes.len(),
                0 <= i <= n,
                offspring.len() == i,
                old(self).wf() ==> forall|k: int| 0 <= k < i ==> genes_of_kind((#[trigger] offspring[k]).genes@, initial_genes(self.gens@)),
                forall|k: int| 0 <= k < i ==> #[trigger] has_partner(offspring[k], before[k], before),
            decreases n - i,
        {
            let p = random_index(&mut self.rng, n);
            proof {
                assert(before[i as int].genes.len() > 0);
                assert(before[i as int].genes.len() <= before[p as int].genes.len());
            }
            let c = self.chromosomes[i].crossover(&mut self.rng, &self.chromosomes[p]);
            proof {
                let (cut, ff) = choose|cut: int, from_first: bool|
                    0 <= cut < before[i as int].genes.len() && c.genes@ == #[trigger] spliced(before[i as int].genes@, before[p as int].genes@, cut, from_first);
                assert(c.genes@.len() == before[i as int].genes@.len());
                if old(self).wf() {
                    let kinds = initial_genes(self.gens@);
                    assert(genes_of_kind(before[i as int].genes@, kinds));
                    assert(genes_of_kind(before[p as int].genes@, kinds));
                    assert forall|j: int| 0 <= j < c.genes@.len() implies crate::chromosome::same_kind(#[trigger] c.genes@[j], kinds[j]) by {
                        assert(c.genes@[j] == before[i as int].genes@[j] || c.genes@[j] == before[p as int].genes@[j]);
                    }
                }
            }
            offspring.push(c);
            proof {
                assert(offspring[i as int] == c);
                assert(0 <= p < n && is_offspring_of(offspring[i as int], before[i as int], before[p as int]));
                assert(has_partner(offspring[i as int], before[i as int], before));
            }
            i = i + 1;
        }
        let ghost added = offspring@;
        self.chromosomes.append(&mut offspring);
        proof {
            assert(self.chromosomes@.take(n as int) =~= before);
            if old(self).wf() {
                assert forall|k: int| 0 <= k < self.chromosomes.len() implies
                    genes_of_kind((#[trigger] self.chromosomes[k]).genes@, initial_genes(self.gens@)) by {
                    if k >= n {
                        assert(self.chromosomes[k] == added[k - n]);
                    } else {
                        assert(self.chromosomes[k] == before[k]);
                    }
                }
            }
            assert forall|k: int| 0 <= k < before.len() implies
                #[trigger] has_partner(self.chromosomes@[before.len() + k], before[k], before) by {
                assert(self.chromosomes@[n + k] == added[k]);
                assert(has_partner(added[k], before[k], before));
            }
            assert(offspring_follow(self.chromosomes@, before));
        }
    }

    /// Scores every chromosome on the plot and records its fitness.
    pub fn evaluate(&mut self)
        requires
            old(self).plot_view().wf(),
            forall|i: int| 0 <= i < old(self).members().len() ==>
                (#[trigger] old(self).plot_view().layout_fitness(old(self).settings(), old(self).members()[i].genes@)) is Some,
        ensures
            old(self).wf() ==> final(self).wf(),
            final(self).members().len() == old(self).members().len(),
            forall|i: int| 0 <= i < old(self).members().len() ==> {
                &&& (#[trigger] final(self).members()[i]).genes@ == old(self).members()[i].genes@
                &&& old(self).plot_view().layout_fitness(old(self).settings(), old(self).members()[i].genes@)
                    == Some(final(self).members()[i].fitness as int)
            },
            final(self).plot_view() == old(self).plot_view(),
            final(self).target_size() == old(self).target_size(),
            final(self).generators() == old(self).generators(),
            final(self).settings() == old(self).settings(),
    {
        let ghost before = self.chromosomes@;
        let n = self.chromosomes.len();
        let mut i: usize = 0;
        while i < n
            invariant
                self.plot.wf(),
                old(self).wf() ==> self.wf(),
                n == self.chromosomes.len(),
                n == before.len(),
                self.plot == old(self).plot,
                self.pop_size == old(self).pop_size,
                self.gens@ == old(self).gens@,
                self.config == old(self).config,
                forall|k: int| 0 <= k < n ==> (#[trigger] self.chromosomes[k]).genes@ == before[k].genes@,
                forall|k: int| i <= k < n ==> self.chromosomes[k] == before[k],
                forall|k: int| 0 <= k < i ==> self.plot.layout_fitness(self.config, before[k].genes@)
                    == Some((#[trigger] self.chromosomes[k]).fitness as int),
                forall|k: int| 0 <= k < n ==> (#[trigger] self.plot.layout_fitness(self.config, before[k].genes@)) is Some,
                0 <= i <= n,
            decreases n - i,
        {
            let ghost prev = self.chromosomes@;
            assert(self.plot.layout_fitness(self.config, before[i as int].genes@) is Some);
            self.plot.evaluate_chromosome(&mut self.chromosomes[i], &self.config);
            proof {
                assert forall|k: int| 0 <= k < n && k != i implies self.chromosomes[k] == prev[k] by {}
            }
            i = i + 1;
        }
    }

    /// Ranks the chromosomes best first, keeps the best `elite_count` and
    /// draws the rest at random until the population is back to its target
    /// size, then ranks the survivors best first. A fitness of `i32::MIN` is
    /// not accepted: ranking is by negated fitness, which it has none of in `i32`.
    pub fn selection(&mut self)
        requires
            old(self).settings().elite_count <= old(self).members().len(),
            old(self).target_size() <= old(self).members().len(),
            forall|i: int| 0 <= i < old(self).members().len() ==> (#[trigger] old(self).members()[i]).fitness != i32::MIN,
        ensures
            old(self).wf() ==> final(self).wf(),
            is_selection_of(final(self).members(), old(self).members(), old(self).settings().elite_count as nat, old(self).target_size()),
            final(self).plot_view() == old(self).plot_view(),
            final(self).target_size() == old(self).target_size(),
            final(self).generators() == old(self).generators(),
            final(self).settings() == old(self).settings(),
    {
        let ghost before = self.chromosomes@;
        let ghost kinds = initial_genes(self.gens@);
        let ghost w = old(self).wf();
        let elites = self.config.elite_count;
        let mut all: Vec<Chromosome> = Vec::new();
        std::mem::swap(&mut all, &mut self.chromosomes);
        let mut ranked = rank_by_fitness(all);
        let ghost ranking = ranked@;
        proof {
            assert(ranking.len() == ranking.to_multiset().len());
            assert(before.len() == before.to_multiset().len());
            if w {
                lemma_kinds_carry(ranking, before, kinds);
            }
            assert(ranking.take(ranking.len() as int) =~= ranking);
        }
        let mut old_pop: VecDeque<Chromosome> = VecDeque::new();
        proof {
            assert(old_pop@ =~= ranking.skip(ranked.len() as int));
        }
        while ranked.len() > 0
            invariant
                ranked.len() <= ranking.len(),
                ranked@ == ranking.take(ranked.len() as int),
                old_pop@ == ranking.skip(ranked.len() as int),
            decreases ranked.len(),
        {
            let c = ranked.pop().unwrap();
            old_pop.push_front(c);
            proof {
                assert(ranked@ =~= ranking.take(ranked.len() as int));
                assert(old_pop@ =~= ranking.skip(ranked.len() as int));
            }
        }
        let mut survivors: Vec<Chromosome> = Vec::with_capacity(self.pop_size);
        let mut e: usize = 0;
        proof {
            assert(survivors@ =~= ranking.take(0));
            assert(old_pop@ =~= ranking.skip(0));
        }
        while e < elites
            invariant
                elites <= ranking.len(),
                0 <= e <= elites,
                survivors@ == ranking.take(e as int),
                old_pop@ == ranking.skip(e as int),
            decreases elites - e,
        {
            let c = old_pop.pop_front().unwrap();
            survivors.push(c);
            e = e + 1;
            proof {
                assert(survivors@ =~= ranking.take(e as int));
                assert(old_pop@ =~= ranking.skip(e as int));
            }
        }
        let mut rest = old_pop;
        proof {
            assert(ranking =~= survivors@ + rest@);
            assert(survivors@.take(elites as int) =~= ranking.take(elites as int));
        }
        while survivors.len() < self.pop_size
            invariant
                self.plot == old(self).plot,
                self.pop_size == old(self).pop_size,
                self.gens@ == old(self).gens@,
                self.config == old(self).config,
                elites == self.config.elite_count,
                kinds == initial_genes(self.gens@),
                ranking.len() == before.len(),
                self.pop_size <= ranking.len(),
                elites <= survivors.len(),
                survivors.len() == elites || survivors.len() <= self.pop_size,
                survivors.len() + rest.len() == ranking.len(),
                survivors@.take(elites as int) == ranking.take(elites as int),
                survivors@.to_multiset().add(rest@.to_multiset()) == ranking.to_multiset(),
                w == old(self).wf(),
                w ==> forall|k: int| 0 <= k < survivors.len() ==> genes_of_kind((#[trigger] survivors[k]).genes@, kinds),
                w ==> forall|k: int| 0 <= k < rest@.len() ==> genes_of_kind((#[trigger] rest@[k]).genes@, kinds),
            decreases self.pop_size - survivors.len(),
        {
            let k = random_index(&mut self.rng, rest.len());
            let ghost rest_before = rest@;
            let ghost surv_before = survivors@;
            let c = rest.remove(k).unwrap();
            survivors.push(c);
            proof {
                assert(rest_before.remove(k as int).to_multiset() =~= rest_before.to_multiset().remove(c));
                assert(survivors@.to_multiset() =~= surv_before.to_multiset().insert(c));
                assert(rest_before.to_multiset().count(c) > 0);
                assert(survivors@.to_multiset().add(rest@.to_multiset()) =~= ranking.to_multiset());
                assert(survivors@.take(elites as int) =~= surv_before.take(elites as int));
                if w {
                    assert forall|j: int| 0 <= j < rest@.len() implies genes_of_kind((#[trigger] rest@[j]).genes@, kinds) by {
                        if j < k {
                            assert(rest@[j] == rest_before[j]);
                        } else {
                            assert(rest@[j] == rest_before[j + 1]);
                        }
                    }
                }
            }
        }
        let ghost kept = survivors@;
        self.chromosomes = rank_by_fitness(survivors);
        proof {
            let fin = self.chromosomes@;
            assert(kept =~= kept.take(elites as int) + kept.skip(elites as int));
            assert(ranking.to_multiset() == before.to_multiset());
            assert(fin.to_multiset().subset_of(before.to_multiset()));
            assert(ranking.take(elites as int).to_multiset().subset_of(fin.to_multiset()));
            assert(is_ranking(ranking, before));
            assert(fin.len() == fin.to_multiset().len());
            assert(kept.len() == kept.to_multiset().len());
            assert(fin.len() == (if elites >= self.pop_size { elites as int } else { self.pop_size as int }));
            assert(sorted_by_fitness(fin));
            if w {
                lemma_kinds_carry(fin, kept, kinds);
            }
        }
    }
}

} // verus!
