# ga_plot

A genetic algorithm that lays generators out on a plot made of square
subplots, each with a value multiplier (0 marks unbuildable ground).

- `src/` is the verified library: the plot model and placement rules
  (`plot.rs`), layout scoring (`fitness.rs`), genes and chromosomes with
  mutation and crossover (`gene.rs`, `chromosome.rs`), the population and its
  generation steps (`population.rs`), the random draws it makes through
  `rand` (`rng.rs`), stepping through the shown population (`browse.rs`),
  and properties proved across them (`laws.rs`).
- `app/` runs the algorithm in a background thread and draws the population
  with `macroquad`.
- `tests/` exercises the library on concrete plots and layouts.
