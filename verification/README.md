# xgboost_rs

Gradient boosting over quantised histograms, with its decisions proved.

`src/` is the verified library. It holds no floating-point arithmetic: values, gradients and
gains are kept as bit patterns or in fixed point, and everything done with them short of
arithmetic (binning, sorting, sketch decisions, histograms, row partitioning, split search,
tree growth, the rules of a fit) is stated in contracts and proved by Verus.

- `data`: matrices, columns, LIBSVM text, quantile cuts, the binned index.
- `gpu`: the packed matrix, histograms, partitioning, split search, tree growth. Most kernels
  are written in their serial shape, one unit to a work item. The histogram (`gpu::hist_grid`)
  and the split search of a feature (`gpu::shared_search`) are also written as the units of a
  cube share them, and proved to give what the serial ones give.
- `gpu::agreement`: that the sums of the split search and the rows of the partitioner belong
  together.
- `gpu::routes`: that the leaf whose segment holds a row is the one the row reaches.
- `gpu::one_target`: that a vector leaf of one target chooses the scalar split.
- `gbm`, `learner`, `fit`, `api`: ensembles, rounds, the beginning of a fit, what is refused.
- `training`: a fit from its first round to its last, its scores, and the rounds it counts.
- `bench`: the benchmarks' settings, command lines and generators.

`app/` computes what the library decides on (sketch ranks, gains, weights, gradients), fits
trees to squared error with it (`app/fit.rs`), reads files and the environment, and asks
devices what they can do.
