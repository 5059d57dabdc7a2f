# selfnn

A small toolkit for training dense neural networks, with its structure
verified in Verus.

- `src/` is the verified library. Tensors are generic over their element
  type: `tensor` (row-major layout, indexing, transpose, row gathering and
  slicing, and the traversals behind element-wise arithmetic, bias
  broadcasting, column sums, matrix products and row-wise argmax, with the
  element arithmetic passed in as closures), `fold` (what those traversals
  compute, as left folds over closure results), `layer` (the fully connected
  layer: forward pass, gradients, SGD and Adam bookkeeping), `data`
  (mini-batches, with random shuffling through `rand`), `mnist` (the IDX file
  format and one-hot labels) and `loss` (the loss types).
- `app/` is the `f32` side: tensor arithmetic, the activation layers, loss
  functions, the `Sequential` container, optimizers and the file loaders.
  Floating point is not verified, so it lives there and calls the library.
- `tests/` runs the library on concrete values.
