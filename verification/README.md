# rustlibraries

A Verus-verified library of small, NumPy/Pandas/NetworkX/Pillow-style building
blocks. Everything under `src/` is checked by Verus against its `requires` /
`ensures` contracts:

- `numrs`: n-dimensional arrays over integer and boolean elements — shapes,
  strides, zero-copy views (slicing, reshape, transpose, broadcasting),
  elementwise kernels with wrapping integer arithmetic, reductions, `nonzero`,
  `where`, scatter updates, `matmul`, `dot2d`, `inner2d` and `tensordot`.
- `graph`: CSR graphs, breadth-first distances (proved to be shortest walk
  lengths) and connected components.
- `image`: binary PPM decoding, grayscale, nearest-neighbour resize,
  thresholding and checksums.
- `text`: word/punctuation tokenization, word frequencies, bigrams.
- `media`: text extraction from text, Markdown, HTML and text-readable PDF,
  whitespace normalisation and FNV-1a checksums.
- `validate`: object schemas with required/optional fields, list types and
  length/range constraints.
- `evidence`: benchmark-evidence ledger checks and the rule for broad claims.
- `frame`: column checks and first-seen group-by row grouping.
- `learn`: confusion matrices and label sets.
- `timing`: the median of timing samples.

`app/` holds what is not verified: floating-point models and kernels
(regression, scaling, centroids, PageRank, numerical routines), clock-based
benchmarking, and frame/ledger front ends that call the verified checks.
