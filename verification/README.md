# distance kernels

Distance and similarity kernels over `f32` vectors (dot product, squared L2
distance, norms, cosine similarity, nearest-neighbour search, top-k ranking
and a kNN vote) with a small command-line tool.

The crate in `src/` is verified with Verus. It holds every decision the
kernels and the tool make:

- `cli`: reading a command line into the kernel to run and its operands,
  with the tool's exact error messages (vector and label syntax, `k`,
  argument counts, unknown commands), and the usage text;
- `error`: the kernels' error type, its messages, and the length check;
- `ranking`: collecting per-candidate scores, picking the nearest or most
  similar candidate, and ranking the `k` nearest;
- `vote`: the majority vote among the nearest neighbours;
- `score`: IEEE-754 comparisons (`<=`, `total_cmp`) on `f32` bit patterns;
- `numeral`, `text`: numerals, `f32` literal syntax, splitting and trimming;
- `laws`: properties relating several functions.

Floating-point arithmetic, parsing and printing of `f32` values cannot be
verified here; `app/` does them (`app/kernels.rs` holds the `f32` kernels,
`app/main.rs` the tool) and hands scores to the library as bit patterns.
