# lexaos_bitboard

Fixed-size bitboards (`W x H` grids of bits, sizes given as const generics)
with two memory layouts (row-major and Morton order) and a mask of
non-empty words that lets iteration, counting and the bitwise operators skip
empty regions. The library is written in Verus: the operations' contracts
are stated over the set of cells that a board holds, and proved. The
callback visitors (`for_each_bit`, `for_each_overlap`, `for_each_overlap_in`)
carry no contract of their own: which calls a callback receives cannot be
stated; each walks a list (`bits_list`, `overlap_list`, `overlap_list_in`)
whose contract is exact.

## Layout

- `src/bits.rs`: single bits of a word, masks, lowest set bit, popcount.
- `src/grid.rs`: the storage model: flat bits, the mask of non-empty words,
  the set of cells a storage stands for, and word updates that keep the
  mask exact.
- `src/runs.rs`, `src/walk.rs`: setting and testing runs of consecutive bits,
  and walking the set bits of one storage or of two at once.
- `src/layout/`: the `BitLayout` trait and its two layouts, with their
  geometry (cell <-> bit position) and the row, rectangle and shift kernels.
- `src/board.rs`: `BitBoard` itself: creation, get/set, shifts.
- `src/query.rs`, `src/iter.rs`: counting, emptiness, row and area tests,
  visiting set cells.
- `src/bulk.rs`, `src/ops.rs`, `src/morphology.rs`, `src/expand.rs`: shapes,
  bitwise operators, dilation and erosion, rectangle placement and one step
  of a breadth-first wavefront.
- `src/laws.rs`: properties of the operations taken together.
- `app/`: what works in floating point (continuous positions, circular
  sectors, shadowcasting field of view) and serde support for the layouts.
- `tests/`: executable tests.
