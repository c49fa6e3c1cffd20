# engine_schematic

A verified library that reads an engine schematic: a text of `rows` lines of
`cols` characters in which numbers are runs of digits, dots are empty, and
every other character is a symbol.

- `grid`: the text split into one-character cells and laid out as a grid; its
  2×2 and 3×3 windows (computed with ndarray); the masks of non-dot cells of
  each window; the masks cut into chunks of one window row.
- `coords`: the window cells compared by the sweeps and their place in the grid.
- `sweep`: the pairs of touching non-dot cells (2×2 windows), and the trios
  around the non-dot centre of a 3×3 window (one cell before the centre and
  one after it, each opening a stretch of non-dots in its row of the window).
- `trace`: reading cells back, and following a number along its row.
- `schematic`: the sum of the part numbers, the numbers around each star, and
  the sum of the gear ratios, for a whole schematic.
- `laws`: what the sweeps find stated over the grid itself (touching non-dot
  cells; trios centred on a non-dot cell), that chunking keeps every mask in
  order, that a number traced from any column of its run is the same, that a
  run of digit cells reads as its digits, that in a small ASCII grid the
  columns and row reported for a number tell its run apart, that the part
  number sum adds each run of digits next to a symbol exactly once, and that
  the trio table lists chains of three different window cells.

`app/` reads `./src/input.txt` (140 × 140) and prints the numbers gathered
around each star; it also holds the entry points for the sum of the part
numbers and for the sum of the gear ratios.
