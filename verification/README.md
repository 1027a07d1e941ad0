# dynops

Support library of the DynOps Arma 3 extension, which detects settlements
(farms through cities) from building positions and hands them to the game in
chunks.

`src/` is verified with Verus:

- `cluster` — DBSCAN labelling from precomputed neighbour lists, with a
  specification that determines the labelling uniquely (core points by
  neighbour count, clusters as connected groups of core points numbered by
  first appearance, edge points in the lowest-numbered cluster that reaches
  them), grouping of points by cluster, and laws about both.
- `protocol` — the `locations:*` session (begin / add / detect / page / end),
  the wire format of a location entry, and byte-budgeted paging of the
  detection result.
- `text` — line and comma splitting of coordinate input, decimal numbers,
  joining, UTF-8 byte lengths.
- `locations` — settlement classes by building count.
- `echo`, `misc` — the `echo` and `uuid` commands.
- `marker` — marker and area kinds.
- `raster` — the pixels of a line (Bresenham), clipping to the frame and the
  class colours used by the offline renderer.

`app/` holds what works on floating-point coordinates (k-d tree radius
queries, convex hull and minimum-area boxes, ellipse fits, the recursive
span-limited detection), the arma-rs extension registration, and the
offline rendering tool.
