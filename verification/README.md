# layout

The ranked-DAG core of a graph layout engine, with its contracts proved.

A `VisualGraph` holds shapes, arrows between them and nested subgraphs, over
a `DAG` that records the edges between nodes and between units (a node, or a
subgraph seen from its parent), and a rank of rows for each subgraph.
Lowering a graph (`VisualGraph::lower`) flips the arrows that would close a
cycle, gives each label a connector node, and lays out every subgraph from
the innermost out: levels are computed, nodes are sunk, long arrows are split
into steps of one level, rows are reordered to reduce crossings, and the
units are placed row by row.

Layout of `src/`:

- `handles`, `unit_map`, `rank`, `dag`: the data structure and its invariant.
- `reach`, `toposort`, `levels`: reachability, depth-first orders, levels.
- `topo_order`, `level_order`: when the members of a subgraph are nodes and
  its unit edges close no cycle, the depth-first order is topological, and
  the level of a node is the length of the longest path of edges to it.
- `sums`, `crossing`, `inter`, `optimizer`: crossing counts and the two
  optimizers (sinking nodes, reordering rows).
- `layout`: shapes, arrows and the lowering steps on a `VisualGraph`.
- `placement`, `lowering`: placing units in a rank, and the lowering driver.
- `placer`: the holder of a graph during placement.

`app/` holds what works in floating point: positions, the placer's
coordinate pass, and the driver that lowers a graph and then places it.
