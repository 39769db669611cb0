# oersted

The integer core of an octree-accelerated (Barnes-Hut) magnetostatics library,
written in Verus with its behaviour proved.

- `src/` is the verified library: Morton codes (`morton`, `octree::node`), the
  breadth-first octree topology built from sorted codes (`octree::topology`), the
  depth-first traversal and the interaction lists grouped by source
  (`octree::evaluation`), stable sorting permutations (`math`), surface detection
  on tetrahedral meshes (`mesh`), and the choice of evaluation kernels
  (`biotsavart`, `octree::kernels`).
- `tests/` runs the library on concrete inputs.
- `app/` holds the floating-point side: field kernels, mesh geometry, node
  moments, the magnetization solver and the multi-threaded evaluation, which call
  the library for every integer decision.
