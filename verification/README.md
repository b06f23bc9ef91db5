# kicad_spaghetti

A KiCad post-processing tool that models PCB tracks as networks of
spring-connected masses, relaxed by tension and repulsion forces.

The crate is split in two:

- `src/` is the verified library (Verus). It holds the board topology and the
  bookkeeping that the simulation relies on: typed indices, Morton sort keys,
  resettable settings, points/edges/polygons/vias/footprints, chaining of
  track segments into curves and of courtyard segments into outlines, the
  reordering of points that keeps every reference intact, the rebuilding of
  curves during resampling, the bucketed quadtree, the filters that pick
  collision candidates, and the decisions of the simulation loop. Positions and lengths are type parameters; every
  floating-point operation is supplied from outside through the `Geometry`
  and `QTreeData` traits.
- `app/` is the program around it: the KiCad connection, the floating-point
  physics (forces, collisions, integration), the simulation thread, and the
  wgpu/egui user interface. Shaders are read at run time from `shaders/`.

`tests/` exercises the library on concrete values.
