# avian_core

The bookkeeping of a rigid body engine, with contracts that Verus proves.

The library (`src/`) holds the parts of the engine that are decisions and data structures:

- `islands`: persistent simulation islands. Bodies that hang together by contacts and joints share an
  island; islands merge as constraints appear, are split once constraints are gone, and sleep and wake
  up as a whole.
- `contact_graph`, `joint_graph`, `joints`, `narrow_phase`: contact pairs and joints, what becomes of
  them when colliders, bodies and joints come and go, and who hears of collisions.
- `solver_bodies`, `rigid_body`: which bodies take part in the simulation, and their places in the
  arrays of the solver.
- `collider_tree`: which collider is in which tree of the broad phase, and which proxies moved.
- `body_size_metrics`, `ticks`, `shapes`: size metrics of bodies, change ticks, edges of polygons.
- `bit_vec`, `stable_vec`, `body_colliders`, `entity`, `float_bits`: what the others are made of.

Times and sizes that the decisions compare are held as bit patterns of single-precision numbers.

The application (`app/`) is the engine around the library: components and plugins for Bevy, shapes,
bounding boxes and all other floating point arithmetic.

`tests/` runs the library on concrete scenes.
