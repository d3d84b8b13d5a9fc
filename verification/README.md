# earcut

Polygon triangulation by ear clipping.

- `src/` is the verified library. `earcut::integer::EarcutI32` triangulates
  polygons (with holes) given by `i32` coordinates; every geometric predicate
  is computed exactly in 128-bit arithmetic. `earcut::integer::deviation`
  measures how far a triangulation's area is from the polygon's.
  - `integer/nodes.rs`: the node arena and its ring operations (insert,
    remove, split, merge), with the ring and z-order list invariants.
  - `integer/geom.rs`: exact predicates on points.
  - `integer/polygon.rs`: questions about a ring (leftmost point, diagonals).
  - `integer/ears.rs`: the three ear tests (exact, `i32` fast path, z-order hashed).
  - `integer/filter.rs`, `integer/cure.rs`: removing collinear and duplicate
    points, curing small self-intersections.
  - `integer/zorder.rs`: linking a ring in z-order.
  - `integer/holes.rs`: bridging holes into the outer ring.
  - `integer/clip.rs`: the ear clipping passes and ring splitting.
  - `integer/area.rs`: laws of the exact areas (a ring's signed area under
    rotation and reversal; the deviation under reordering triangles).
- `app/` holds the triangulator for floating-point coordinates, which is not
  verified.
- `tests/` exercises the library.
