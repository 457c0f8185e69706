# mosh_whave

Mesh simplification and wave-function-collapse solving, written in Verus and
verified against their contracts.

- `src/hedge`: a half-edge mesh over keyed storages (building from and reading
  back to triangle buffers, face validity, neighbors and borders, merging face
  pairs and groups, merging coplanar faces with a caller's coplanarity test,
  key regeneration, vertex pruning, replacement and merging of vertex groups).
- `src/mizu`: a triangle mesh with its table of opposite sides, and its
  simplification by two-face and four-face replacements, with the caller's
  coplanarity and collinearity tests.
- `src/simplify.rs`: simplification over vertex and triangle buffers, through
  the Mizu mesh, with the caller's coplanarity and collinearity tests.
- `src/prune.rs`: dropping the triangles that touch given vertices.
- `src/groups.rs`: the triangles at each vertex, and connected groups of
  triangles that a caller's test calls coplanar.
- `src/whave`: positions and grids, samplers over the cells, generations
  (domains reached pass after pass), and the solver.
- `src/hash_tables.rs`: the `hashbrown` and `ahash` tables the logic uses,
  with their contents named for the contracts.
- `app/`: a small program with the geometry on `glam` vectors (face normals,
  coplanarity and collinearity tests), the `thiserror` face errors, and the
  operations that rest on floating point or on the vertex data's `Eq` and
  `Hash`.
