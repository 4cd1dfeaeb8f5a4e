# voxel_engine

A small block world (chunks of 16 x 32 x 16 blocks, flat terrain with
trees) with sky lighting, and the game rules around it, written in Verus:
the library in `src/` is verified, and `app/` is the game that draws it with
wgpu and winit.

- `block`, `item`: block and item kinds.
- `chunk`: one chunk's blocks, terrain generation and the chunk's sky light
  flood fill, whose result is proved to be the one settled lighting.
- `world`: the loaded chunks, block reads and writes at world positions,
  and the incremental relighting done when a block changes.
- `mesh`, `selection`: which block faces are drawn, the outline of the
  selected block, where a placed block goes.
- `inventory`, `input`, `player`, `events`: slot clicks, button and key
  edges, movement keys, and the event loop's decisions.
- `texture`: the placeholder checkerboard.
- `randomness`: the calls into `rand` that tree growth makes.

The floating-point parts (player physics, ray casting, camera, vertex
positions) and everything that talks to the GPU or the window live in
`app/`.
