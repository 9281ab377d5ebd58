# molasses

A particle-fluid playground: a GPU smoothed-particle simulation that flows
around textured objects, with a small game on top. The logic that decides
what the GPU is given is a Verus library, proved against its contracts; the
window, the device and the floating-point parts sit around it in `app/`.

## Layout

- `src/` — the verified library
  - `textures.rs`: texture atlases (grid choice, padded packing, built-in
    textures), with laws on where every texture lands
  - `pixels.rs`: RGBA images, a borrowed one-channel image, decoding of
    image files
  - `envelope.rs`, `distance.rs`: the exact squared Euclidean distance
    transform of the object mask (lower envelope of parabolas, one pass per
    axis)
  - `batches.rs`: grouping of object quads into one draw per atlas
  - `schedule.rs`: the bitonic-sort passes and workgroup counts of the
    simulation
  - `shader.rs`: splitting shader sources into lines and splicing in the
    files their directives name
  - `storage.rs`: hexadecimal storage of bytes, and the hand-over of a picked
    image
  - `events.rs`: start-up, window input, the read-back of the object mask
  - `buffers.rs`, `surface.rs`: buffer growth and surface set-up decisions
- `tests/` — tests of the library on concrete values
- `app/` — the program: winit event loop, egui settings and object editor,
  wgpu device, pipelines and
  buffers, the force field's gradient, the game

Shaders are read at run time from `shaders/` under the working directory.
