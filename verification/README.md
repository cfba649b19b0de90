# voxel_world

The game logic of a voxel world viewer, verified with Verus.

- `src/vxl.rs` decodes `.vxl` voxel maps (512 x 512 column records of colour spans).
- `src/input.rs` keeps the keyboard state from frame to frame.
- `src/textures.rs` chooses the render target shown on screen.
- `src/model.rs` groups the meshes of a model by texture.
- `src/store.rs` stores shader programs and render targets by name.
- `src/frame.rs` paces frames and keeps the window bookkeeping.
- `src/collision.rs` looks up solid voxels for the walking camera.
- `src/map.rs`, `src/components.rs` hold the shared types.

`app/` is the program around the library: window, OpenGL drawing (glium), the
entity-component system (specs), float arithmetic (nalgebra-glm), file reading,
model and image loading (tobj, image) and random light colours (rand).
