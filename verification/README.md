# mt_client

A Minetest client in Rust, with the logic of its map renderer, media
handling, input and connection verified with Verus.

## Layout

- `src/` — the verified library.
  - `pos.rs` — map block positions, face directions, position keys.
  - `schedule.rs` — when a loaded block is handed to the mesh generator:
    once all six neighbours are loaded, or once 100 ms of waiting have elapsed.
  - `mesh.rs` — which faces of the nodes of a block a mesh shows.
  - `image.rs` — RGBA images: decoding (via `image`), flipping, copying,
    blending.
  - `texture.rs` — texture strings (`a.png^b.png`).
  - `media.rs` — the base and server media packs, textures, texture strings.
  - `atlas.rs` — packing the node textures into one atlas (via
    `guillotiere`).
  - `input.rs` — pausing, the debug menu and movement keys.
  - `net.rs` — how the connection reacts to packets, timers and window
    events.
- `tests/` — tests of the library.
- `app/` — the program around it: the window and GPU work (`winit`, `wgpu`),
  the camera, the network loop (`tokio`, `mt_net`), and the embedded base
  texture pack.
