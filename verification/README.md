# tile_puzzle

A small rotation puzzle. A wave function collapse lays pipe-like tiles on a
four by four map, every tile is then turned at random, and the player turns
tiles back until every opening meets an opening of its neighbour.

- `src/` is the verified library (Verus):
  - `direction.rs`: the four sides of a tile.
  - `app.rs`: tiles and their turns, the sprite of each tile, the map rules
    (is it solved, moving the selection, turning the selected tile, the game
    state) and drawing into a frame buffer.
  - `wave_function_collapse.rs`: the cells of the collapse and the generator,
    with the proof that every puzzle it makes can be solved by turning tiles.
  - `sprite.rs`: RGBA sprites, decoding, resampling and the pixel steps of a
    rotation (padding, quarter turns, shears, cropping).
  - `wfc.rs`: a cell record that remembers whether it collapsed.
- `app/` is the program around it: the window and event loop (winit, pixels),
  keyboard input, and the floating-point parts (animation tweens, rotation
  angles and resampling factors).
- `tests/` exercises the library.
