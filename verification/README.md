# framework

The verified core of a small 2D game framework and of the two games built on
it (a Doodle-Jump-like jumping game and a survival game).

- `src/world.rs`: `DenseStorage`, a generational slot map that keeps its
  items packed, and the `World` that holds the entities' positions. Ids stay
  valid while their entity lives and never resolve again once it is removed.
- `src/sound.rs`: the sound system's bookkeeping: loaded tracks, players, and
  which player takes the next sound.
- `src/sprite.rs`: sprite maps, the registry of loaded maps, lookup of a
  sprite by name, quad indices.
- `src/texture.rs`: decoding of texture images to RGBA through the image crate.
- `src/platforms.rs`: removal of the platforms a bounce broke.
- `src/geometry.rs`: glam's vector types, carried through unread.

`app/` holds what Verus does not take: floating-point geometry and physics,
serde file formats, file reads and audio output through rodio.
