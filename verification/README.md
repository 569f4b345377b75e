# hyleus

The verified core of the Hyleus game engine, written in Verus.

`src/` is the library. Every function in it is verified against its
contract, except the few small wrappers that call std or zstd, whose
contracts are trusted and stated in their doc comments:

- `random` — `HylRandom`, a Xoroshiro128+ generator seeded through SplitMix64:
  draws of every integer width, unbiased bounded draws, byte filling, choices
  and a Fisher-Yates shuffle, each stated over the generator's state.
- `binary` — little-endian reading and writing over in-memory streams
  (integers, strings, and floats, vectors, quaternions and matrices as their
  bit patterns), with round-trip lemmas.
- `mesh_file` — the `.mod` mesh file format (header, zstd stream, payload):
  decoding and encoding, and the lemma that loading a saved mesh gives it back.
- `mesh_shapes` — the triangle index lists of the primitive meshes and the
  terrain, each shown to name only existing vertices.
- `noise` — the lattice hash, period factors, corner hashes and gradient bit
  patterns of the gradient noise, and the lemma that periodic corner hashes
  repeat after a power-of-two period.
- `ai` — the choice of an AI behaviour's next task and the steps of its
  update.
- `devices` — the pressed state of the keyboard's keys and the mouse buttons.
- `color`, `interpolation`, `texture`, `vectors`, `behaviors` — small types.

`app/` is the program around it: file I/O, the floating-point parts (float
draws, noise interpolation, vertex positions and normals, colour blending,
frame timing) and the task objects of the AI. `tests/` runs the library on
concrete values.
