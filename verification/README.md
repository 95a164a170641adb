# mh1tool

Readers for the data files of the first Monster Hunter game: the `meltw`
decompressor, link-file archives, APX textures and AMO models, with a small
command-line tool that writes textures as PNG files and models as binary glTF.

The library in `src/` is verified with Verus: every public function states in
its contract what it returns, over spec functions that describe each format
directly, and the laws of the formats (unswizzling is an involution, strips
unroll into whole non-degenerate triangles, gathering strips by material loses
nothing, parsed textures decode, ...) are proved as proof functions.

- `melt`: the decompressor, against a step-by-step spec of the stream.
- `links`: link-file entries, the texture list and the model/hierarchy split.
- `apx`: texture headers, mip level layout, index and palette unswizzling,
  parsing and decoding to RGBA.
- `amo`, `mesh`, `strips`, `listing`: the chunk tree of a model, lookups in
  it, the mesh and model views, triangle strips, and a chunk listing.
- `amoold`: an earlier chunk reader of the same format, with its directory.
- `glb`: the padding of buffer views and the framing of a `.glb` file.
- `plan`: what a glTF export of a model holds as plain values: the meshes
  written and their attributes and primitives, each material's texture, the
  image file names and the output names.
- `bytes`, `cast`, `text`: little-endian fields (read through `byteorder`),
  record size checks, decimal text and substring replacement.

`app/` holds the command-line tool: file I/O, PNG writing through `image`, the
floating-point parts of a model (joint weights, material factors) and the glTF
JSON built with `gltf-json`.
