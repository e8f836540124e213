# doom_wad

Reading Doom WAD archives, with every function of the library verified by Verus.

- `src/wad/bytes.rs`: little-endian integers and fixed-size records.
- `src/wad/types.rs`: lump names, the map records (things, linedefs, sidedefs,
  vertices, sectors), flats, pictures and their column format, texture headers and
  patch drawing.
- `src/wad/mod.rs`: the WAD file: header, directory, marker lumps, lookups and lumps.
- `src/wad/texture.rs`: composing wall textures from PNAMES, TEXTURE1 and TEXTURE2.
- `src/map.rs`: a map's lumps, its wall mesh and the outlines of its sectors.
- `src/palette.rs`: the palette and true-colour images.
- `app/`: a viewer built on bevy that shows map E1M2 of the WAD named on the command
  line; it turns the library's integer geometry into float meshes and triangulates
  the floors with i_triangle.
