# dxf_parser

The reading side of a browser DXF viewer, verified with Verus.

- `src/` is the verified library: the group-code pairs of a DXF text
  (`pairs`), character utilities (`chars`), the structure of the `ENTITIES`
  and `BLOCKS` sections (`scan`), the numeric fields of an entity read over a
  number type of the caller's choosing (`fields`), block references and
  annotation text (`plans`, `text`), the warnings of a parse (`report`) and the
  JSON document handed to the viewer (`json`), with a model of JSON values
  and a reader for JSON text under which that document reads back as what it
  was written from (`json_value`).
- `app/` holds the WebAssembly entry points and the geometry that computes
  with floating-point coordinates (arcs, ellipses, block transforms), built on
  the library.
- `tests/` exercises the library on concrete DXF fragments.
