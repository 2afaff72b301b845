# distract_engine

The engine behind the distract overlay and its sprite importer, as a library
whose behaviour is stated in Verus contracts and proved.

- `src/` is the verified library: the event journal, window placement, the
  snapshot subscription, RGBA images, voxel meshing and the mesh book, the
  sprite atlas, the compositor, background removal, the importer's command
  line, grid slicing, sheet packing, the RGBA sidecar format, the manifest
  vocabulary and capability check, the manifest scaffold, the golden-file
  comparison of sprite sets, what the sprite export writes (SVG frames,
  the contact sheet, the gallery page), loading assets from their files'
  bytes (still images, GIFs frame by frame, folders of frames), the asset
  cache that skips unchanged manifests, the state machine's action and event
  decisions, and the redraw decision of the overlay's loop. Laws that relate
  several calls are public proof functions named `law_*`.
- `tests/` runs the library on concrete values.
- `app/` is the `import_sprite` program: reading files and directories, the
  PNG encoder for the packed sheet, the floating-point colour distance that drives background removal, and the JSON
  forms of the manifest vocabulary.

The library calls the `image` crate for decoding, alpha compositing and
resampling; those calls, `String::from(char)` and
`str::to_lowercase`, are the trusted items, each stated in a
doc comment where it is declared.
