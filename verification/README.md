# image_processor

A command-line tool loads an image, hands its RGBA pixels to a processing
plugin (box blur or mirror) together with a `key=value` parameter text, and
saves the result as PNG.

- `src/` is the verified library: the parameter format (`params`), the RGBA
  layout (`raster`), the two filters with their parameters (`blur`, `mirror`)
  and the host's checks before a plugin call (`plugin_loader`).
- `app/` holds the command line, the file and image I/O, the dynamic loading
  of plugins and the plugins' C entry points.
- `tests/` runs the library on concrete inputs.
