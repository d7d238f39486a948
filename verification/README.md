# Image Bench

Image Bench is a local-first GNOME utility for batch image resizing and
optimization (JPEG and PNG).

The `image_bench` library in `src/` holds the rules, verified with Verus:

- `logic`: target dimensions (aspect ratio kept, never upscaled), the quality
  presets and the lossless PNG compression mapping, output file naming with
  collision counters, the rule that an exported JPEG is never larger than its
  source, and byte sizes for display.
- `processor`: the search for the highest JPEG quality whose output fits the
  source size, CPU resizing, and what a render and an export produce.
- `image`: decoded pixel buffers, row packing and RGB/RGBA conversion for the
  GPU path, and when the GPU is used.
- `queue`: per-image settings, copying settings, import de-duplication,
  available actions and the batch summary.
- `i18n`, `config`: placeholder filling for translated messages, build-time
  configuration.

`app/` is the GNOME program around it: decoding and encoding with Glycin, GPU
resizing with wgpu, file access, translations and the GTK/libadwaita window.
