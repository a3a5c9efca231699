# demo_studio

The verified core of a screen-demo studio that records a region of the
screen, logs pointer and keyboard metadata, composes zooms, blur masks,
cursor and shortcut overlays over the untouched source, and exports GIFs.

- `src/` is the library, verified with Verus:
  - `project.rs`: the project model; scene revisions, finalisation and
    crash recovery, with their laws (stale writes are rejected, recovery
    happens once, is bounded by the media and keeps every effect).
  - `analysis.rs`: click grouping, zoom windows that never overlap and
    each start before they end, the generated zoom over a window, and the
    merge of generated with manual zooms (stable sort by start).
  - `renderer.rs`: the active zoom and its ease-in/ease-out progress,
    cursor samples around a moment, click ring age, the visible shortcut.
  - `pixels.rs`: RGBA frame addressing and the drawing primitives (pixels,
    pixelation, the shortcut card, the cursor arrow) with exact
    per-pixel contracts.
  - `capture.rs`: session time, the capture summary, and the input
    sampler's decisions, including the rule that letters and Space are
    never logged without a modifier (only Enter, Esc and Tab may stand alone).
  - `binary64.rs`: binary64 arithmetic modelled over integers (rounding
    to the nearest 53-bit significand, ties to even), with the proof that
    rounding keeps the order of its operands.
  - `export.rs`: the GIF size estimate, computed step by step as binary64
    arithmetic does and proved to grow with every argument; the GitHub
    preset, the probe output parser and frame timing.
  Coordinates and factors are `f64` values carried as their bit patterns
  (`F64Bits`); other arithmetic on them stays outside the library.
- `app/` holds file and database I/O, FFmpeg processes, the floating-point
  geometry, the desktop commands and a command-line exporter.
- `tests/` exercises the library on concrete values.
