# rusdd core, verified

The verified core of a bit-by-bit media duplicator ("really useful" SD-card
duplicator): it reads a source (drive or file) stride by stride, classifies
each stride as Good (readable data), Bad (read error) or Ugly (one 4-byte word
repeated), builds a layout of merged segments, keeps rolling Adler-32
checksums, and optionally copies the source into a destination, deferring
uniform runs and truncating trailing empty space.

- `src/` is the library, verified with Verus: every decision of the traversal,
  the classification, the layout, the checksum, command-line parsing, and the
  text of the banner, the help, the layout listing and the imaging report.
- `app/main.rs` is the program around it: argument access, files and devices,
  reads, seeks and writes, progress on the clock, and printing, including the
  progress lines, the end-of-media notices and the inspecting/imaging lines,
  which it composes itself.
- `tests/` run the library on concrete values.
