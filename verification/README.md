# async_vpk

Packs a folder into Valve Pak (VPK version 1) archives for the Source engine.

- `src/` is the verified library (Verus):
  - `entry` turns a file (relative name, parent directory, contents) into an
    archive entry: lower-case extension, stem, directory with forward slashes
    (a single space for an empty name), CRC-32, size. A file too large for the
    format halts packing.
  - `order` is byte-string order and a merge sort over any strict total order.
  - `tree` writes the directory tree: entries sorted by extension, directory
    and stem, and the data embedded after the tree in single-file mode.
  - `listing` reads a tree back as the engine does, and proves that every
    entry is found under its names with its record.
  - `layout` holds the header and the single-file layout.
  - `pack` packs data into 600 MiB chunks, largest file first, first fit.
  - `mode` holds the single/multi decision and the decisions of the window.
  - `icon` checks an ICO file, picks its largest image and decodes it.
- `app/` is the program around it: command line, window, walking and reading
  the folder in parallel, and writing the files.
- `tests/` run the library on concrete inputs.
