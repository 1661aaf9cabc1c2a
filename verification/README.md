# bloat

Interactive disk-usage treemap for the terminal, as a verified library with a
thin program around it.

- `src/` — the library, verified with Verus: the arena tree of directory sizes
  (`arena`), the squarified layout (`treemap`), which tiles each directory
  shows and how they nest (`tiles`), the pixel raster and label placement
  (`raster`, `labels`), navigation (`nav`), the largest-files collection
  (`top`), what each walked entry adds to the tree, hardlinks counted once
  and `--exclude` matching (`scan`), size and text formatting
  (`fmt`, `text`), calendar dates (`civil`), version and remote parsing
  (`version`), the wording of `doctor` (`maintenance`), colours (`palette`)
  and report colouring (`report`).
- `app/` — the program: command line, the parallel walk, the terminal UI,
  the report, `doctor`/`update`/`completions`, and the floating-point colour
  maths.
- `tests/` — tests of the library.
