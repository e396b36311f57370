# helix_notebook

The editing core of a notebook-capable text editor, written in Verus. The
functions in `src/` are verified against their contracts, except a few small
trusted wrappers, marked `#[verifier::external_body]`, around calls into
`regex`, `unicode-width` and std's clock, whose contracts Verus takes on
trust. Where an outcome rests on the clock, the disk or a user-supplied
terminal backend, the contract states what holds whatever comes back.

## Layout

- `src/history.rs`: the undo tree of a buffer — commits, undo and redo,
  user-facing undo and redo that skip plugin output, and jumps by steps or by
  time; parsing of `:earlier`/`:later` arguments such as `1m 30s`.
- `src/text_annotations.rs`: virtual text — inline annotations, grapheme
  overlays, raw terminal content kept sorted by position, line annotations,
  and the layered lookups a traversal of the document makes.
- `src/annotations/`: rows that plugins attach to source lines (math
  layouts, cell output, stale-cell tags), and how all display layers follow an
  edit of the document.
- `src/decorations.rs`: clamping rows of styled output to the viewport, and
  stacking math rows and stale-cell tags around a source line.
- `src/raw_surface.rs`, `src/terminal.rs`: the graphics layer of a frame and
  the terminal front end, which decides what each flush and draw sends to the
  backend; a backend that reports its state records the requests made of it,
  and the contracts state them in order.
- `src/graphics.rs`: the Kitty graphics protocol's delete escape and image
  ids.
- `src/kernel.rs`: a notebook kernel's files, runner script and output, and
  the steps of waiting for a run's result.
- `src/init_cache.rs`, `src/paths.rs`: validating the cache of the compiled
  Steel init script, and ordering paths by their components.
- `src/animation.rs`, `src/completion.rs`: redraw timing and the ranking of
  emoji completions.
- `src/text.rs`, `src/time.rs`, `src/pattern.rs`: characters and decimal
  numbers, durations and instants, and regular expressions.
- `app/`: the I/O around the library — kernel processes, the cache files,
  serialisable copies of library types.
- `tests/`: tests of the library from the outside.
