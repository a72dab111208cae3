# walkthrough

A verified library for rendering narrative walkthroughs of code changes, and
the command line program around it.

- `src/` is the library, verified with Verus: the collected diff data model,
  chunk generation from unified diff hunks, line mapping between file
  versions, context and row computation, the HTML and text renderings of diff
  blocks, the first pass over a walkthrough's markdown (diff references,
  source excerpts, notes and folds), the passes that finish the page, and the
  coverage check of references.
- `app/` is the program: command line parsing, git and file I/O, JSON
  reading and writing, mermaid pre-rendering, and the page's style sheet and
  script.
- `tests/` holds the tests of the library.
