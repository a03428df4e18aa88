# CodeFlow

CodeFlow turns source code into control-flow graphs and draws them as
orthogonal flowcharts.

- `src/` is the verified library. The parsers (`python_flow`, `rust_flow`,
  `octave_flow`) build flow graphs (`graph`); the layout places nodes in lanes
  and levels (`layout`), plans and routes every edge (`plan`, `ports`,
  `router`, `routing`, `scoring`, `passes`), places labels (`labels`,
  `render`) and checks the result (`validate`). `parsers` holds the command
  lines handed to the extractor programs.
- `app/` holds the programs: the `codeflow` command, the extractors and the
  renderer. They read and write files, parse command lines, draw with
  `image`/`imageproc` and measure text with `ab_glyph`.
- `tests/` runs the library on concrete graphs and sources.
