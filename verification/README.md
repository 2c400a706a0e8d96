# gol_rs

Life-like cellular automata (Conway's Game of Life, HighLife, Seeds, Brian's
Brain, …) with the simulation, rule, pattern, RLE, rendering and protocol
logic written in Verus and proved against its contracts.

Layout:

- `src/` — the verified library.
  - `grid`, `rule`, `state`: cells, ages, neighbour counts, one generation
    under a birth/survive rule or Brian's Brain, whole or band by band.
  - `history`, `simulation`: cycle detection over generation hashes and over
    exact packed states.
  - `pattern`, `rle`: patterns, the RLE codec and its round trip.
  - `patterns`: built-in seeds, loading RLE / Life 1.05 text into a grid,
    RLE and ASCII dumps.
  - `save_load`: what loading a saved grid gives back.
  - `transform`: rotation and mirrors.
  - `render`, `theme`, `sparkline`: terminal frames, PPM images, colour
    themes and the population sparkline, as text or bytes.
  - `cli`, `session`, `term`: command-line configuration and the decisions
    of the simulation loop (keys, stop conditions, statistics, summaries).
  - `wire`, `server`: base64, SHA-1, WebSocket framing, request routing and
    control commands of the streaming server.
  - `text`: character-level helpers and the trusted calls into std.
- `tests/` — tests of the library.
- `app/` — the `gol` program: arguments, terminal, files, clock, random
  numbers and worker threads around the library.
