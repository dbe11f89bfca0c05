# ipcow

A multi-port TCP listener and network reconnaissance tool. The decision
logic is a library whose functions carry contracts checked by Verus; the
program around it does the terminal, socket, file and timer work.

## Layout

- `src/` — the verified library.
  - `sockparse` — listen-address input (ranges, CIDR blocks, `X` wildcards,
    single addresses) and port input (ranges, lists, single ports).
  - `text` — the character-level helpers the parsers and formatters use:
    splitting, trimming, unsigned-integer reading and decimal text.
  - `types` — address and connection types, network errors, and the plan
    of listeners (one per address and port).
  - `error` — the error registry and its identifiers.
  - `state`, `config`, `fuzzing`, `web_server` — the core's state and
    settings.
  - `handlers` — the HTTP reply and the service-discovery log entry.
  - `discovery` — the latest answer of each peer that connected.
  - `ping` — host liveness history and the port-scan state machine.
  - `cube` — line rasterisation and canvas text for the ASCII animation.
- `tests/` — tests of the library on concrete values.
- `app/` — the command-line program: menus, sockets, files, timers, the
  float geometry of the animation and the worker-count benchmark.
