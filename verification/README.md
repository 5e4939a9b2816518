# kuula

A fantasy console: carts draw on an indexed screen, play tracker music and
samples, keep eight save slots, and may talk to one peer. This crate is the
console's logic, executable Rust whose behaviour is stated in contracts and
proved by Verus.

- `src/` is the library. Each module states what its functions do over
  mathematical models; the functions named `law_*` are the promises that
  span several calls.
- `tests/` runs the library on concrete values.
- `app/` is the program around it: arguments, files, processes and the
  parsers of TOML and JSON.

| modules | what they hold |
|---|---|
| `buf`, `resources`, `pen`, `palette`, `font`, `raster`, `blit`, `assets`, `draw` | buffers and their budget, drawing, sheets and maps |
| `audio` | synthesised voices, samples, the tracker format and the mixer |
| `codec` | the canonical text and JSON forms of values |
| `console`, `shell`, `manifest`, `settings`, `save`, `snapshot`, `meter`, `error_screen`, `input`, `fault` | a cart, the shell over it, and what they keep |
| `net` | what a cart sees of the network, a pair in memory, and the link to a transport |
| `ipc`, `wire`, `broker`, `remote`, `worker`, `sandbox` | a cart in a process of its own |
| `cli`, `carts` | the command line's decisions and the list of carts |
| `apidoc` | the generated sections of the reference |
| `text`, `math`, `shared` | what the others share |

A few calls leave the verified code: the PNG decoder and encoder
(`assets`), and four functions of the standard library (`text`, `shared`).
Their contracts say what is relied on.
