# lpframe

The logic of a wall-mounted album-art display, verified with Verus. A receiver
for wireless audio writes what it learns about the music into a pipe; the
daemon follows it, decides what is shown and whether the amplifier is on, looks
for sharper artwork, and tells its clients.

## Layout

`src/` is the library. Every function states what it does in a contract, and
the laws that hold between functions are public proof functions.

| Module | What it holds |
|---|---|
| `machine`, `meta`, `session_laws` | the state machine that follows a listening session |
| `runtime`, `hub`, `ipc`, `proto`, `pipe`, `gpio` | what the daemon does with its inputs and how it answers clients |
| `artwork`, `digest`, `pixels`, `single` | image files, digests, pixels, numbers held as bits |
| `enrich` | finding a sharper cover: names, catalogues, rate limits, gates, the cache |
| `config`, `overrides`, `document`, `value`, `duration` | settings, their two layers, and changes to them |
| `web` | who may use the web interface, and what its requests come to |
| `capture` | captures of the metadata stream: reading, writing, packing, replaying |
| `client` | the command-line client |
| `strings`, `double` | texts as sequences of characters, and double-precision numbers |

`app/` is the program around it: sockets, files, threads, HTTP, SQLite and the
GPIO line. `tests/` runs the library on concrete values.

## What is not proved

Calls into other crates are behind a few items that are believed rather than
proved: the SHA-256 digest, the password hash, random bytes, the comparison of
secrets, image decoding, the TOML and JSON parsers, and a handful of functions
on text and paths from the standard library. Each says in its documentation
what it claims.
