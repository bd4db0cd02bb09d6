# Statika

Statika is a lightweight static file server for Linux. It serves files. It does not proxy, transform,
render, list directories, or execute application code.

## Behavior

- `GET` and `HEAD` only.
- `/health` and `/healthz` return `200 OK`.
- Missing `/assets/...` paths return `404 Not Found`.
- Missing non-asset paths fall back to the configured index when it exists.
- `.br` and `.gz` sidecars are served when the client accepts them; Brotli wins ties.
- Fingerprinted assets such as `app.0123abcd.js` may be kept for a year, other assets for an hour; the
  index and what it stands in for is checked every time.
- Files are opened component by component below the document root, and symbolic links are not followed.
- Each connection has a bounded total lifetime from acceptance, including the time it waits in the queue.
- `SIGINT` and `SIGTERM` initiate graceful shutdown.

## Layout

`src/` is the library, verified with Verus. It holds every rule of the server and touches no socket, file
or thread. Its entry points are `config::Config` for the configuration, `reader::RequestReader` and
`http` for requests, `exchange::Exchange` for the way from a request to its response, `queue` for
connections that wait, `net` and `fs` for what to do with each outcome of a system call, `server` for
accepting and stopping, and `log` for the log. What the server promises as a whole is stated and proved
in `behavior` and `framing`, and what each part promises beside the part.

`app/` is the program around the library: arguments, environment, sockets, files, threads and signals.
`tests/` runs the library on concrete values.

## Configuration

`STATIKA_ROOT` is required; everything else has a default.

| Variable | Default | Constraint |
| --- | --- | --- |
| `STATIKA_ROOT` | required | absolute document-root path |
| `STATIKA_LISTEN_ADDR` | `0.0.0.0:8080` | socket address |
| `STATIKA_INDEX` | `index.html` | relative path below root |
| `STATIKA_ASSETS_PATH` | `/assets` | absolute URL prefix |
| `STATIKA_THREADS` | available CPUs, capped at `32` | `1..=256` |
| `STATIKA_QUEUE_SIZE` | `threads * 64` | `1..=65536` |
| `STATIKA_GZIP` | `true` | boolean |
| `STATIKA_BROTLI` | `true` | boolean |
| `STATIKA_DENY_DOTFILES` | `true` | boolean |
| `STATIKA_REQUEST_TIMEOUT_SECS` | `5` | `1..=300` |
| `STATIKA_SHUTDOWN_TIMEOUT_SECS` | `10` | `1..=300` |
| `STATIKA_EXTRA_HEADERS` | none | up to 32 lines of `Name: value` |

Accepted booleans are `1`, `true`, `yes`, `on`, `0`, `false`, `no`, and `off`.
