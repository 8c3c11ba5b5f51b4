# Nebula

The logic of a distributed, multi-tenant WebAssembly runtime, written in Rust and
verified with Verus.

* `src/` is the library. Verus checks every function in it against its contract;
  the calls into other crates stand behind small wrappers whose doc comments say
  what is taken on trust.
* `tests/` runs the library.
* `app/` is the program around it: sockets, files, threads, the WebAssembly
  engine and the JavaScript engine. It decides nothing that the library decides.

| Modules | What they hold |
|---|---|
| `gateway`, `answer`, `auth`, `ratelimit`, `idempotency`, `trace`, `header` | A request from its headers to its answer |
| `publish`, `registry`, `wizer` | A deploy, from the artifact to the saved table |
| `membership`, `ring`, `control`, `cluster`, `heartbeat` | Who is in the cluster, and who gets which key |
| `worker`, `exec_pool`, `cache`, `engine` | Admission, artifacts, and modules in memory and on disk |
| `host`, `kv`, `egress` | What a guest may ask of its host |
| `mcp`, `script` | The tool server, and what a script sees |
| `proto`, `tls`, `clock`, `table`, `tally`, `text` | Messages, naming, and shared groundwork |
| `boot`, `bench` | The example guest with an expensive boot, and the benchmark's arithmetic |

Times are nanoseconds since a clock's start. A function that reads a clock has a
sibling, its name ending in `_at`, that takes the time as an argument.
