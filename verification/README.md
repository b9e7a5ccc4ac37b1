# cart

A cache-aware router for a pool of LLM inference replicas. It keeps a radix tree
of which prompt prefix was last sent where, and routes a request to the replica
that already holds the longest matching prefix, unless that replica is too busy.

The library under `src/` is verified with Verus; `app/` is the program around it
(sockets, files, signals, background tasks).

| Module | What it holds |
|---|---|
| `tree`, `stats` | the radix tree: recording, matching, evicting, measuring |
| `node`, `marks`, `record`, `prune`, `count`, `prefixes` | its edges and their marks |
| `pool`, `routing` | who may get a request, which replica gets it, and why |
| `worker`, `circuit_breaker` | a replica: load, health, circuit breaker |
| `proxy` | attempts and retries, forwarded headers, streams |
| `extract`, `json` | the text that a request is routed by; remote media |
| `config`, `layers`, `yaml`, `reload` | configuration: checks, layered files, reloading |
| `eviction` | when the tree is evicted, and down to which size |
| `server`, `debug` | what the endpoints answer |
| `float32`, `text` | comparisons of binary32 numbers, texts |
| `metrics` | call sites for metrics, without effect |

Thresholds are binary32 numbers and are held as bit patterns (`F32`); the
comparisons with them are stated over the exact numbers, rounding included.
Moments are arguments: nanoseconds on a monotonic clock, or seconds since the
epoch. Texts are counted in characters.

The limit of an eviction holds twice: no tenant keeps more characters, and the
tree keeps no more nodes. What goes was recorded longest ago. Whatever works its
way through the tree is a loop, so that a deep tree needs no deep stack.

Six functions call other crates and are trusted: one picks a replica at random
(`rand`), three read JSON texts (`serde_json`), two read YAML texts
(`serde_yaml`). What is claimed of each stands above it.

The program keeps the replicas and the tree behind a lock each. An eviction
searches under a shared lock, so that matching goes on, and has the tree to itself
only while it removes what it found. While that takes long, texts are not
recorded, and requests are routed by load alone.
