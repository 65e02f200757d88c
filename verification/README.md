# fakestream

A minimal local stream service that speaks the Kinesis wire protocol for producers and polling
consumers: streams cut into shards, records with ever-growing sequence numbers, shard iterators,
retention, and a write-ahead log that carries unconsumed records over a restart.

The logic is a Verus library: every function states what it returns or changes, and Verus proves
it. What touches sockets, files, threads and floating point is ordinary Rust around it.

## Layout

`src/`, the verified library:

| Module | What it holds |
|---|---|
| `text` | decimal numbers, prefixes and suffixes, the order of strings, white space |
| `clock` | the wall clock in milliseconds |
| `json` | JSON values: reading, writing, looking up |
| `protocol` | errors, the operation header, base64 payloads |
| `params` | request parameters and the errors they give |
| `streams` | records, shards, streams, and the collection that finds a stream by name |
| `store` | the state: creating, putting, trimming, replaying, iterators |
| `token` | shard-iterator tokens |
| `records` | pages of records and the GetRecords body |
| `ops` | one handler per operation |
| `wal` | frames, segments, and the decisions of the write-ahead log |
| `maintenance` | what comes next in a maintenance cycle |
| `manifest` | the stream definitions that survive a restart |
| `metrics` | counters and the Prometheus text |
| `config` | settings from the environment and the command line |
| `router` | from a request to its operation and its answer |
| `store_laws`, `read_laws`, `ops_laws`, `wal_laws` | what holds over several calls |

`app/` is the program: the HTTP loop, the worker threads, the maintenance thread, and the files.
`tests/` runs the library with the real outside crates.

## How the pieces are stated

Each type has a view, a mathematical value (`StoreV`, `StreamV`, `RecordV`, `JsonV`, ...), and each
operation a spec function from views to views. An operation that reads the clock has a twin that
takes the time (`put` and `put_at`); the twin's contract is exact, and the other says that it is the
twin at some time.

Base64, MD5, postcard, and JSON parsing and string escaping come from outside crates. Each is called
behind one small function whose contract is trusted and whose comment says what is claimed.

## Settings

| Flag | Environment | Default |
|---|---|---|
| `--port` | `FAKESTREAM_PORT` | 4567 |
| `--persist <dir>` | `FAKESTREAM_PERSIST_PATH` | off |
| `--persist-interval <secs>` | `FAKESTREAM_PERSIST_INTERVAL` | 5 |
| `--segment-bytes <n>` | `FAKESTREAM_SEGMENT_BYTES` | 67108864 |
| `--retention-hours <n>` | `FAKESTREAM_RETENTION_HOURS` | 24 |
| `--ttl-seconds <n>` | `FAKESTREAM_TTL_SECONDS` | (wins over hours; 0 keeps forever) |

The environment wins over the command line.
