# arroyo-state

Checkpoints of the state of streaming operators, kept in Parquet files.

`src/` is the library. It is verified with Verus: every function states what it returns or
changes, and the laws that relate several functions are proved next to them.

| module | what it holds |
| --- | --- |
| `types`, `storage` | the plain values that the logic works on, and how the storage is configured |
| `decimal`, `paths` | where checkpoint data and metadata lie |
| `columns` | columns, batches and Parquet files; all that rests on `arrow-array`, `arrow-schema` and `parquet` |
| `batch`, `flusher` | collecting rows, and writing them at a checkpoint |
| `ordered`, `tables`, `files` | tables and state files, walked in order, and which files a checkpoint keeps |
| `triples`, `backend` | restarting from a checkpoint, and reading state |
| `compaction`, `checkpoints` | removing checkpoints that are no longer needed |
| `recovery`, `durability` | what is read back of what was written |

The flusher and the two compactions decide and do no I/O: each takes an event and answers with
an action. `app/` performs the actions. It holds the storage, the queues, the clock, the
environment, the encoding of metadata, and the encoding of keys and values.

`tests/` runs the library, with the outside crates linked.
