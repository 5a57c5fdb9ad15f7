# normfs

A write-ahead log for embedded systems, written and verified in Verus.

`src/` is the library. It holds everything that decides something: the formats of entries and
file headers, the pages in memory and when one may be reused, where files end, how files are
read back, and the order of the system calls that make a change durable. Every function there
carries a contract, and every contract is proved. The library does no I/O.

| Module | What it is about |
|--------|------------------|
| `varint`, `le`, `crc32c`, `uintn`, `text` | numbers, as bytes and as text |
| `wal_entry`, `wal_entry_v1`, `wal_header`, `wal_header_v1` | the two file formats |
| `wal_page`, `wal_ring_v1`, `wal_arena`, `page_pool` | the newest entries in memory |
| `writer`, `drainer`, `fault` | writing files, and finishing those that failed |
| `reader`, `stream` | reading files, whole or block by block |
| `history` | what holds of a writer and of the pages over a whole run |
| `paths`, `fs` | names of files, and durable changes to them |
| `offloader`, `seed`, `bounded_map`, `byte_map` | copying files away, the root secret, small maps |
| `buf` | the buffers of the `bytes` crate |

`app/` is the part that touches the world: tasks, channels, threads and system calls. Where
work and decisions take turns, the library offers a state machine: the caller asks it for the
next step, performs the step, and reports what came of it.

What is not proved is in `buf`, `wal_entry`, `seed` and `fs::plan`: what the functions of the
crates `bytes`, `xxhash-rust`, `zeroize` and `libc` do that the library calls.
