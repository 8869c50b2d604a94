# lsmrs

A key-value store built as a log-structured merge tree, verified with
[Verus](https://github.com/verus-lang/verus).

`src/` is the library: every decision that the store makes, and every byte that it
writes or reads, with contracts and proofs. It does no input or output. Where bytes
of a file or a socket are needed, a function says which, and goes on when it is
given them. `app/` is the program around it: files, sockets, threads, the prompt.

| module | what it holds |
| --- | --- |
| `entries`, `order` | the model: entries, key order, which entry counts |
| `codec`, `text`, `hash`, `checksum` | little-endian integers, decimal numbers, the key hash, the log's checksum |
| `bloom` | the bloom filter |
| `memtable` | the newest entries, in key order |
| `wal` | the write-ahead log |
| `sstable` | tables: format, lookups, merging, names, recovery, which to merge |
| `db`, `scan` | the store: reads, writes, flushes, scans |
| `durability` | what holds across writes, flushes, compactions and crashes |
| `resp`, `server`, `session` | the wire protocol, what the server does with a command, and a whole connection |
| `cli` | the prompt's commands |
| `workload` | the load generator's keys, requests and replies |

Some of what is proved:

- A read returns the last value that was written, whether it is in the memtable or
  in a table, and nothing once the key was deleted (`db::Db::get`,
  `sstable::lookup::Lookup`, `durability::a_write_is_seen`).
- A written table opens again, answers every key, and streams all of its entries
  (`sstable::roundtrip`, `sstable::stored`).
- A compaction changes no answer (`sstable::tableset::compaction_preserves_every_key`).
- A scan lists the keys that a read finds, in order
  (`scan::a_scan_lists_what_reads_see`).
- A crash in the middle of a write, a flush or a compaction loses nothing that was
  on disk (`durability`, `wal::torn_write_is_recovered`,
  `sstable::recovery::an_interrupted_compaction_is_completed`). A torn record at the
  end of the log is cut off when the store is opened (`wal::intact_len`), so that
  what is written next is kept too (`durability::a_write_after_a_crash_survives`).
- One damaged byte in the payload of a logged record is noticed
  (`wal::one_damaged_byte_is_reported`).
- Commands are read as they were sent, in whatever pieces they arrive (`resp`), and
  a connection gets their replies in order, up to the one that hangs up
  (`session::commands_are_answered_in_order`).

What is believed without proof is in four small functions: the checksum
(`checksum::checksum`), a second pointer to the same value
(`sstable::merge::share`), the test for UTF-8 (`resp::is_utf8`) and bytes shown as
text (`text::show`).
