# mini_lsm

The core of an LSM-tree storage engine, written in Verus and verified.

- `codec`: big-endian integer encodings, and the calls into `bytes` that write and read them.
- `key`: the byte-wise lexicographic order of keys.
- `block`: the block layout (`[key_len][value_len][key][value]` entries, then the
  offsets, then their count), the block builder and the block iterator.
- `iterators`: the `StorageIterator` interface, modelled by the sequence of entries
  still to come, and the merging iterators.
- `lsm_iterator`: the scan iterator that hides deleted and repeated keys and stops at
  the end of the range, and the fused iterator.
- `table`: the block index and its encoding, table metadata, and the table builder,
  which hashes keys with `farmhash`.

`app/` holds the file access around the library: reading and writing table files.
