# fslab

A small journaled file system on a device of 4096-byte blocks, verified with Verus.

A device is anything that implements `block::BlockDevice`. `format_geometry` lays a file system
out on it; requests by inode (`file_*`, `truncate_tx`, `create_data_tx`, `hard_link_tx`,
`hard_unlink_tx`, `directory_tx`) and by path name (`path_*`) change it; `fsck` inspects it,
`fsck_repair` repairs it, `filesystem_space` measures it.

## What is stated

* A disk is a sequence of blocks. Each request has a specification of the form
  `step(disk, superblock, arguments)`, which gives the disk that the request leaves behind and what
  it returns, errors included. `journal_region::carried_out` says that the device followed that step
  and that the request was atomic: whatever block writes reach the medium before power is lost,
  replaying the journal gives what the file system held before the request or after it.
* `soundness`, `ownership`, `naming` and `contents` say what it means that a request keeps a device
  sound, changes one file as asked and leaves every other file as it is. The proof functions named
  `law_…` state this of the requests beside which they stand.
* One function is trusted: `names::text_from_utf8`, which calls `String::from_utf8`.

## Layout

* `src/` – the library.
* `tests/` – its tests.
* `app/` – a block device on a file of the operating system.
