# condo_fs

A read-only FUSE view of a Condo Control file library, with its core proved
by Verus.

- `src/` is the verified library: display names (sanitizing, extension
  inference, collision numbering, listing dates), classification of listing
  rows, the inode table behind `lookup`, `readdir`, `getattr` and `read`,
  the content-cache naming and the time-limited cache, the credentials file
  format, the login decision and `Content-Disposition` parsing, and the mount
  options. Each public function states its result in its contract: exactly,
  except where the result depends on the disk, the clock or the environment,
  where the contract states what holds of every outcome, and a companion
  function is exact for a given outcome or for what is handed to the
  outside call. The properties
  that span several calls (inodes stay stable across relisting, sizes survive
  relisting, listings are refetched exactly when stale, what `readdir` lists
  `lookup` finds, later listing dates read as later times) are proof
  functions named `law_*`; `Vfs::lemma_model_wf` applies the table laws to a
  table a caller holds.
- `app/` is the program around it: command line, HTTP client, disk cache,
  JSON decoding, and the FUSE callbacks, which ask the inode table what to
  fetch and hand it what came back.
- `tests/` runs the library on concrete values.
