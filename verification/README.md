# exbase

Reading and writing the memory of other processes.

- `src/` is the verified library: byte patterns with wildcards (`pattern`),
  the reading of `/proc/<pid>/maps` lines and other process files (`maps`,
  `procinfo`), the numbers and text they hold (`number`, `text`), named
  pattern sets (`patern_scanner`), errors (`error`), and the process,
  module and memory types (`lib.rs`).
- `app/` is the system side: listing processes, reading maps files,
  `process_vm_readv`/`process_vm_writev` and `/proc/<pid>/mem` access,
  Windows handles, and the C interface.
- `tests/` drives the library on recorded process data.
