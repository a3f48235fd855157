# vzdump_browser

A browser for Proxmox VZDump backups: uncompressed VMA archives, the devices in them, their
partitions and file systems.

- `src/` is the library, verified with Verus: the formats (VMA header and extents, MBR, GPT, ext and
  FAT boot records), random access to devices and partitions, the state of the browser and its keys,
  and the text of the screens and commands. It performs no I/O: where something has to be read, the
  library says what, and takes the bytes.
- `app/` is the program around it: files, the terminal, the command line, and the crates that read
  inside ext and FAT file systems.
- `tests/` runs the library on small archives, tables and directories.

Contracts speak of mathematical models: a reader is a position in the sequence of bytes of a device,
a directory tree is the sequence of its lines, the browser is a record that each key and each
operation maps to the next one. Properties that span several functions are public proof functions
whose names start with `law_`.
