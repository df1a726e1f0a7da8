# libsraid

A "shoddy RAID" pool: a set of disks, the last of which holds the XOR parity
of the others. Each disk is cut into 516 KiB blocks; the blocks at the same
offset on every disk form a superblock. A block holds 512 KiB of data in 128
subblocks of 4 KiB, followed by the BLAKE3 hash of each subblock. A scrub
checks every subblock against its hash and rebuilds a single damaged data
subblock from the others and the parity. Files and directories are recorded
in an SQLite catalog. Disks may be plain files, block devices, or sparse
virtual disks.

## Layout

- `src/` is the library, verified with Verus:
  - `geometry.rs`: block sizes and the capacity of a pool;
  - `parity.rs`, `superblock.rs`: laying out a superblock, classifying and
    rebuilding damaged subblocks, scrubbing one superblock;
  - `scrub.rs`: the running totals of a scrub;
  - `catalog.rs`: the decisions taken over the catalog (geometry, space,
    allocation, path lookup, removal, the `info` summary);
  - `vdisk.rs`: the virtual-disk file format, its block map, an in-memory
    virtual disk, the planning of reads, writes and commits on a file, and
    stream positions;
  - `text.rs`: sizes, paths and numbers as text;
  - `tree.rs`, `device.rs`, `hashing.rs`: directory trees, device decisions,
    and the BLAKE3 and hex calls.
- `tests/` exercises the library.
- `app/` is the `shoddy-raid` command line: SQLite, files, devices and the
  operating system, around the library's decisions.
