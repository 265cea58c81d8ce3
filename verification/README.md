# haucet-tools

Tools for Huawei / HarmonyOS firmware images: `update.bin` packages and the
partition images inside them, HVB-wrapped ramdisks (HARMONY! frames, newc
cpio archives, their compressions), NVE (`nvme`) partitions, OEMINFO images,
RVT images and ext4 metadata listings.

The library in `src/` holds the formats and the rules that act on them, each
function with a contract proved by Verus:

- `bytes`, `text`, `header`: byte readers, string helpers, format detection.
- `update_bin`, `package`: the component index of an `update.bin`, and which
  partitions an unpack selects.
- `hvb`, `harmony`, `rvt`, `partition`: HVB certificates and footers,
  HARMONY! frames, RVT images, what `partition-info` reports.
- `cpio`, `compress`, `ramdisk`: newc archives (load, dump, edit), whole-buffer
  compression, and the ramdisk unpack / repack / patch flow.
- `nvme`: reading an NVE image, committing an edit as a new generation, and
  the plan for writing that generation back to disk.
- `oeminfo`, `entropy`: OEMINFO blocks and payload classification, and the
  byte counts over sliding windows that the entropy judgments are made from.
- `ext4`: the `fs_config` and `file_contexts` listings of an ext4 tree.
- `gui`: what the desktop front end decides: languages and message
  fallback, file detection, suggested actions, filters and labels.
- `fs_util`: safe path joins and file-name handling.

Calls into compression and hashing crates (flate2, bzip2, lz4, lzma-rust2,
sha2, crc32c) go through small trusted wrappers whose contracts are stated
in their doc comments.

`app/` is the command-line program around the library: argument parsing,
files, zip archives, JSON output and the floating-point entropy figures.
`tests/` exercises the library on concrete values.
