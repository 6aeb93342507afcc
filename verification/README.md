# exfat_fs

Reads exFAT volumes, and lays out the root directory of new ones. The library in
`src/` is verified with Verus; `app/` joins it to the files and streams of the
standard library.

## Layout

- `disk`: the traits of the devices that volumes live on, reading through short
  reads, and writing zeroes.
- `boot_sector`, `fat`, `cluster`: where everything is on a volume, which clusters
  follow which, and reading the bytes that clusters hold.
- `entry`: directory entries, their bytes and checksums, and the entries that make
  up a file or directory together.
- `fs`, `root`: files, directories, and opening a volume.
- `scan`, `listing`: how the entries of a directory decide what it holds, and what
  a list of it depends on.
- `raw_root`: the root directory of a new volume.
- `image`: what all of this comes to on a device that holds an image.

## What the contracts say

A device may fail or answer in parts. Contracts speak of what it may answer, by
the specification functions of the traits in `disk`, and fix the result for
whatever it does answer. The functions named `law_..` state what follows: that
what is read of an image is what the image holds, that reading a listed file to
its end gives its contents, that entries survive being written and read, that the
root directory of a new volume reads back as its label and nothing else.
