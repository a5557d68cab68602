# Disc Xplorer

A browser for disc images: it finds the data track of an image, tells which
filesystems are on it, lists and saves directories and files, shows raw sectors,
saves audio tracks and mounts images.

## Layout

- `src/` is the library, verified with Verus. It never touches a file itself. A
  function that has to look into the files of an image takes the answers received
  so far and returns its next question or its result (`device`).
- `app/` is the program around it: it answers the questions, runs the commands of
  the operating system, and holds the window.
- `tests/` runs the library on images in memory.

## Modules of the library

| Modules | What they hold |
|---------|----------------|
| `device` | questions, answers, results |
| `bytes`, `text`, `sort`, `seek`, `calendar` | numbers in bytes, text, sorting, positions, dates |
| `sector`, `volume`, `track` | raw sectors, volume descriptors, tracks |
| `cue`, `mds`, `mdx`, `nrg`, `ccd`, `cdi`, `gdi`, `chd` | one image format each |
| `image`, `detect` | images of all formats, the filesystems on them |
| `wbfs_reader`, `wii_partition` | Wii containers and encrypted partitions |
| `listing`, `audio`, `mount`, `drives` | directories, audio tracks, mounting, optical drives |
| `error` | errors and their texts |
| `agreement`, `progress`, `stability` | what holds of several functions together |

## What rests on outside code

`audio` sets up and runs an encoder of `mp3lame-encoder`, `wii_partition`
decrypts with `aes` and `cbc`, `drives` reads JSON with `serde_json`, and `text`
changes letter case with the standard library. Each such call has a contract
beside it that says what is taken for granted. The program reads CHD and ISO 9660
images with `chd` and `iso9660`, and writes FLAC files with `flac-bound`.
