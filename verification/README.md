# winiso

A tool for downloading Windows images from Microsoft and making bootable USB drives of them, built
around a library that is verified with Verus.

- `src/` is the library. Every function in it is verified against the contract it states, but for
  the calls into other crates that are named under "What is taken on trust".
- `app/` is the program: arguments, prompts, files, devices and the network. It carries out what
  the library decides.
- `tests/` runs the library on concrete images, archives and answers.

## The library

| Module | What it holds |
|--------|---------------|
| `wim` | reading a WIM file and dividing it into parts that FAT32 can hold |
| `iso` | finding the file system of an image (UDF, ISO 9660, Joliet), listing it, reading its files |
| `disk` | GUID partition tables, master boot records, what is copied onto FAT32 and in which order |
| `download` | checksums, and what becomes of a download: skipped, resumed or made anew |
| `microsoft` | the versions on offer, the download service and the product catalog |
| `usb` | removable drives on Linux and macOS, unmounting and ejecting them |
| `burn` | the steps to a bootable drive, consent, and privilege escalation |
| `cli` | the courses of the commands, what is chosen and what is told |
| `bytes`, `text`, `tree`, `sort`, `source` | what the others are built of |

Laws that span several functions are public proof functions whose names begin with `law_`. Those
of split WIM files are in `wim/laws.rs`, those of partitioned drives in `disk/laws.rs`, and the
others stand beside the functions that they are about.

## What is taken on trust

Functions marked `#[verifier::external_body]` and the items under `assume_specification` call other
crates and the standard library: cab, mbrman, plist, roxmltree, serde_json, sha1 and
uuid. The comment above each says what is claimed of the call. Results that are too long to
describe have names, which are spec functions without a body.

The decoder for LZX that cab calls panics on some data, so catalogs that are packed with it are
unpacked in `app/service.rs`. In the same way property lists that are binary, nest deeply or have
odd dates are parsed in `app/drives.rs`.

Floating-point arithmetic (sizes in words, the share of a drive that may be filled) is in
`app/sizes.rs` and `app/progress.rs`, outside of what is verified.
