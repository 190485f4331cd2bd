# codecrafters_git

A small git client (`init`, `cat-file`, `hash-object`, `ls-tree`,
`write-tree`, and the first stage of `clone` over the smart HTTP protocol),
written in Verus: the library's functions carry `requires`/`ensures`
contracts that Verus proves.

## Layout

- `src/` — the verified library.
  - `object.rs` — object types, headers, hashing, the stored (zlib) form.
  - `tree.rs` — tree entries: encoding, reading, `ls-tree` listings.
  - `snapshot.rs` — `write-tree` over a snapshot of a directory.
  - `commit.rs` — commit objects.
  - `protocol.rs` — pkt-lines, ref advertisement, pack reading, the
    upload-pack request.
  - `cli.rs` — the commands, as an exchange: the library asks for a file to
    be read or stored, the caller does it and hands back the outcome.
  - `repo.rs` — repository layout, updating the working files, cloning.
  - `text.rs`, `numfmt.rs`, `bytes.rs` — text, number and byte helpers.
  - `external.rs` — the trusted declarations of outside calls (SHA-1,
    hex, zlib, UTF-8 conversion); Verus believes their contracts.
- `app/` — the program: argument parsing, files and directories, HTTP.
- `tests/` — tests run against the compiled library.

Laws that relate several operations are public proof functions whose names
start with `law_`.
