# openmem

A memory vault for AI agents and developers: markdown nodes in a directory,
linked with `[[path/to/node]]`, tagged with `#tag`, versioned with Jujutsu.

The crate is verified with Verus.

- `src/` is the library. It works on snapshots of the vault: a listing of
  nodes (`NodeContent`: a path and what reading it gave), and computes what
  the commands answer: links and backlinks, tags, headings (`structured`),
  sizes and statistics, search, the survey, the memory index, the extraction
  prompt, the command line (`cli`; clap's definition and parse of it in
  `command_line`), the configuration file, and the texts the commands print. The contracts
  speak of a mathematical model (`Seq<char>` texts, sequences of nodes);
  `src/laws.rs` proves properties that span several functions.
  Calls into `regex`, `clap` and `dirs` stand behind small trusted wrappers
  whose documentation says what is assumed of them.
- `app/` is the `openmem` program: it reads the command line, the
  configuration file and the environment, reads and writes node files, runs
  `jj`, and prints what the library computes.
- `tests/` exercises the library on concrete vault snapshots.
