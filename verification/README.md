# git-sidecar

`git sidecar` runs git commands against sidecar repositories: separate git
repositories checked out inside a parent project, registered per parent in a
config file under the OS config directory and kept out of the parent's
`git status` through the managed block of `.git/info/exclude`.

## Layout

- `src/` is the library, verified with Verus: remote-URL normalisation
  (`remote`), lexical path handling and the stored mapping (`paths`), the
  exclude file's managed block (`exclude`), the checks on a parsed config and
  the textual edits of the config file (`config`), what is on disk for a
  sidecar (`layout`), the meaning of git's answers (`git`), and the decisions
  each subcommand takes (`commands::*`). Each module states its laws as
  `law_*` proof functions next to the functions they speak of. Functions
  that read paths from the environment take a `windows` flag: on Windows a
  `\` separates components as `/` does, and a drive prefix is honoured
  where a path is joined onto another.
- `app/` is the command-line program around it: argument parsing, running
  git, reading and writing files, and the TOML parse of the config file.
- `tests/` exercise the library on concrete values.

The only call into an outside crate that the library makes is the TOML
quoting of a string (`toml::Value`'s `Display`), behind one function whose
result is named rather than described.
