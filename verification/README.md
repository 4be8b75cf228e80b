# todone

`todone` triages marker comments (`TODO`, `FIXME`, ...) in a repository: it
finds them with tree-sitter, walks the user through every finding, turns
findings into issues on a forge, and removes the comments from the source,
each one only after its issue exists.

The library under `src/` is verified with Verus. `app/` is the program around
it: argument parsing, file access, `git`, `gh`, editors and the terminal.

## Modules

| module | what it holds |
|---|---|
| `text`, `path`, `order` | characters and UTF-8 lengths, lines, words, path components, orders and a stable sort |
| `model` | comments, runs of attached comments, findings and their selections |
| `matcher` | which comments are markers |
| `language` | the supported languages and their grammars |
| `scan` | from syntax-tree nodes to sorted findings |
| `remove` | removing a selection, or the comments of a run, from a file |
| `draft` | the issue template and reading it back |
| `session` | decisions over a list of findings |
| `config` | layered configuration |
| `repo` | which repository a command targets |
| `context`, `highlight`, `render`, `report`, `run` | context windows, syntax colors, text and JSON reports |
| `process`, `forge`, `created` | running programs, creating issues with `gh` and reading its answer |
| `editor` | editor sessions |
| `tui` | the interactive review |
| `cli`, `port` | command-line flags, the execution of a reviewed session |

## What is proved

- A removal takes exactly the selected characters, whitespace aside, leaves
  every other line alone, and never moves what stands before it. Removing the
  comments of a run keeps what stands between them.
- A rendered draft reads back as the draft it was rendered from, provided that
  its fields stand for themselves in TOML, its title is one trimmed line, its
  description is trimmed, and the snippet does not hold the very lines that
  end the context section.
- A comment has the first configured category that it is found to have alone,
  and grouping comments gives maximal runs that keep every comment in order.
- Color adds styling to a context line, never text.
- Every matched comment makes exactly one finding, findings partition their
  run, and a scan's findings are sorted by path and line.
- No key of the review executes a session without confirmation, quitting
  changes nothing, and a key acts on the current finding alone.
- In every state of an execution, the comment of a ported finding is removed
  only if its issue was created; a run ends, and then accounts for every
  finding.
- A configuration layer overrides exactly the keys it sets.

Calls into other crates (regular expressions, tree-sitter, SHA-256, TOML,
JSON) go through small wrappers whose contracts are assumed; each says in its
doc comment what it assumes.
