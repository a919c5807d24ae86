# comment_rot

Finds comments that went stale when the code next to them changed.

`rot` snapshots each comment together with the code it is attached to. On
the next check, a comment whose code changed while the comment did not is
raised for a verdict. Comments are tracked by what they document, not by
line number.

```sh
rot init              # take a baseline of the project
rot check             # find comments that need a verdict
rot confirm           # apply verdicts (reads JSON from stdin)
rot status            # list issues flagged but not yet fixed
rot resolve <id>      # dismiss a known issue
```

## Layout

- `src/` is the library, verified with Verus:
  - `syntax`, `blocks`, `scope`, `extract`, `scan`: the syntax tree of a
    Rust file, the blocks nested in a statement, the code a comment
    documents, and the items found in each file;
  - `hashing`, `text`, `source`, `idmap`: whitespace-insensitive hashing,
    character-level text helpers, byte-to-character slicing, and the
    ordered map that the baseline and the known issues are kept in;
  - `model`, `snapshot`, `known_issues`, `engine`: the baseline, the
    comparison of a fresh scan with it, the known issues, and what each
    command decides;
  - `changes`: the line diff shown with each candidate;
  - `laws`, `layout`, `rounds`: properties that span several operations,
    such as that a fresh baseline raises nothing, that moving code to other
    lines changes nothing in a check, that a second check of the same code
    changes nothing, and that a verdict stops a candidate from coming back.
- `app/` is the command-line program around the library: argument parsing,
  walking the project, reading and writing `.rot/*.json`, and the terminal
  and JSON front ends.
- `tests/` runs the library on concrete projects held in memory.
