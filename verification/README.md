# pkgsync

Compares the explicitly installed packages of this Arch Linux machine with those
of another one, read live over SSH or from a package-list file, and plans the
`yay` commands that bring this machine closer to the other.

## Layout

- `src/` is the library, verified with Verus. It does no input or output: what
  programs and files gave is handed in, what has to be run or written is handed
  back.
  - `text`, `order`, `path`: text as characters, a stable sort, paths.
  - `package`: the `<name> <version>` list format of `pacman -Qe`.
  - `diff`: what is missing, extra or of another version.
  - `source`: where lists come from, and the targets of the command line.
  - `known`: recently used sources and the hosts of `~/.ssh/config`.
  - `action`: plans, their commands, and the steps of running them.
  - `keys`, `app`: key presses, list cursors and the state behind the screens.
- `app/` is the terminal program around it.
- `tests/` exercises the library from outside.

Each function states what it returns over mathematical views of its arguments.
Proof functions whose names begin with `law_` state what holds across functions:
that a written list reads back, that a diff is exact, that results of cancelled
fetches are ignored, that nothing runs without confirmation.
