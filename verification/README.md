# rbx-merge

Semantic text and three-way merge for Roblox `.rbxl`, `.rbxlx`, `.rbxm` and `.rbxmx`
files, as a library that Verus verifies and a thin command line around it.

A merge reads the three files, finds out which of their instances are one, merges every
such row field by field, and sees to it that the result is a tree: no loops, no unique
id twice, no reference to an instance that is gone. Merged bytes are written only where
nothing is in conflict; conflicts are reported, and can be decided in an edited report.

## Layout

- `src/` is the library. Its functions have contracts, which are proved; only those of the
  small functions that call other crates are trusted.
  - `variant`, `value`, `dom`: property values and instance trees, and the calls into
    the crates that read and write them.
  - `format`, `files`, `error`: telling formats apart, and the merge of whole files.
  - `chunks`, `markup`, `outline`: which binary and XML files can be read, and which trees
    can be written.
  - `database`: whether the classes of the reflection database fit together.
  - `semantic`, `matching`, `additions`, `identity`: numbered instances, and which
    instances of three files are one.
  - `three_way`, `context`, `rows`, `properties`, `graph`: the merge of rows.
  - `cycles`, `collisions`, `references`, `child_order`, `tree`, `merging`: the merge of
    the graph, and the tree that is built from it.
  - `display`, `render`, `reflection`: the text of a file.
  - `conflict`, `resolve`, `report`, `diagnostics`, `notices`: conflicts, decisions on
    them, and remarks.
  - `setup`, `scan`: the texts that a Git clone is set up with.
  - `text`, `keyed`, `lists`: text, sorted lists of named values, lists of numbers.
  - The modules whose names end in `_laws`, with `agreement`, `agreed`, `determinism` and
    `exchange`: what holds of every merge.
- `tests/` holds the tests.
- `app/` is the command line: arguments, files, and calls of Git.

## What is proved of a merge

- It is determined by its inputs, but for referents that are drawn by chance.
- A change on one side only is taken; the same change on both sides is taken once; a file
  merged with itself is that file.
- Independent attribute edits compose, and unique ids that were made anew never conflict.
- Without conflicts, no instance is lost that both sides kept, no unique id occurs twice,
  no reference dangles, and the parents form no loop.
- Conflicts are found alike whichever side is called ours, and decisions change nothing
  where there is no conflict. Taking ours, or theirs, for every conflict leaves none.
- The insertions of both sides keep their order, and that of the base.

Each of these is a public proof function whose name begins with `law_`; its `requires`
says for which files it holds.
