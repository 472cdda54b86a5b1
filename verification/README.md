# gpui-react

The logic of a bridge between a React reconciler running in a worker and
native GPUI views, verified with Verus.

The worker commits changes as transactions; the UI thread applies them to a
tree of host nodes, each backed by a row in its component's table. Between
them sit bounded queues in both directions.

## Layout

- `src/` — the verified library.
  - `wire` — the binary props wire: a bounds-checked reader, tagged values,
    positional props against a component's schema.
  - `decode` — operation and transaction assembly from decoded fields, and
    the session's shared style table.
  - `registry` — component registration (names, capabilities, schemas), the
    per-kind row tables, and decoded operations.
  - `tree` — the host node forest: creation, placement with cycle and anchor
    checks, removal of whole subtrees with generation bumps, hidden children,
    event routes, and the child lists owed to views.
  - `plan`, `apply` — a transaction rehearsed on a sketch of the tree, so
    that one the tree refuses changes nothing, and then applied: the tree
    decides, the toolkit's row tables (a trait) do the work.
  - `session` — the bounded transaction and event queues of one session.
  - `text`, `offsets`, `segment` — UTF-8 boundaries, UTF-16 offsets, and
    Unicode segmentation.
  - `editing` — the text input model: selection, navigation, native edits
    and compositions, coalesced undo and redo, revision-checked commands,
    mouse presses.
  - `keys` — the keyboard shortcuts of text inputs.
  - `selection`, `document`, `text_key` — cross-text document selection:
    span resolution, drags across virtualized rows, programmatic selection,
    and the keys that name each text.
  - `search`, `compiled` — find-in-document queries and their matches,
    with compiled expressions kept beside the pattern they came from.
  - `list` — row bookkeeping of the virtualized list.
  - `schema` — how a props struct's wire schema follows from its declaration.
  - `style`, `protocol`, `controls` — style keywords, encoded transactions,
    shared values and call answers, and the standard controls' registrations.
- `tests/` — tests of the library.
- `app/` — the code around it: JSON decoding with serde, the worker
  session's locking, CSS colors, and serde forms of the library's values.
