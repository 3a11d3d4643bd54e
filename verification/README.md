# widget_ui

The core of a retained-mode user interface, verified with Verus.

- `src/` is the library. It holds an arena tree of elements (`tree`), the
  builder that expands a root into a tree (`tree_builder`), the shared UI
  state with its bindings (`ui_state`, `strmap`, `value`), the sizing and
  layout rules of the standard widgets (`layout`, `widgets`), hit testing
  and pointer routing (`hit_test`, `pointer`), laying out, rebuilding and
  merging subtrees (`rebuild`), and the contexts that widgets see. Every
  function states its result in `requires`/`ensures`. The laws that tie
  several functions together are the public `law_*` proof functions.
- `app/` is the widget system around it: the `Widget` trait and its
  implementations, the `UserInterface` that drives the library, the
  message queues, text measuring with Skia, and DOT output.
- `tests/` runs the library on concrete values.

Geometry is in whole logical pixels (`i64`), and halves round toward zero.
Text metrics, colours and real numbers are floating point and stay in
`app/`.
