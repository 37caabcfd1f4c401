# leptos_scoped_style

Scoped CSS for Leptos components with emulated view encapsulation: every
selector of a component's stylesheet is rewritten to carry the component's
content attribute, `:host` patterns target its host attribute, and a
reference count per scope decides when the `<style>` element enters and
leaves the document.

## Layout

- `src/` — the verified library.
  - `css/model.rs` states what rewriting a stylesheet means, over character
    sequences; `css/scoper.rs` implements `CssScoper` against it;
    `css/laws.rs` proves what the rewriting promises (regular selectors get
    the content attribute before their first pseudo-class, never inside an
    attribute selector or string; `:host(...)` selectors get the host
    attribute; `:root` and `:skip-scope(...)` pass through; declaration
    blocks are kept verbatim and rules are rewritten one after the other;
    text without rules is unchanged).
  - `scope_id.rs` derives the eight-digit djb2 scope identifier and the
    attribute names, and proves that identifiers determine their hash.
  - `style.rs` holds `ComponentStyle`, the per-component declaration.
  - `registry.rs` keeps the per-scope mount counts, names the `<style>`
    element that both server and browser use, and proves that over any
    interleaving of mounts and unmounts the element is present exactly while
    an instance is mounted.
  - `text.rs` holds whitespace, trimming and string-building helpers.
- `app/` — the Leptos components (`Scoped`, `GlobalStyles`), the DOM work
  behind them, and build-time Sass compilation with `grass`.
- `tests/` — behaviour tests of the library.
