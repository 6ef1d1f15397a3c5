# rustkit_engine

The decision-making core of the RustKit browser engine, written in Verus
and proved against its contracts.

- `src/` is the verified library:
  - `matching`, `tokens`, `specificity`: selectors against an element,
    and the `(ids, classes, tags)` specificity that orders the cascade;
  - `cascade`: the stylesheet model, `:root` custom properties and `var()`
    substitution, the cascade order of the matching rules, the provenance
    records of the declarations applied to an element, the rules of
    `::before`/`::after`;
  - `style_trace`, `report`: the recorded cascade per element, the simple
    selector query over it, and the report of which declaration won each
    property;
  - `identity`: the selector paths that key elements across engines;
  - `forms`, `links`: focus targets, form submission entries, URL resolution
    against the document (through the `url` crate);
  - `values`, `shorthands`, `units`: value-level helpers (comma splitting,
    parentheses, grid lines, overflow, shorthand structure, units and
    keywords, `srcset` candidates);
  - `text`, `dom`: character-level primitives and the plain-value element
    model the rest reads.
- `app/` holds what stays in plain Rust: error messages, the engine
  configuration, the process-wide view-id counter, the JSON export of the
  style report, and the `f32` arithmetic on numeric values.
- `tests/` exercises the library from outside.
