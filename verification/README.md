# docx_templates

A small web application for Word templates: a constructor turns chosen text of a
`.docx` document into placeholders `{{name:type:format}}`, and a form fills them in
later. Dates and times are written in the format a placeholder asks for; a hardware
error field is computed from a measurement and its relative errors.

## Layout

- `src/` — the verified library (Verus). Its functions state their behaviour in
  `requires`/`ensures` over mathematical models and are proved. What `quick_xml`,
  `roxmltree`, `regex`, `chrono` and `std::path` compute is taken from trusted
  declarations: most of their results are named (the events a reader reads from a text,
  the nodes a text parses to) rather than defined, and the contracts that rest on them
  speak of those names.
  - `document.rs` — rewriting `word/document.xml` paragraph by paragraph, filling
    placeholders, applying the constructor's replacements.
  - `events.rs`, `tree.rs`, `writer.rs`, `namespaces.rs` — reading the XML (events with
    `quick_xml`, paragraph trees with `roxmltree`) and writing it back.
  - `plan.rs`, `fill.rs` — locating replacements in the runs of a paragraph.
  - `pattern.rs`, `placeholders.rs`, `values.rs` — the placeholder syntax, the list of a
    template's fields, and how form values are formatted (with `chrono`).
  - `html.rs` — the HTML preview shown in the constructor.
  - `custom_types.rs`, `names.rs`, `requests.rs`, `error.rs` — custom field types, file
    and folder names, request checks, errors.
  - `laws.rs` — properties that relate several functions, stated and proved.
- `tests/` — tests of the library on concrete values.
- `app/` — the server (actix-web): file and archive I/O, multipart forms, JSON, Tera
  pages, and the floating-point hardware error.
