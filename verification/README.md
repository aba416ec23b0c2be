# conf_lang

A small indentation-based configuration language, verified with Verus.

A configuration is a text of lines; each line holds a record of one or more
values, and a line indented deeper than the one before it holds a child of
that record. Values are plain words, quoted text, text in curly braces or in
back quotes, and may span lines. Records can then be checked against a
schema (a "walker"): branches of nodes that say which records may appear
where, how many values they take, which of them are parsed, and which
children they may have. Errors are collected, sorted, reported once each and
grouped by configuration path.

## Layout

- `src/` — the verified library.
  - `loc`, `text`, `input`, `lexer`: locations, character input and the
    backtracking lexer.
  - `grammar`: the language written as spec functions over characters;
    `parser` reads a configuration and is proved to follow it exactly.
  - `conf`, `conf_text`, `record_order`, `display`, `source`,
    `parse_error`: the record tree, its navigation, its text forms and
    parse errors with their messages.
  - `walker`: building a schema; `walk`: checking a record tree against
    it, as a state machine over the records entered and left;
    `walker_container`: what a callback sees of an accepted record.
  - `walker_error`, `error_order`, `error_msg`: collecting, ordering,
    dropping repeats, grouping and printing the errors of a walk.
  - `schema`: the schema for schemas, and building a walker from a
    configuration that describes one.
  - `laws`: properties that span several operations.
- `tests/` — tests of the library on concrete configurations and schemas.
- `app/` — the command-line program: file reading, printing, and values
  parsed through `FromStr` and kept as `dyn Any`.
