# occasion

A verified library for *occasion*, a tool that shows messages on chosen dates.

- `src/formatting.rs` — the markup language for coloured, styled text:
  `plain (content)[fg:green bold] more`. The tokenizer, the recursive-descent
  parser and the style-list reader are proved against spec functions
  (`spec_tokenize`, `spec_group`, `spec_parse_from`, `spec_style_list`);
  colours and styles are colored's types, reached through small trusted
  wrappers.
- `src/config.rs` — the configuration model, merging of configurations and of
  imported files, and the import depth limit, with laws about merging.
- `src/errors.rs` — the configuration error type.
- `app/` — file, environment and JSON plumbing: where the configuration
  lives, serde copies of the configuration types, and error messages.
- `tests/` — scenarios for the tokenizer, parser and merging.
