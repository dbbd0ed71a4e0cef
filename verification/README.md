# koharu

The logic of a comic translator, verified with Verus: finding the terms of a project, translating
and reviewing pages, running the stages of a project, keeping its history, and exporting it.

- `src/` is the library, verified as a whole.
- `src/glossary` holds the glossary of a project, its edits, scans, imports and fingerprints;
  `src/project_glossary` the terms that a user settles, and `src/terminology` how candidates for
  them are counted.
- `src/ner` reads a text in windows, puts them into the tokens of a model and decides which of the
  names that the model scores stay.
- `src/pipeline`, `src/processing` and `src/workflow` decide which stage runs on which page, what is
  tried again, and what is shown of it.
- `src/bulk_review` and `src/codex` plan, send and check the review of many pages by a language
  model.
- `src/history` is the line of states that a user goes back and forth on.
- `src/export` names, encodes and stores pages; `src/host` and `src/command` serve the application
  over HTTP; `src/hardware` finds devices and the packages that fit them.
- `app/` is ordinary Rust around the library: files, sockets, processes and serialization.
- `tests/` runs the library on concrete values.

Calls into other crates stand behind small functions marked `external_body`, each with a comment
that says what is believed of the call.
