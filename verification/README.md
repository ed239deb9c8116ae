# ftb_translater

Translation workflow for FTB Quests books: it reads quest chapters (SNBT) and
language files, protects formatting codes and placeholders, batches the texts
for a translation provider, writes a CMP review file (a text file: a `# meta`
line of JSON, a `## <file>` header per source file, and for each unit an `@`
line of JSON with its place followed by a `"source" -> "target"` line), and
applies the reviewed targets back to the quest files.

- `src/` is the library, verified with Verus: parsing and rendering of SNBT and
  chapter files, the CMP format, token protection, batching and retry planning,
  the task state machine, review and write-back rules. Each public function
  states its result in `ensures`; the laws that span functions are public proof functions: a written CMP reads back
  as written (given that serde_json reads back the JSON strings it writes and
  decodes the meta and place lines as written), protected text restores, a
  task book has at most one running operation, ...
- `app/` is the program around it: file and database I/O, HTTP calls to the
  providers, settings and logs on disk.
- `tests/` runs the library on concrete inputs.
