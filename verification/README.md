# clonosaur

The core of Clonosaur, a local-first application that builds a personal
agent from the user's own messages, interview answers and memories. This
crate is written in Verus: the library's functions carry contracts and are
proved against them. The calls into outside code (chrono, csv, serde_json,
base64, quoted_printable, and a few functions of the standard library) go
through small trusted wrappers whose contracts restate what that code
documents; they are assumed, not proved.

## Layout

- `src/` — the verified library.
  - `text` — character-level text operations (trim, find, split, lines,
    replace, join, ordering) with their specifications.
  - `whatsapp`, `gmail`, `mime`, `importers`, `import_common` — reading the
    exports the user imports (WhatsApp, Gmail Takeout mailboxes, Twitter/X,
    Discord, Reddit, generic `.json`/`.csv`/`.txt`) into the messages to
    store; timestamps, participants and chat fingerprints.
  - `sensitivity` — the keyword classification applied at ingestion.
  - `prompts`, `chat`, `stream`, `engine` — the system prompt shared by every
    chat mode, the memory-backed context, anonymisation and the hybrid-mode
    preview, the reasoning-block filter, the reader of streamed replies, and
    the endpoints and messages of the language-model requests.
  - `generators` — evidence and prompts of the personality generators, and
    what is kept of the model's answers.
  - `records`, `datetime` — the records shown to the user and small rules
    around them; calendar dates as RFC 3339 text.
- `tests/` — tests of the library on concrete values.
- `app/` — the application around the library: the SQLite database, file
  reading, HTTP calls to the local engine and to external providers, and the
  commands the interface invokes.
