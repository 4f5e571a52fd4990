# raflow

Dictation for the macOS menu bar: double-tap Cmd, speak Chinese with English terms in it, and the
text is typed where the cursor is.

- `src/` is the library: everything that is decided, from key taps to transcripts, vocabularies,
  files, permissions and the panel. Each function states what it returns, and Verus proves it.
- `app/` is the program around it: the microphone, the recogniser and the transcriber, the keyboard
  and the clipboard, windows, files and the environment. It performs what the library decides.
- `tests/` runs the library.

What the library takes on trust stands in `src/text.rs` (a standard string operation),
`src/traditional.rs` (the conversion to traditional Chinese) and `src/icon.rs` (decoding icons).
