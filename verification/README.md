# control

The logic of a desktop editor and librarian for the Behringer DeepMind
synthesizers, written in Verus: every function in `src/` carries a contract,
and Verus proves the code meets it.

- `src/program.rs`, `src/patch.rs`: a program's bytes, its name, and what
  backs each value the window shows (read from the instrument, assumed, or
  unknown).
- `src/shelf.rs`: the programs a `.syx` file or a bank read holds; writing a
  shelf out reads back as the same programs.
- `src/catalogue.rs`, `src/sounds.rs`, `src/publish.rs`: the shared patch
  library: searching it, matching a program to the patch it came from, the
  table of sounds, and the files a shared sound is written as.
- `src/matrix.rs`, `src/bay.rs`, `src/sequencer.rs`, `src/name.rs`,
  `src/panel.rs`: what the sections of the front panel read, how the matrix
  is wired, and how the patch bay beside it is laid out.
- `src/desk.rs`, `src/app.rs`, `src/window.rs`: the decisions the window
  makes between the synthesizer, the shelf and the person at the keyboard.

The protocol and the patch library themselves are the `deepmind-midi` and
`deepmind-patches` crates; the library calls them through a small set of
trusted functions whose contracts say what their sources do.

`app/` is the program around the library: reading files and writing them.
