# appopt

A daemon for Android devices. It keeps the threads of applications on the CPU
cores that a rule file names for them, sets the refresh rate of the display by
what happens on the screen, and shows its state on a local web page.

- `src/` is the library. Everything that decides or computes is there, with
  contracts that Verus proves: the grammar of the rule file and how the file is
  edited and tidied, CPU sets and core tiers, which rule a thread falls under,
  the caches and tables of processes, the refresh-rate state machine, the binder
  and inotify wire formats, the HTTP requests and the web interface, settings.
- `app/` is the daemon around it: files, sockets, threads, system calls.
- `tests/` runs the library on concrete values.

Each module of `src/` states what its functions compute over mathematical
sequences, sets and maps. The public proof functions state what holds of several
functions together, such as that what is written to the rule file is read back.
What is believed of `std` and `serde_json` without proof stands in `text.rs`,
`parcel.rs` and `json.rs`, each item with a comment that says what it claims.
