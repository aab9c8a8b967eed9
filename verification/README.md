# fish_session

Sessions for the fish shell that outlive their terminal. A daemon runs the shells; a client
attaches a terminal to one of them, leaves it again and finds it as it was. A picker lists the
sessions, makes, renames and deletes them, and opens new ones in directories that zoxide knows.

The logic is a library in Verus (`src/`): what it does is stated in contracts and proved. The
program around it (`app/`) opens sockets, pseudo-terminals and files, runs processes, draws with
ratatui and turns JSON into the library's values. It also draws an attached session where the
emulator of `vt100` may panic: on a terminal of less than three rows or columns, or of more than
65527 columns, and on one that was made smaller than when the session saved its cursor, or
narrower after wide characters may have been shown.

- `protocol`: what client and daemon say to each other, and the lines it travels in
- `config`, `paths`, `text`, `bytes`, `ansi`: settings and the means the rest is built with
- `client`: attaching, the keys that end an attachment, terminal queries and their replies, and
  the drawing of an attached session over the emulator of `vt100`
- `daemon`: the table of sessions, the bridge between a shell and its terminal, and the replay
  of past output
- `ui`: the picker as a machine from keys and outcomes to what to do next

Proof functions named `law_..` state what holds across functions: that cutting a stream in
pieces changes nothing, that a deletion undoes a creation, that every round of the bridge ends.
