# split_editor

A terminal text editor whose screen is split into panels: an edit panel, a
prompt for input, and a panel of messages, which the user can split, add,
remove, retype and move between with key sequences.

The library (`src/`) holds the editor's logic, each function with a contract
proved by Verus:

- `commands`: the trie of key sequences that commands are bound to, with
  catch-all keys; `manager` routes key presses to the active panel's command
  set and then to the global commands; `command_list` counts and names them.
- `app`: the layout of panels in nested splits, the active panel, messages,
  and the handling of panels' requests for input.
- `text`, `input`: text buffers with a cursor, editing by key, wrapping of
  long lines for display, quick selection among completions.
- `panels`: the store of panel contents, reusing empty slots.
- `autocomplete`: completions of panel type names and of file names, and
  the choice of completer for a pending input request.
- `paths`: resolving typed paths against the working and home directories,
  and the titles of opened files.
- `render`: how a split divides its space among its children, and when it
  can be laid out at all.

The program (`app/`) reads keys from the terminal, performs file reads and
writes that panels ask for, reads the working directory, `HOME` and
directory listings for file completion, and draws the panels.
