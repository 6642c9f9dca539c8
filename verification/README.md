# repl

The plain text output of a REPL, kept in a simulated terminal. Text goes through a terminal
emulator (`alacritty_terminal`), is read back out of its rows, and can be opened in a buffer.

* `src/`: the library, verified with Verus.
  * `output`: the output itself, `TerminalOutput`, with its contracts and laws.
  * `emulator`: the emulator. What is believed of it without proof stands here.
  * `cell`: the cells of a grid, and how many of them a row takes.
  * `text`: what is read out of rows.
  * `plain`: what becomes of text without escape sequences.
  * `command`: the color commands in the bytes of a terminal.
  * `geometry`: sizes of grids and of what is painted.
* `tests/`: tests of the library with the real emulator.
* `app/`: fonts, themes, buffers and painting in a window, around the library.
