# kaimirror

Screen mirroring, recording, screenshots, typing and key injection for KaiOS
3.x phones over adb, in the manner of scrcpy. The logic is a library written in
Verus: every function states what it returns, and Verus proves it. A thin
program around it does the input and output.

## Layout

- `src/` — the library.
  - `keys`, `multitap`, `keypad` — the phone's keys, typing on them by
    multi-tap, and the proof that a plan typed on the keypad leaves exactly the
    text in the field.
  - `crop`, `imemode` — reading the input mode off the status bar of a frame.
  - `controller`, `control` — reaching a case by looking and pressing, and the
    terminal session that drives the phone.
  - `stream`, `sink` — splitting the frame stream, the command lines of ffplay
    and ffmpeg, and the order of the relay between the two.
  - `json`, `rdp`, `devtools`, `survey` — reading the screen as text over the
    phone's remote debugging socket.
  - `adb`, `cli` — what is asked of adb, and the program's own command line.
  - `pump` — the half that runs on the phone.
  - `text`, `words` — operations on text that the others are built from.
- `app/` — the program: processes, sockets, the terminal, the clock. Under the
  name `kaipump` it is the half that runs on the phone.
- `tests/` — the library at work on concrete values.
- `extras/embed_pump.sh` — folds the device half into the host half, so that a
  release is one file.

## Conventions

A type `T` of the library has a mathematical view, `t@`, and contracts speak of
views. Each function's `ensures` gives its result as a spec function of its
arguments. What holds across functions is stated as a public proof function
whose name begins with `law_`: that a planned text lands, that parsing undoes
quoting, that it does not matter how a stream is cut up on its way, that options
work on either side of the command.

Where the program has to look at the phone before it can go on, the library is a
machine: it says what to do next, and is told how that went.

A handful of functions of the standard library are called through declarations
whose contracts are not proved: appending a character to a string, capitals, the
character of a number, text out of bytes, and how a text is shown between
quotes. Each says what it claims where it is declared.
