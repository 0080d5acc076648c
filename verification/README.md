# Run and Log

Runs the shell commands written in a Markdown file and writes the results back into that same
file. Commands and their results sit next to each other, and the document stays plain Markdown.

A fenced code block in `shell`, `sh`, `bash` or `zsh` is a cell. Running it puts a result block
right after it, between two HTML comments:

````markdown
```shell
date
```

<!-- runandlog:begin -->
Ran result: 2026-08-14 09:53:32 (exit 0, 0.02s, 1 lines)

```text
Fri Aug 14 09:53:32 JST 2026
```
<!-- runandlog:end -->
````

Running the cell again replaces that block. A fence that the document leaves open at its end is
closed before the block is written. Output with many lines goes to a separate file, and so
does the output of a cell that designates one, with `out=` in its fence or with a `Result:`
paragraph below it.

## Layout

| Directory | What it holds |
|---|---|
| `src` | The library, verified with Verus |
| `tests` | Its tests |
| `app` | The `runandlog` program: command line, terminal interface, desktop app, files, processes |

The library decides and computes; it reads no file, starts no process and draws nothing. Where a
decision depends on what the system answers, the library says what to ask next and takes the
answer: `exec` and `capture` watch a command and read its output, `apply`, `destination` and
`atomic` write a result back, `tui` and `gui` serve a front end. The program around it does what it
is told, and hands back what happened.

## What is proved

Each function of the library states what it returns. Beyond that:

- a result that was written is found again, whatever the command has printed and however the
  document ends, and writing another one replaces it (`writeback`, `roundtrip`); the file name of
  the document must not hold a line break;
- the other cells of the document stay as they are, unless one of them begins inside the result or
  inside the `Result:` paragraph of the cell that is run, or the result closes a fence in which it
  lands, or a begin marker without an end marker stands before them (`neighbours`);
- the output of a run is in the document or in the separate file, even if that file cannot be
  written (`roundtrip`);
- a destination lies under the directory of the document, and is not the document (`paths`,
  `destination`);
- no temporary file is left behind (`atomic`);
- a stop is seen through every copy of its handle, from then on, and through no other; the next
  operation of the desktop app starts without it (`cancel`, `gui`);
- a run ends as cancelled only if a stop was asked for, and as timed out only if its time was up
  (`exec`);
- what is kept of the output, and what is shown of it, does not depend on the pieces in which it
  arrives (`capture`, `live`).

The window of the desktop app (`app/window.rs`) needs Tauri, on which this package does not depend. It
is compiled only where the `gui` feature is on; without it `--gui` says that there is no desktop
app.
