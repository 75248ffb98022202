# cc_cockpit

The logic behind a cockpit of terminal panes, written in Rust and verified with Verus.

The cockpit shows tabs and panes that live in tmux, keeps an eye on what runs in them, and
has panels beside them: an inventory of the agent's skills, subagents, plugins and servers, an
audit of these across projects, team templates and team runs, a usage meter, a file tree.

## Layout

- `src/` is the library. It holds no I/O: files, outcomes of commands and the time are passed
  in, and what is to be done is handed back. Every function has a contract over the models
  that stand beside it, and the promises that span functions are public proof functions in
  the module that they are about.
- `app/` is the host around it: it runs tmux and other programs, reads and writes files,
  watches directories, and carries values over the wire.
- `tests/` runs the library on concrete values.

## Operations in steps

An operation that takes several tmux commands is a function of the outcomes so far. It gives
the next command or its result, so that everything it decides is decided in the library. The
host repeats one loop for all of them:

    loop {
        match step(&outs) {
            Step::Run(args) => outs.push(tmux(&args)),
            Step::Done(result) => return result,
        }
    }

## What is trusted

A few functions of other crates are called through declarations whose contracts are believed:
the JSON parser, the base64 engine, UTF-8 decoding, lower-casing, and the debug form of
strings. Each stands next to its contract, with a comment that says what is claimed of it.
