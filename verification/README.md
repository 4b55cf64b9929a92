# sm

A minimal terminal session manager. A program runs inside a detachable session: it
keeps running in a background server after you disconnect, and you can reattach to
it later.

- `src/` is the library: everything that decides. The wire protocol, the output
  filter, the prefix key, the state machines of client and server, the search for
  a safe socket directory, the command line. It is verified with Verus; each
  function states what it returns, and the functions named `law_...` state what
  holds of several together.
- `app/` is the program around it: system calls, processes and the event loops that
  hand the library what they read and perform what it answers.
- `tests/` runs the library on concrete values.

```
sm [-a|-A|-c|-n] [-p] [-r] [-q] [-l] [-L] [-f] [-e detachkey] name [command ...]
sm -R old new  # rename a session
sm -l          # list sessions
sm -v          # version
```

Options may also stand between the name and the command. The prefix key is Ctrl-a
unless `-e` gives another: prefix then `d` detaches, prefix twice sends one literal
prefix byte, prefix then any other key sends both.
