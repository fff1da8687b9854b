# Starcom

The verified core of a native client for persistent remote tmux sessions, and
the program around it.

`src/` is a library. It holds what the client decides: how a control stream is
framed, how captures become terminal models, when input may be sent, which SSH
configuration is followed, what is saved, and the text of every remote command.
Each function states what it returns and changes, and Verus proves it. Laws that
span several functions stand beside them as public proof functions.

| Modules | Subject |
| --- | --- |
| `text`, `order`, `values`, `tmux` | characters and numbers, ordered lists, checked values, identities |
| `control`, `inspect`, `session`, `snapshot`, `replay`, `terminal` | from the bytes of a control stream to live pane models |
| `input`, `keys`, `command` | from the keyboard and the clipboard to tmux commands |
| `ssh`, `trust`, `identity`, `sftp` | the steps of a connection, host keys, identity files, uploads |
| `ssh_config`, `config_laws`, `glob` | `~/.ssh/config`, without executing anything |
| `connection`, `desktop` | epochs, tokens and the queue of a tab |
| `form`, `quick_form`, `ui`, `layout`, `paint`, `workspace`, `demo` | forms, panes and tabs |
| `store`, `dialog`, `wayland_drop`, `cli` | saved tabs, startup questions, dropped files, arguments |

Terminal cells are kept by `alacritty_terminal`, keys and known hosts are parsed
and signatures made by `ssh-key`, host names are hashed by `hmac` with `sha1`, and
public keys are read by `sunset`. What is believed of these crates without proof
is said above each function that calls them.

`app/` holds sockets, threads, files and the window. It decides nothing that the
library can decide. `tests/` runs the library on concrete values.
