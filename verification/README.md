# scap

scap manages local clones of remote git repositories under a structured root
path, `<root>/<host>/<owner>/<repository>`.

```sh
scap get <repository>           # clone (alias: scap clone)
scap list [-p] [-e] [<query>]   # list local repositories
scap rm <repository>            # remove, after a confirmation
scap root [--all]               # show repository roots
scap create <user>/<project>    # create a new repository
```

## Layout

`src/` is the library, verified with [Verus](https://github.com/verus-lang/verus).
It decides everything and does no I/O: what it has to know of the system it is
told as plain values, and what is to be done it hands back as plain values.

| Module | What it decides |
|---|---|
| `url` | which repository an argument names |
| `path`, `paths` | where a repository lies below its root |
| `config` | which files hold the settings, what they say, when git has to be asked, and which roots follow |
| `walk` | what the entries of a directory mean, when a walk is over, and what it finds whatever the order of reading |
| `index` | the file format of the repository index, which of its entries may be believed, and that a listing through it is that of a walk |
| `cmd`, `cli` | what each command does and prints |
| `vcs` | how git is run |
| `logging` | which log filter applies |
| `bytes`, `text`, `sorting` | byte strings, text and order, which the rest is stated over |

Public proof functions whose names begin with `law_` state what holds of the
library as a whole; their doc comments say it in words.

A few functions of outside crates and of the standard library are called
through small wrappers whose contracts Verus takes on trust. Each says in its
doc comment which function it calls and what it claims of it.

`app/` is the program around the library: arguments, files, processes and
threads. `tests/` runs the library, with a file system in memory where a walk
needs one.
