# packmap

Packs a Counter-Strike 1.6 map and all its custom content into a zip archive.

Given a map file from a server install, it reads out everything that the map
refers to, leaves out the files that come with the game, and packs the rest under
the paths at which they are installed. A map that is not inside a server gets a
list of the files that it needs, `<map>_resources.txt`, instead.

```
packmap [-r] [-o <dir>] <mapname.bsp> [mapname2.bsp ...] [folder ...]
```

With `-r` only the list is written, as `<map>.res`. Given a folder, the program
offers to pack every map in it. The files that come with the game are named, one
to a line and in lowercase, in `cs-vanilla-filelist.txt` beside the program.

## Layout

- `src/` is the library, verified with Verus. It works on plain values: the bytes
  of a map, and a table of the server's files.
  - `bsp`, `entities` read the map; `world`, `references`, `models`, `details`
    say which files it refers to, and `collect` puts them together in the queue of
    `paths`.
  - `server` looks files up; `list` and `pack` make a resource list and an archive;
    `pack_map` goes all the way from the bytes of a map to either.
  - `text` and `table` are strings and maps from strings.
  - `archive`, `clock` and the first part of `text` hold what is trusted: calls of
    the `zip` and `time` crates and of the standard library.
  - `laws` states what holds of the library as a whole.
- `app/` is the program around it: arguments, files and messages.
- `tests/` runs the library on examples.
