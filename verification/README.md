# nala

A front end for apt: it lists, shows, downloads, installs and upgrades packages,
and finds fast mirrors.

- `src/` is the library: what the commands decide and compute, with contracts
  that Verus proves. Calls into other crates stand behind small trusted
  functions, each with a note on what is taken on trust.
- `app/` is the program: the command line, libapt-pkg, the network, the terminal
  and dpkg. It hands the library plain values and carries out what it decides.
- `tests/` runs the library on concrete values.

The library's values of a package cache are in `src/apt.rs`. The commands are
in the modules that bear their names; `src/cmd` holds what several of them
share. Laws that relate several functions are the proof functions whose names
begin with `law_`.
