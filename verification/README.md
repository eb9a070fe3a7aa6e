# kdeconnect_bridge

A bridge that re-announces KDE Connect notifications on the desktop.

Phone applications often update a notification in place, and KDE Connect then
shows no second popup. The bridge listens to the signals of KDE Connect, looks at
the notifications in regular intervals, and shows a popup or plays a sound when a
notification says something new.

- `src/` is the library, written in Verus: the D-Bus type system and wire format
  (`dbus`), the JSON reader and writer (`json`), the rules (`config`), the command
  line (`cli`), the popup and sound backends (`notify`), and the state machine
  (`bridge`). Every function has a contract. The laws that relate several functions
  are public proof functions whose names begin with `law_`.
- `app/` is the program around it: sockets, files, processes, the clock, and
  floating-point numbers. The library holds numbers of the configuration and of the
  command line as their texts, D-Bus doubles as their bits, and times in nanoseconds.
- `tests/` runs the library on concrete values.
