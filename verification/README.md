# game_time_tracker

Tracks how long games run, by polling the process list and recording play
sessions in JSON files under the user's configuration directory.

- `src/` is the library, verified with Verus: game identifiers, process
  matching and the process picker list, session bookkeeping (opening,
  closing, pruning, crash recovery), the edits the management window makes
  to the data files, the installer's `PATH` and registry-string handling,
  MD5 hex digests, temporary file names and the icon.
- `app/` is the program around it: command line, reading and writing the
  JSON files, the polling loop, and the Windows registry calls.  The tray
  icon and the web window of the desktop build are not part of it.
- `tests/` exercises the library on concrete values.
