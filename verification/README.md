# faststone_double_shot

Deletes a photo together with every file of the same shot (JPG and RAW
files sharing a base name), from FastStone Image Viewer's external-program
hook.

- `src/` — the verified library: which files pair with the selection
  (`matching`, `names`), when to ask first (`mode`), the dialog texts
  (`message`), and the run that ties them together (`lib.rs`, through the
  `Ui` and `Deleter` traits).
- `app/` — the Windows program: reads the directory, shows Win32 dialogs,
  deletes to the Recycle Bin or permanently.
- `tests/` — the test suite, run against the library with fake dialogs and
  deleters.
