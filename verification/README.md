# macsweep

A terminal junk cleaner and memory monitor for macOS, written as a verified
library (`src/`) and a thin program around it (`app/`).

`src/` holds every decision, each with a contract proved by Verus:

- `scan` — the categories, the denylist that keeps iCloud, keychain and
  security paths from ever being listed or deleted, the locale and bundle
  rules, how probed directories in use by a running application are skipped,
  and how the newest iOS backup is protected.
- `running` — matching a cache directory's name against the running processes.
- `clean` — a deletion as a step machine: what to remove next, what to report,
  and the final per-category summary.
- `app` — the application state, its reaction to keys and to the results of
  background work, and the laws it keeps (no deletion without confirmation,
  one memory purge at a time, the cursor stays on the list).
- `ui` — sizes and the texts shown on screen.
- `text`, `mem` — character-level helpers and the memory sample.

`app/` reads the terminal, the filesystem and the system, runs the background
work the library asks for on threads, and draws with ratatui.
