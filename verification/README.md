# slate

The model and rules of a desktop calendar that keeps its events as
iCalendar files in a vdir (one directory per calendar), written in Verus:
each function states what it does in its `requires` and `ensures`, and
Verus proves the code meets it.

## Layout

- `src/` — the verified library.
  - `date.rs`, `text.rs`: dates, times and text, the ground the rest stands on.
  - `event.rs`, `recurrence.rs`, `expand.rs`: events, repeat rules and their
    expansion into occurrences.
  - `ics.rs`: reading and writing `.ics` files through the `icalendar` crate.
  - `index.rs`, `store.rs`, `collection.rs`, `watch.rs`: the index of a
    calendar directory, the occurrences of a window, calendar metadata, and
    the debounce of file changes.
  - `calendar.rs`, `timegrid.rs`, `panel.rs`, `launcher.rs`: what the views,
    the day grid, the panel applet and the launcher plugin show.
  - `form.rs`, `editor.rs`, `quickadd.rs`, `settings.rs`, `config.rs`,
    `undo.rs`, `reminders.rs`, `meeting.rs`, `launch.rs`, `color.rs`: the
    event editor, quick add, settings, undo, reminders, meeting links, the
    command line and calendar colours.
- `tests/` — tests run against the compiled library.
- `app/` — a small command-line program around the library: the launcher
  plugin, the reminder loop, quick add and an upcoming-events glance, with
  the file and terminal I/O the library leaves out.

Calls into `chrono`, `chrono-tz`, `rrule`, `icalendar` and `uuid` stand
behind small trusted wrappers whose doc comments say what is assumed of them.
