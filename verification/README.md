# ffwebapps

The verified core of ffwebapps, which runs websites as chromeless desktop
apps on a dedicated Firefox runtime, and the I/O around it.

- `src/` is the library, written in Verus. Each public function has a
  contract over a mathematical model (`Seq<char>` texts, sequences of
  entries), and the laws that span several calls are public proof functions:
  - `kwin`, `kwin_laws`: the surgical update of `kwinrulesrc`; updating twice
    for an app is the second update alone, and `[General]` stays in sync —
    for files none of whose lines ends with a carriage return (nor, when the
    first update removes, has one before a comma), one-line names and a
    one-line class id without commas.
  - `desktop`, `icons`: the `.desktop` launcher, the autostart entry, the
    launcher command, where icons go and the pattern that removes them.
  - `taskbar`: Firefox Web Apps registry entries (upsert by id) and the
    per-app `user.js` with the default in-app domain list.
  - `forms`: the editor diffs (`None` = leave, `Some(None)` = clear, …) and
    their round trips, labels, URL checks, settings texts.
  - `live`: the control-socket line protocol.
  - `appearance`: the GUI's glass tint, opacity and accent stylesheet.
  - `text`, `order`, `urls`, `site`: string helpers with exact specifications,
    byte-order sorting, the `url` crate calls, the data model.
- `app/` is ordinary Rust: files, processes, sockets and JSON.
- `tests/` runs the library on concrete values.
