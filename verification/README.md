# Blurman

Frosted glass behind the Windows apps you pick. Blurman fades an app's window and puts a glass
window of its own directly behind it, so whatever shows through is frosted instead of sharp.

- Pick any running app, set **transparency** (10 to 70 percent) and **blur** (1 to 100), and press
  **Frost it**. Sliders apply live.
- Rules are saved per app and come back on every new window of that app. New windows are faded the
  moment the app creates them.
- **Pause** puts every app back without deleting rules. **Restore all** deletes them.
- **Start with Windows** and **Keep in tray on close** keep Blurman in the tray.
- If Blurman crashes or is killed, the next start (or `blurman clear --all`) puts every app back. A
  window that does not respond is left alone, since a style change would wait for it.

```
blurman list
blurman apply chrome.exe --transparency 30 --blur 40
blurman clear chrome.exe
blurman clear --all
```

## Layout

`src/` is the library: Blurman's rules and decisions, verified with Verus. It touches no window and
no file. It takes what Windows said as plain values and gives back what is to be done.

| Module | What it decides |
| --- | --- |
| `mapping` | slider ranges, the alpha, radius and tint they stand for, app names |
| `rules` | the rule store and the records of touched windows |
| `files` | where files live and how they are written |
| `target` | which windows can be frosted, and how they are grouped and matched with rules |
| `fade` | how a window is faded and put back |
| `worker` | which windows are frosted, what is remembered of them, and what an event asks for |
| `table` | the ordered map of window handles behind `worker` |
| `glass` | where the glass goes and how it blurs |
| `blocks`, `colors`, `solid` | which parts of a captured app are background |
| `single` | single-precision arithmetic in whole numbers |
| `app` | what the window shows and what its controls do |
| `tray`, `autostart`, `launch`, `cli` | the tray icon, the startup entry, starting up, the command line |
| `text` | comparing, trimming and printing texts |

The public proof functions state what holds across several functions: that putting a window back
undoes every fade, that a crash can be undone from what is saved, that pausing keeps the rules, that
a reader never sees half a file, that a scan leaves every wanted window frosted or refused.

`app/` is the program around the library. It asks Windows, performs what the library decides, and
draws the window. Besides the crates in `Cargo.toml` the tray needs `tray-icon` 0.21. The parts that
call Windows are compiled on Windows only.

`tests/` runs the library on concrete values.
