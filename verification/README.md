# activity

A macOS command-line tool that reconstructs a timeline of computer usage for
a given day or month: it reads several macOS data sources (powerlog, unified
log, wifi log, Biome streams, the Knowledge store, Duet anchors), classifies
each period as active work, a break or transit, and reports whether a day was
worked from the office.

## Layout

- `src/` is the library, written and proved with Verus. It holds the logic:
  parsing the log lines and binary records, the timeline state machine, the
  legacy period builder, the location clustering and co-occurrence rules, the
  cache decisions, the day and month reports and their terminal rendering.
  Calls into `chrono`, `memchr` and `prost` go through small trusted wrappers
  whose contracts are stated next to them.
- `tests/` exercises the library on concrete values.
- `app/` is the program around it: argument handling, the SQLite caches,
  reading files, spawning `log show`, `bzcat` and `gunzip`, decoding the
  App.InFocus protobuf message, and the floating-point parts (Cocoa
  timestamps and decayed co-occurrence weights).

## Usage

```
activity YYYY-MM-DD|YYYYMMDD     # day report
activity YYYY-MM|YYYYMM          # month report

Options:
  --color=never|always|auto      # default: auto
```

The office network is configured in
`$XDG_CONFIG_HOME/io.github.jcayzac.activity/config.toml` (or under
`~/.config`):

```toml
[office]
ssid = "CorpWifi"
```
