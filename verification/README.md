# froklog-watch

A Linux companion for EverQuest logs: it knows which characters there are and
where their froklog pages live, runs triggers against their logs, and plays or
speaks what the triggers ask for.

The rules of all this are a library, `src/`, written and proved in Verus. It
touches no disk, no audio server and no trigger engine; `app/` does, and hands
the outcomes in as plain values.

| module      | what it holds |
|-------------|---------------|
| `character` | a character's key and links, and the names of log files |
| `registry`  | settings, the known characters, folding found logs in |
| `builder`   | from a pasted log line to a pattern with capture groups |
| `triggers`  | triggers as the window shows them, described in one line |
| `alerts`    | the triggers in use, editing them, what fired lately |
| `respell`   | applying the pronunciation table to a line |
| `pronounce` | the table's file and the order it is applied in |
| `voice`     | engines, priorities, piper jobs, sample rates, installed voices |
| `queue`     | the speaking queue: collapsing duplicates, pacing alerts |
| `audio`     | volume, where a sound comes from, which players are asked |
| `paths`     | where files are kept |
| `text`, `order` | characters, searching, trimming, numbers; sorting |

Functions whose names begin with `law_` state what holds of the library as a
whole; they are proved and never run.

What is believed and not proved is marked `external_body` or
`assume_specification`: `String::push`, `char::is_alphanumeric`,
`char::to_lowercase` and `{:?}` of a text in `text`, `toml::from_str` in
`pronounce`, and `dirs::config_dir`, `dirs::data_dir`, `Path::join` and
`PathBuf::from` in `paths`. Each says in its comment what is claimed of it.
