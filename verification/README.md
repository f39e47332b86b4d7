# notepad

The core of a markdown notepad that runs as a VST3 plugin, verified with Verus, and the
application around it.

The document is UTF-8 text addressed by byte offsets. Keys rewrite it as they are typed: `* `
becomes a `- ` bullet, Enter carries lists and quotes on, numbered lists renumber themselves, an
opening fence closes itself. The display hides markdown's punctuation except on the caret's line.

## Layout

`src/` is the library. Every function in it has a contract over a mathematical model, and the
laws that tie several functions together are public proof functions named `law_*`.

| Modules | What they hold |
|---|---|
| `bytes`, `text`, `lines`, `decimal`, `ascii` | UTF-8 text by byte offset: boundaries, words, columns, lines, numerals |
| `block`, `inline`, `render` | the grammar of a line and of what stands in it, and the document laid out for display |
| `session`, `edit`, `keys` | the editing session as a model, the editor that implements it, keys and their results |
| `typing`, `motion`, `press`, `renumber` | what each key does |
| `laws`, `conversion`, `checkbox` | what holds of editing as a whole |
| `file`, `commands`, `state` | documents on disk, host-level commands, the state a DAW keeps |
| `view`, `input` | what the window shows and how its events reach the editor |
| `host`, `plugin`, `stream`, `resolve`, `host_args` | the decisions of a minimal VST3 host |
| `bundle`, `module_info` | the decisions of the build tasks, and the files of a plugin bundle |

`app/` is ordinary Rust: file access, dialogs, the egui window, calls into plugin binaries, and
the build tasks. It hands the library plain values and does what the library decides.

`tests/` runs the library on concrete values.

## What is trusted

Four functions of the standard library are used by contract: `String::push`,
`String::from_utf8_lossy`, `String::from_utf16_lossy` and `std::str::from_utf8`. What each
contract claims stands above it.
