# ComicInfo Generator

Writes `ComicInfo.xml` metadata into comic archives (`.cbz`): for a whole folder at once, or for one
archive in an editor.

- `src/` is the library, written in Verus. What a file name says, how titles and names are made, which
  rule applies, what is written and read, and every step of a run and of the editor is stated in
  contracts there and proved.
- `app/` is the window around it: egui, files, archives, threads.
- `tests/` runs the library on concrete values.

## The library

| Modules | What they are about |
|---------|---------------------|
| `text`, `unicode`, `patterns` | texts as sequences of characters, and the patterns by which file names are read |
| `decimal`, `natural`, `number`, `order` | numbers as they are written, binary floating point as integers, sorting |
| `naming`, `rules`, `schema`, `tags`, `theme` | names and titles, rules for volumes, dates and summaries, the tags of the schema |
| `xml`, `reader`, `archive` | the document, reading it back, and its place in an archive |
| `json`, `import` | configurations and metadata from other files |
| `state`, `session`, `forms`, `actions`, `sfm` | what the application holds, and what each action does to it |
| `worker`, `job` | a run: what is planned for a file, and the steps in which it is carried out |

The library calls `regex`, `serde_json`, `chrono` and `unicode-normalization`. What it takes from them
without proof stands in the contracts of the functions that make the calls: in `patterns`, `json`,
`worker` and `unicode`, and in `text` for two functions of the standard library.
