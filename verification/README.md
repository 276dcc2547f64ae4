# codex_image

The core of CodexImage, a board on which image generations made by the Codex
CLI are arranged as cards, each continuing or combining earlier ones.

`src/` is a library verified with Verus:

- `boards`, `subtree`, `repository`, `depths`: boards and their nodes, the
  board list, subtree deletion with undo, node moves and repairs, and the
  depth of every node in its chain.
- `prompt`, `manifest`, `generation`, `codex`: the prompts handed to Codex,
  the checks on the manifest it answers with, the decisions a run makes from
  its event stream, and the CLI's PATH and process-group handling.
- `editor`, `text`, `wrap`, `strings`: the text field's editing and undo
  history, grapheme and word navigation, UTF-16 offsets, and prompt wrapping.
- `disk_cache`, `image_budget`, `storage`, `settings`, `format`, `card`,
  `pixels`, `svg`, `window_memory`, `model`: the decoded-image cache format,
  cache accounting and eviction order, file naming, settings, and display
  text.

`tests/` exercises the library on concrete values. `app/` is the program
around it: JSON files, the file system, the Codex process, and the parts that
need floating point or the local time zone.

The program lists the boards; `--generate <board-id> <prompt>` adds one card
to a board and runs its generation, and `--condition-image <source>
<destination>` conditions one image for reingestion.
