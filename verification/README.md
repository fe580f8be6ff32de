# markdown-style

An opinionated linter and formatter for Markdown, written in Verus. Its one
bigger idea is _one sentence per line_; the smaller rules keep a file tidy.

## Rules

Every rule is always on, and they run in this order:

| Rule | Kind | What it does |
| --- | --- | --- |
| `byte-order-mark` | fix | Remove a leading byte order mark. |
| `line-endings` | fix | Rewrite minority line endings to the file's majority style. |
| `trailing-whitespace` | fix | Strip trailing spaces and tabs; keep a hard break as two spaces. |
| `hard-tabs` | fix | Expand tabs to spaces outside code blocks. |
| `final-newline` | fix | End with a newline and at most one trailing blank line. |
| `heading-increment` | flag | Heading levels increase one at a time. |
| `heading-style` | fix | Rewrite top-level setext headings as ATX headings. |
| `atx-heading` | fix | One space after `#`, no closing `#`s. |
| `code-fence` | fix and flag | Tilde fences become backtick fences; indented code is flagged. |
| `list-marker` | fix | `-` for unordered list markers. |
| `list-marker-space` | fix | One space after a list marker. |
| `ordered-list` | fix | Number ordered lists in sequence or all the same. |
| `blockquote-marker` | fix | One space after each `>`. |
| `nested-indent` | fix | Indent a nested list item to its parent's text. |
| `emphasis` | fix | `_emphasis_` and `**strong**`. |
| `sentence-per-line` | fix | One sentence per line in prose paragraphs. |
| `block-spacing` | fix | Consistent blank lines between blocks. |
| `single-h1` | flag | One top-level heading per document. |
| `continuation-indent` | flag | Continuation lines reach the text they continue. |

The reasoning behind each rule is what `markdown-style explain <rule>` prints,
and `rules_catalog` generates the whole catalog from the rules themselves.

## Layout

- `src/` is the verified library.
  - `text.rs` splits source into lines that keep their terminators and finds a
    file's majority line ending; splitting and joining are proved inverse.
  - `document.rs` parses a source with comrak into an outline of its nodes.
  - `sentence.rs` is the conservative sentence splitter.
  - `rules/` holds one module per rule, each with a detector and a fixer that
    share one specification, so lint and format cannot disagree.
  - `report.rs` renders diagnostics for a terminal or as GitHub workflow
    commands, and generates the rule catalog.
  - `lib.rs` holds the rule registry, `lint` and `format`.
- `tests/` exercises the library on concrete documents.
- `app/` is the command line: argument handling and file and stream I/O.

## What is proved

Each rule states what it reports and what it writes back as spec functions over
the source text and the parser's outline, and every fixing rule proves that it
changes nothing where it reports nothing. Over the whole registry, a source
that lint finds clean comes out of format unchanged, provided its top-level
blocks come in order in the parser's outline, which is the one premise the
block-spacing rule needs. The byte order mark, line endings and final newline
fixers together leave their own output unchanged, except on a source that starts
with two byte order marks, and the trailing-whitespace and hard-tabs fixes leave
their own fixed lines as they are. Beside the rules stand the
laws of the sentence splitter and the masking of protected spans: nothing masked
is lost, no sentence line starts a block, and reflowing keeps the visible text.
What the parser itself does is not proved: the outline is a named function of
the source text.
