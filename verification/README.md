# qwikmark

A parser for a lightweight markup language, verified with Verus.

A document is a sequence of blocks: divs (`::: name` … `:::`), headings
(`#` to `######`, each holding the blocks under it), code blocks (fenced by
three to sixteen backticks), lists (unordered, ordered, definition and task
items, nested by indentation) and paragraphs. Blocks hold spans: text, strong
(`*`, `[*…*]`), emphasis, superscript, subscript, highlight, insert, delete,
links (`[[location|text]]`), verbatim (backticks), hash tags (`#tag`), escapes
and line breaks. Spans and blocks may carry attributes (`{key=value …}`).
The text of spans can be turned into hash tags and index strings.

## Layout

- `src/model.rs`: the parsed types and their mathematical views.
- `src/chars.rs`: character classes, scanning, line endings, trimming.
- `src/attrs.rs`: attributes.
- `src/spans.rs`: spans.
- `src/index.rs`: list item indexes.
- `src/lists.rs`: lists.
- `src/blocks.rs`: blocks and documents.
- `src/hashtag.rs`: contents of spans, hash tags and index strings.
- `app/main.rs`: reads a file and prints its parsed document.

Each parser is a function on a character sequence with a contract that
states its result as a spec function of the input; the laws of the library
are proof functions beside them: attributes keep the first value of a key,
text spans are joined and no end of mark is kept in any run of spans, spans
outside lists stop at an end of mark, headings nest by level, a document
takes in the whole input, text free of tag characters is one text span,
plain paragraphs split at a blank line, the
contents of spans are the contents of each span in turn, hash tags read their
texts as one stream and have a fixed shape (strings hold only letters
when every number fits an integer), and two dashes in an index string
always precede a digit.
