# winhelp

A verified reader for Windows WinHelp (`.hlp`) files, and a renderer that turns
them into a Sphinx project of reStructuredText pages.

The library under `src/` takes the bytes of a help file apart: the container and
its directory, the B-trees of contexts, titles and keywords, the phrase tables
and the LZ77 and run-length encodings, the topic stream with its records, the
commands and text of paragraphs, and the pictures with their hotspots. It gives
a document model (`HelpFile`) and renders it as text. Each function states what
it returns for every input, in terms of spec functions over sequences of bytes
and characters, and Verus proves it.

The program under `app/` reads the file, writes the pages and handles the
command line:

    hlp2rst input.hlp out/ --verbose
    hlp2rst input.hlp out/ --dry-run
    hlp2rst input.hlp out/ --format-version 3.1

## Modules

| module | subject |
|--------|---------|
| `container`, `btree` | the HLP file, its directory, and the tree that internal files share |
| `context`, `title`, `keyword` | `\|CONTEXT`, `\|TTLBTREE`, `\|KWBTREE` and `\|KWDATA` |
| `system`, `font` | `\|SYSTEM` and `\|FONT` |
| `phrase`, `hall`, `tokens` | phrase tables and phrase tokens, of WinHelp 3.1 and 4.0 |
| `lz77`, `runlen` | the two compressions |
| `topic`, `opcode`, `scan` | the topic stream, text records and their numbers |
| `bitmap`, `hotspot`, `cursor` | pictures, metafiles and clickable regions |
| `model`, `helpfile`, `inversion`, `order` | the document, its assembly, and the keyword index |
| `markup`, `rst`, `contents`, `picture` | reStructuredText, pages, their table of contents, and image files |
| `layout`, `records`, `pictures` | how structures lie in bytes, and that reading gives them back |
| `bytes`, `text`, `views`, `error` | what the others build on |

Proof functions whose names begin with `law_` state what holds of the library as
a whole.

## What is taken on trust

Four items rest on documentation alone: `String::push`, `char::is_whitespace`,
`String::from_utf8_lossy`, and the conversion of BMP files to PNG by the `image`
crate. The doc comment of each says what is claimed of it.
