# texreflow

Verified whitespace layout for LaTeX prose. Three passes work on a document and
on a report of its lines:

- `join::join_lines` joins the lines of each paragraph into one.
- `reflow::reflow_lines` redistributes the text of each paragraph across its
  lines: minimally, canonically or by sentence.
- `options::format_options` puts each item of a multiline optional argument on a
  line of its own.

The report (`scan::Scan`) says which lines are ignored, verbatim or part of a
table, where comments begin, and so on. It comes from the scanners of the
formatter that uses this library; `app/` shows how files, scanners and passes
fit together.

Positions in a text count characters.

## Layout of the source

| Module | Contents |
| --- | --- |
| `chars`, `text` | classes of characters; trimming, searching, lines |
| `config`, `scan` | settings; reports on lines |
| `prose`, `paragraphs` | which lines are prose, and the paragraphs they form |
| `join` | joining |
| `options` | optional arguments |
| `cost`, `minimal` | layout costs; minimal reflow as a shortest path |
| `semantic` | sentences and clauses |
| `reflow` | the reflow pass |
| `optimal`, `changes`, `authored`, `stable` | what minimal reflow guarantees |
| `laws`, `words`, `documents`, `plain`, `apart` | what joining and reflow guarantee |
| `pieces` | documents glued from pieces |
| `rejoin`, `respread` | joining, and formatting options, a second time |

Every pass has an exact contract. The proof functions whose names begin with
`law_` state what holds of the passes as a whole: that they change nothing but
whitespace and leave fixed regions untouched, that joining and reflow keep every
word (in minimal mode, if lines are only broken behind whitespace), that minimal
reflow finds a cheapest layout, and on which documents a second run of a pass
changes nothing.
