# speedyf

The decision-making core of a desktop PDF reader for research papers: text
search over rendered pages, a citation library with a trigram filter and a
gram index per library, render scheduling, caches, citation and link
parsing, form fields and save planning. `src/` is written in Verus: every
function there is proved against its contract, but for the few wrappers
around outside code described below.

## Layout

- `src/` — the verified library, one module per concern:
  - `search`, `trigram`, `gramindex`, `librarytext`, `librarysearch`:
    page text normalization, per-document search, the stored trigram filter,
    the library-wide gram index and its byte format, and the library search
    as a state machine that asks its caller for each file it needs;
  - `library`, `indexing`, `opens`, `recent`: what the citation library
    holds, scan scheduling, files named at launch, recently used documents;
  - `queue`, `cache`, `pagecache`, `metrics`, `bench`: render queue with
    generations, byte-bounded caches, counters and benchmark sampling;
  - `citation`, `links`, `urls`, `formal`, `figures`, `tagged`, `text`,
    `printing`, `forms`, `save`: parsing and deciding about document content;
  - `chars`, `types`, `errors`: shared character helpers, data types, errors.
- `tests/` — tests of the library, run against the compiled crate.
- `app/` — the unverified shell: file and directory I/O, JSON sidecars,
  the loop that feeds the library search what it asks for, and the float
  geometry of text lines.

## What is not here

Rendering, text extraction, annotation and form access go through the PDFium
engine, and the window lives in a Tauri shell. Both stay outside this crate,
and so do the functions that only drive the engine; the decisions they make (which fonts are mathematical, which links a
document may open, which form field kind a widget is, how a save is planned)
are in `src/` and verified. Layout geometry works in floating point and stays
in `app/`.

## Contracts and trust

Calls into `std` that vstd does not specify, into `unicode-normalization`
(NFKC) and into `url` (URL parsing) go through small wrappers marked
`#[verifier::external_body]`, each with a doc comment saying what its
contract claims of the outside code. Where a result takes more than a few
lines to state, the wrapper names it with an uninterpreted spec function, and
a public verified function takes the outside result as an argument so that
everything after the call is proved exactly.
