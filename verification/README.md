# handwrite_sim

The logic of a handwriting simulator, verified with Verus: importing Word
documents (styles, runs, role tags, highlight colours), finding highlighted
areas on page images and `{{...}}` tags in extracted text, splitting glyph masks into strokes,
the parameters of the form, the font list, and reading release feeds for
updates.

Layout:

- `src/` — the verified library. Each module states its behaviour in
  `requires`/`ensures` over spec functions; public `proof fn`s state laws
  that relate several functions.
  - `text`, `html`, `versions`, `notes`, `release`, `updates`, `json` — text
    helpers, HTML entities, version comparison, release notes, release feeds,
    the JSON replies of the releases API (through `serde_json`) and what an
    update check concludes.
  - `boxes`, `highlight`, `areas`, `tags`, `regions` — highlight boxes on
    page images (the 8-connected areas of highlighter colours, merged),
    scanning text for tags, and pairing boxes with tags and colour roles.
  - `strokes`, `engine` — strokes of a glyph mask (4-connected areas) and the
    render seeds.
  - `xmlread`, `styles`, `runs`, `docx`, `package` — reading a `.docx`:
    its XML events through `quick-xml`, the style sheet, the runs of each
    paragraph, and the archive parts through `zip`.
  - `script_text` — what the updater's batch script contains as text.
  - `models`, `fonts`, `documents` — the parameter enums, colours and
    messages, the font picker, document kinds, page names and the Word
    conversion script.
- `tests/` — tests of the library.
- `app/` — the command-line program around it: files, network, processes,
  floating-point layout parameters and the random stroke jitter.
