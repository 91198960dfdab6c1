# sorting-hat

Takes a directory of PDFs that were fire-hosed in with no structure, works out
what each one is, designs a folder tree that fits *that* collection, and files
everything into it. Nothing moves until the plan has been read, and every run
can be reversed.

The library in `src/` holds everything that decides or computes. It is written in
Verus: each function states in its contract what it returns or changes, and the
verifier proves it. The program in `app/` is ordinary Rust around it: the command
line, files, Poppler's tools, the model, and the JSON and TOML forms of the data.

## What is proved

- **A plan is sound.** No two documents are given one destination, and a document
  that nothing fitted well enough stays in `_Unsorted`. Every destination lies in
  the folder it was filed under and so inside the library.
- **Nothing is lost.** A plan lists every file that was found exactly once, as
  the source of an assignment, as unfiled or as a copy, and the order in which the
  files were found does not matter. Every document of a plan is filed, was there
  already or fails with a reason, and every file of a library is indexed or left
  alone for a reason.
- **A run can be reversed.** A file is on record before it is put in place, and
  neither a run nor its reversal loses a file. A record is reversed from its end,
  and that restores the files there were. A document that was moved and then
  written into is put back as it was last written: no copy of its former bytes is
  kept.
- **Rewrites are repeatable.** What a PDF holds after it is stamped and indexed is
  determined by what it held before and by what was to be written.
- **Names are safe.** Whatever a model answers, a path component holds no
  separator and no control character, fits its byte limit, is never empty and is
  never a reserved name.
- **Sources are left alone.** Writing a library anew clears the filed copy before
  the source is copied, so nothing is written through a hard link to a source.
- **What was learnt is kept.** A digest that was put into the log is found after a
  restart, also behind a line that a killed run left cut short.

Each stands in the module it belongs to as a public proof function, named after
what it states.

## What is trusted

The library calls `lopdf`, `regex`, `blake3`, `chrono` and a few functions of the
standard library. Each call stands in a small function marked `external_body`,
whose doc comment says what is claimed of it. Everything else is proved.

## Layout

    src/scan.rs      which files are looked at, fingerprints, duplicates
    src/extract.rs   metadata and text of a document
    src/brain/       the understanding layer: prompts, grammars, rules
    src/systems.rs   one name for each game system
    src/cache.rs     digests, by fingerprint
    src/pipeline.rs  from descriptions to a plan
    src/naming.rs    from titles to safe paths
    src/apply.rs     carrying out a plan, and reversing a run
    src/metadata.rs  what is written into a PDF's Info dictionary
    src/outline.rs   headings by type size, and the bookmark tree
    src/chapters.rs  building chapter indexes, document by document
    src/enrich.rs    writing what is known into filed documents anew
    src/pdf.rs       PDF documents, as far as they are read and changed
    src/report.rs    the plan in words
    src/cli.rs       what the commands decide and say
    src/config.rs    settings and their defaults
    src/types.rs     the data that passes between the stages
    src/float.rs     numbers with a floating point, as bit patterns
    src/text.rs, number.rs, natural.rs, order.rs, paths.rs, table.rs
                     characters, numbers as text, natural numbers of any size,
                     sorting, paths and tables

Confidences, ratios and type sizes are numbers of single precision. The library
holds them as their bit patterns and reckons with them exactly, each result rounded
to the nearest number; the program turns them into numbers at its edge.
