# keyword_extraction_pipeline

Deterministic keyword and identifier extraction from documents (plain text, email,
Word, PowerPoint, Excel, PDF), with the text handling proved in Verus.

## Layout

- `src/` — the verified library.
  - `parse/` — format sniffing and the per-format extractors. The outside readers
    (zip, quick-xml, calamine, mail-parser, pdf_oxide) are called through small trusted
    wrappers; which parts are read, in what order, and how their text is assembled is
    verified.
  - `canonical.rs` — canonicalisation (newlines, email quote stripping, NFKC with hyphen
    folding, dehyphenation, whitespace collapse), each step against a spec function.
  - `fixpoint.rs` — canonical text is a fixed point of canonicalisation.
  - `tokenize.rs`, `text.rs` — tokens, sentences and clauses as byte spans, and the
    char/byte bookkeeping behind every offset.
  - `stages/` — the three candidate stages: identifier shape, in-text definitions
    (`Long Form (LF)`), and topical phrases; each with a proof that every reported offset
    resolves in the canonical text.
  - `resources.rs`, `config.rs`, `version.rs`, `digest.rs` — word lists, lemmas, the
    configuration feed and the pipeline version stamp (blake3), with proofs that the
    stamp tells configurations and all three resource lists apart. This build embeds
    the stopword list only: the embedded frequency-ranked wordlist and lemma list are
    empty (`DEFAULT_WORDLIST`, `DEFAULT_LEMMAS`), so until lists are supplied through
    `Resources::from_lists` no word counts as ordinary English and no irregular form
    reduces.
  - `pipeline.rs`, `prose.rs`, `language.rs`, `render.rs`, `serde_hex.rs`, `tally.rs` —
    the document flow up to scoring, the prose heuristic's counts and rulings, language
    detection (lingua), output formatting, the hex encoding of digests, and a run's
    status counts, trailer and exit status.
- `app/` — the `kep` command line: file and directory I/O, serde/clap types, and the
  floating-point scoring (YAKE-style topical scores, shape feature weights, prose ratios,
  language confidence), which stays outside the verified library.
- `tests/` — the library's tests, run against the real outside crates.
