# zhtw_mcp

Verified terminology post-processing for a zh-TW prose linter, written in
Verus.

- `src/issue.rs` — scanner findings (`Issue`), severities, rule families,
  and their mathematical models.
- `src/text.rs` — byte-level substring search and string order on UTF-8.
- `src/excluded.rs` — excluded byte ranges.
- `src/order.rs` — the stable sort used for issue lists, with its laws
  (sorted, a permutation, stable, and the unique such order).
- `src/glossary.rs` — project glossary: proper-noun suppression and
  banned-term enforcement (`apply_glossary`), with its laws.
- `src/consistency.rs` — document-wide consistency report
  (`compute_consistency_report`), with its laws.
- `src/style_score.rs` — per-axis triage lists of contributing issues.
- `app/` — serde forms of the reports and the floating-point style
  scorecard.
