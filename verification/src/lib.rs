//! Terminology post-processing for a zh-TW prose linter: glossary precedence
//! (proper-noun suppression and banned-term enforcement), document-wide
//! consistency reports, and per-axis triage lists of contributing issues.

pub mod issue;
pub mod text;
pub mod excluded;
pub mod order;
pub mod glossary;
pub mod consistency;
pub mod style_score;
