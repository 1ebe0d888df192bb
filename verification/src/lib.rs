//! Hierarchical territory import library.
//!
//! Materializes a four-level administrative hierarchy (region, district,
//! administrative office, municipality) out of a flat tabular extract:
//! URL-safe slugs are derived from diacritic-bearing display names, repeated
//! parent records are collapsed onto one record per natural key, and parent
//! references are resolved into surrogate identifiers level by level.

pub mod entities;
pub mod import;
pub mod slug;
