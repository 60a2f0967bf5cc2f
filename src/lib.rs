//! Region folding: finds `// region:` and `// endregion` comment markers in
//! source text and pairs them into nested byte ranges for code folding.
pub mod pairing;
pub mod pairing_lemmas;
pub mod markers;
pub mod fold;
pub mod report;
