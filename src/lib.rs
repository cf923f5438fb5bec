//! Re-encode `SubRip` subtitle files and shift their timestamps.
pub mod format;
pub mod laws;
pub mod subrip;
