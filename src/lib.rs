//! Beat-script rhythm map model: score timelines, tempo changes, line layouts,
//! script text, song timing and difficulty rating, plus the small binary
//! encoders used when patching game files.

pub mod text;
pub mod score;
pub mod layout;
pub mod song;
pub mod rating;
pub mod exefs;
pub mod metadata;
pub mod acb;
pub mod osu;
