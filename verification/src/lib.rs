//! Captions for recorded videos.

pub mod audio;
pub mod budget;
pub mod cache;
pub mod calendar;
pub mod captions;
pub mod double;
pub mod duration;
pub mod listing;
pub mod natural;
pub mod number;
pub mod order;
pub mod recording;
pub mod rounding;
pub mod segments;
pub mod span;
pub mod srt;
pub mod text;
pub mod timestamp;
pub mod videos;
