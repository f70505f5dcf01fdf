//! Spaced-repetition flash-card learning: review-state scheduling, the
//! two-stage session queue and the text format that persists the schedule.

pub mod card;
pub mod date;
pub mod learn;
pub mod prompt;
pub mod qa;
pub mod record;
pub mod review;
pub mod scheduler;
pub mod text;
pub mod word;
