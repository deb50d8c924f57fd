//! What holds of every walk.
pub mod answers;
pub mod composition;
pub mod coverage;
pub mod halting;
pub mod handlers;
pub mod hooks;
pub mod plan;
pub mod protocol;
pub mod regions;
pub mod snapshots;
pub mod sound;
pub mod tables;
pub mod texts;
