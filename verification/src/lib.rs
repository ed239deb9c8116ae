//! Verified core of a translation tool for FTB Quests task books.

mod error_impls;

pub mod error;
pub mod text;
pub mod digest;
pub mod json;
pub mod snbt;
pub mod chapters;
pub mod cmp;
pub mod readback;
pub mod task_state;
pub mod providers;
pub mod retry;
pub mod logging;
pub mod glossary;
pub mod protection;
pub mod rich_text;
pub mod entries;
pub mod translation;
pub mod writeback;
pub mod apply_order;
pub mod scan;
pub mod review;
pub mod storage;
pub mod commands;
