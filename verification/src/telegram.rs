//! Telegram-facing logic: Mini App init-data validation and webhook planning.

pub mod fields;
pub mod invariance;
pub mod signing;
pub mod webapp;
pub mod webhook;
