//! Verified core of the Eva music backend: Telegram Mini App init-data
//! validation, webhook planning, configuration, and the desktop library model.

pub mod ascii_case;
pub mod config;
pub mod db;
pub mod library;
pub mod number;
pub mod order;
pub mod outside;
pub mod telegram;
pub mod text;
