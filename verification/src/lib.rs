//! Core logic of the media server: roles, configuration validation,
//! permission rules and their evaluation.

pub mod util;
pub mod auth;
pub mod config;
pub mod text;
pub mod post;
pub mod perms;
pub mod secrets;
pub mod model;
