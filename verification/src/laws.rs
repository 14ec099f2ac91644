//! What the operations are for: how their results relate to what they are given,
//! in terms of that alone.

pub mod commands;
pub mod curl;
pub mod json;
pub mod messages;
pub mod models;
pub mod pluely;
pub mod provider;
pub mod secrets;
pub mod service;
pub mod stream;
pub mod template;
pub mod text;
