//! Core of a desktop assistant that talks to language-model providers.

pub mod activate;
pub mod api;
pub mod bytes;
pub mod call;
pub mod commands;
pub mod curl;
pub mod json;
pub mod json_text;
pub mod keychain;
pub mod laws;
pub mod llm;
pub mod messages;
pub mod migrations;
pub mod pluely;
pub mod provider;
pub mod schema;
pub mod secrets;
pub mod state;
pub mod stream;
pub mod string_map;
pub mod template;
pub mod text;
