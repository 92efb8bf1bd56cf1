//! A proxy in front of a chat gateway: it keeps what is known of each guild, and
//! hands it to the clients that connect, each within what it is authorized for.

pub mod auth;
pub mod cache;
pub mod cache_laws;
pub mod cache_model;
pub mod clock;
pub mod codec;
pub mod db_config;
pub mod event_laws;
pub mod guild;
pub mod index_laws;
pub mod items;
pub mod json;
pub mod plain;
pub mod session_id;
pub mod state;
pub mod string_map;
pub mod text;
pub mod wake;
