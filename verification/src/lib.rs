pub mod text;
pub mod unicode;
pub mod order;
pub mod emoji;
pub mod path;
pub mod outside;
pub mod state;
pub mod message;
pub mod media;
pub mod event;
pub mod api;
pub mod config;
pub mod note;
pub mod poll;
