pub mod text;
pub mod sensitivity;
pub mod chat;
pub mod datetime;
pub mod whatsapp;
pub mod import_common;
pub mod mime;
pub mod gmail;
pub mod prompts;
pub mod stream;
pub mod records;
pub mod importers;
pub mod generators;
pub mod engine;
