pub mod analyzer;
pub mod clock;
pub mod hook;
pub mod installer;
pub mod ipc;
pub mod json;
pub mod models;
pub mod service;
pub mod session;
pub mod sound;
pub mod state;
pub mod stats;
pub mod text;
