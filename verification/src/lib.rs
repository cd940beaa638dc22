//! A layered tap/hold key-resolution engine for custom keyboards.
//!
//! Raw press/release/poll events come in; logical output actions come out.
//! Per-key behaviour is either a plain tap or a timed tap-vs-hold
//! disambiguation, and a layer stack remaps keys contextually. The engine
//! is purely reactive: elapsed hold time is a count of explicit `Poll`
//! events delivered by the caller, so the core holds no timers and reads
//! no clock.

pub mod config;
pub mod engine;
pub mod keyboard;
pub mod laws;
pub mod mapper;
pub mod monitor;
