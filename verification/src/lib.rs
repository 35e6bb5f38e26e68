//! RGB lighting support for Armada devices: stick LEDs exposed through Linux's
//! multicolor LED interface, lit with a solid colour and brightness, or turned off.

pub mod attributes;
pub mod backend;
pub mod colour;
pub mod config;
mod natural;
pub mod targets;
pub mod text;

pub use backend::{LightingBackend, MulticolorBackend};
pub use config::LightingConfig;
