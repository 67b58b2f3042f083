pub mod app;
pub mod app_icons;
pub mod config;
pub mod desktop;
pub mod engine;
pub mod guidance;
pub mod history;
pub mod json;
pub mod preferences;
pub mod taskbar;
pub mod text;
