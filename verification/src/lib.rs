//! Blurman: frosted glass behind the Windows apps you pick.
pub mod app;
pub mod autostart;
pub mod blocks;
pub mod cli;
pub mod colors;
pub mod fade;
pub mod files;
pub mod glass;
pub mod launch;
pub mod mapping;
pub mod rules;
pub mod single;
pub mod solid;
pub mod table;
pub mod target;
pub mod text;
pub mod tray;
pub mod worker;
