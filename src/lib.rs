//! Parsers and aggregators for the status reports of a Hyprland desktop:
//! audio mixer, network links, Wi-Fi scans, monitors and system facts.

pub mod text;
pub mod number;
pub mod audio;
pub mod display;
pub mod wifi;
pub mod network;
pub mod sysinfo;
pub mod hyprconf;
pub mod prefs;
