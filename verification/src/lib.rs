//! A bridge that re-announces KDE Connect notifications on the desktop.
//!
//! Phone applications often update a notification in place, and the desktop side
//! then shows no second popup. This library holds the logic of a bridge that
//! compares what each notification says with what it said before, and decides
//! when to show a popup and which sound to play. It also holds everything the
//! bridge needs to talk to the session bus: the D-Bus type system and its wire
//! format, the message framing, the authentication dialogue, and a small JSON
//! reader and writer for the configuration file.

pub mod bridge;
pub mod cli;
pub mod cli_options;
pub mod config;
pub mod config_laws;
pub mod dbus;
pub mod error;
pub mod json;
pub mod json_debug;
pub mod json_layout;
pub mod json_reading;
pub mod json_roundtrip;
pub mod json_writing;
pub mod magnitude;
pub mod notify;
pub mod notify_laws;
pub mod numeral;
pub mod numeral_laws;
pub mod table;
pub mod text;
pub mod text_laws;

pub use error::Error;
