//! A Qobuz player's streaming and control logic: where a seek lands in a
//! segmented FLAC stream, what each download pass sends from memory, partial
//! data or the network, how decrypted samples are streamed past a skipped
//! prefix, when the cache file is complete, and the small decisions of the
//! MQTT bridge and the GTK pages.

pub mod error;
pub mod frames;
pub mod models;
pub mod mqtt;
pub mod params;
pub mod reader;
pub mod segments;
pub mod store;
pub mod text;
pub mod ui;
