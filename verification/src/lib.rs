//! Verified core of a real-time oscilloscope: the sample map, the UDP
//! packet format, the decimating compressor used for plotting and the
//! small pieces of state that the user interface drives.

pub mod rtmap;
pub mod compressor;
pub mod udp;
pub mod app;
pub mod app_plot;
pub mod settings;
pub mod settings_write;
