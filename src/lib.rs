//! Ground-station telemetry pipeline: framing of the device's byte stream,
//! decoding of telemetry rows, history and export, and command uplink.
pub mod decimal;
pub mod text;
pub mod records;
pub mod telemetry;
pub mod frame;
pub mod export;
pub mod station;
pub mod playback;
