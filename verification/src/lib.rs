//! The part of a desktop companion that reads aloud: what it says is cut into
//! pieces that can be spoken, spoken by one of two engines, and the second of
//! them is installed, updated and looked after here.
//!
//! Everything that decides stands in this library; files, processes and the
//! network are handled around it, and hand their results in as plain values.
pub mod text;
pub mod doubles;
pub mod names;
pub mod paths;
pub mod json;
pub mod preprocess;
pub mod reader;
pub mod script;
pub mod redact;
pub mod irodori;
pub mod child_process;
pub mod sidecar;
pub mod voice_ref;
pub mod voicevox;
pub mod gpu;
pub mod download;
pub mod pins;
pub mod status;
pub mod versions;
pub mod packages;
pub mod pip;
pub mod install;
pub mod busy;
pub mod gate;
pub mod plan;
pub mod update;
pub mod window;
