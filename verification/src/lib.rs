//! Verified core of the TingFM radio player and its user-script host.
pub mod gm_api;
pub mod headers;
pub mod json;
pub mod line_endings;
pub mod matcher;
pub mod models;
pub mod parser;
pub mod radio;
pub mod storage;
pub mod stream_proxy;
pub mod text;
pub mod url_codec;
