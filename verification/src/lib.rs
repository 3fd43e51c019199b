//! A small file-sharing service: uploads are stored under randomised names,
//! wrapped in a retention header and encrypted with a streaming AEAD.
//! This crate holds the service's verified core: path sanitising, the
//! storage formats and the decisions the request handlers make.
pub mod endpoint;
pub mod storage;
pub mod path_text;
pub mod totp;
pub mod args;
pub mod config;
pub mod gc;
