//! A request-filtering core for a browser shell: block-list rules are parsed,
//! compiled into an index and matched against outgoing requests, with the
//! small navigation, workspace and theme models that surround it.

pub mod engine;
pub mod index;
pub mod matcher;
pub mod parser;
pub mod request;
pub mod roundtrip;
pub mod rule;
pub mod sanitizer;
pub mod serial;
pub mod shield;
pub mod spaces;
pub mod store;
pub mod text;
pub mod theme;
