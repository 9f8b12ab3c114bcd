//! Terminal presentation logic: layout configuration and its resolution, the compiled-in
//! palette, and ANSI-aware text handling (sanitising, SGR spans, width-aware clipping and
//! wrapping).

pub mod text;
pub mod csi;
pub mod measure;
pub mod wrap;
pub mod sgr;
pub mod sanitize;
pub mod jsonc;
pub mod caps;
pub mod layout;
pub mod catalog;
pub mod session;
pub mod theme;
