//! Template scaffolding engine: decoding and encoding of the marker format,
//! placeholder rendering, path safety and template listing.

pub mod context;
pub mod empty_dir_scanner;
pub mod file_scanner;
pub mod gen_template;
pub mod list_templates;
pub mod materialize;
pub mod path_guard;
pub mod render;
pub mod resolve;
pub mod round_trip;
pub mod template;
pub mod text;
