//! A schema-driven command-line argument parser.
//!
//! A [`Shape`](shape::Shape) describes a data layout (records of named
//! fields, single-value wrappers, parameterless markers, and closed sets of
//! alternatives).  From that description the library derives flag names,
//! parses a token list into a [`Value`](shape::Value), and renders usage and
//! help text, all under verified contracts.

pub mod errors;
pub mod help;
pub mod laws;
pub mod naming;
pub mod num;
pub mod parse;
pub mod render;
pub mod scan;
pub mod shape;
pub mod strutil;

pub use errors::Error;
pub use errors::error_message;
pub use help::help;
pub use help::help_message;
pub use help::tiny_help;
pub use help::usage;
pub use naming::join_prefix;
pub use naming::to_flag_name;
pub use naming::variant_to_flag_name;
pub use parse::contains_help;
pub use parse::parse_from;
pub use parse::parse_internal;
pub use render::render_tokens;
pub use shape::Field;
pub use shape::IntKind;
pub use shape::Shape;
pub use shape::Value;
pub use shape::requires_input;
