//! Parsing and validation of per-key keyboard lighting configurations.
//!
//! A configuration is a list of lines read three at a time: a keys line, an effect line
//! and a colors line. Each line is cut into tokens (`tokens`), each triple is checked and
//! turned into one effect per key (`fields`), later declarations replace earlier ones for
//! the same key and the result is listed in ascending order of key code (`aggregate`,
//! `parser`). `render` writes a result back as token lines.
pub mod aggregate;
pub mod fields;
pub mod parser;
pub mod render;
pub mod tokens;
pub mod types;

pub use parser::{parse, parse_config, parse_tokens};
pub use render::render_tokens;
pub use tokens::tokenize;
pub use types::{Color, EffectKind, KeyConfig, ParseError};
