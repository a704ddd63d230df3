//! A JSON front end in two passes: `scanner::scan` turns a text into tokens,
//! and `parser::parse` reads one value from those tokens. Both are specified
//! by spec functions over sequences (`scan_text`, `value_at`) and proved to
//! follow them; `render` shows that parsing inverts writing a value out.

pub mod parser;
pub mod render;
pub mod scanner;
pub mod value;
