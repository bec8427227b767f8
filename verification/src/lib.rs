//! Creation and interpretation of ANSI terminal escape sequences.
//!
//! The protocol model ([`AnsiEscape`] and its component enums) is a closed
//! vocabulary of the escape codes this library understands.  [`AnsiCreator`]
//! maps each value to its canonical byte sequence; [`AnsiParser`] scans
//! arbitrary text, strips every escape sequence, and reconstructs which
//! styling applied to which byte ranges of the cleaned text.

pub mod ansi_creator;
pub mod ansi_interpreter;
pub mod ansi_types;
pub mod attr_set;
pub mod decimal;
pub mod decode;
pub mod laws;
pub mod text;

pub use ansi_creator::AnsiCreator;
pub use ansi_creator::AnsiEnvironment;
pub use ansi_interpreter::parse_ansi_annotated;
pub use ansi_interpreter::AnsiParseResult;
pub use ansi_interpreter::AnsiParser;
pub use ansi_interpreter::AnsiPoint;
pub use ansi_interpreter::AnsiSpan;
pub use ansi_types::AnsiEscape;
pub use ansi_types::Color;
pub use ansi_types::CursorMove;
pub use ansi_types::DeviceControl;
pub use ansi_types::Erase;
pub use ansi_types::EraseMode;
pub use ansi_types::SgrAttribute;
