//! Timestamps and caption blocks of VTT caption files.

pub mod caption;
pub mod error;
pub mod grammar;
pub mod text;
pub mod time;
pub mod vtt;

pub use caption::{CaptionBlock, CaptionBlockError};
pub use time::{NegativeSimpleTime, SimpleTime};
pub use error::VttParserError;
pub use vtt::VttParser;
