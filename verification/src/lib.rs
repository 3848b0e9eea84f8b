//! A verified core for a small IRC spelling-correction bot.
//!
//! The library covers the logic of the bot: parsing raw IRC lines into
//! typed commands, formatting the registration and join lines, deciding
//! the outbound replies for each command, and the word-frequency spelling
//! corrector that proposes single-edit fixes for unknown words.
//! Transport I/O (sockets, file loading) stays outside the library.

pub mod dispatch;
pub mod parser;
pub mod session;
pub mod speller;
pub mod strutil;
