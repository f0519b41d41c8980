//! A minimal scheduled-posting bot library.
//!
//! The library holds the verified core of the bot: the persisted [`state::State`]
//! record, its on-disk encoding with a proved round trip, a redacted textual
//! rendering that never shows the credential, and the decision logic of a
//! single run (register, post the next line, or report that the content is
//! exhausted). File access and the network client stay outside the library.

/// Decimal digit strings: encoding, parsing, and their algebra.
pub mod digits;

/// The persisted state record and its redacted rendering.
pub mod state;

/// The on-disk encoding of the state record.
pub mod codec;

/// Splitting the toots file into candidate lines.
pub mod lines;

/// The decision logic of one bot run.
pub mod run;
