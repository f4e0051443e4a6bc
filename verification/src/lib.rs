//! Client-side protocol engine for a line-oriented, prompt-delimited
//! request/response protocol spoken by an ELM327-style automotive diagnostic
//! adapter over a serial byte stream.
//!
//! The crate holds the verified core: the framing state machine that splits a
//! byte stream into response lines and detects end-of-response (`reader`), the
//! command framing (`writer`), the retry and reconnect policies (`session`),
//! and the fixed-width binary frame decoder (`packet`). Opening and driving
//! the actual serial link is left to the embedding program.

pub mod error;
pub mod packet;
pub mod reader;
pub mod session;
pub mod writer;
