//! The decisions of the C82 routing policy between an Anthropic client and OpenRouter workers:
//! what is read from a request, what is sent to the chosen worker, when an attempt is repeated,
//! what the client gets back and what the log says of it.

pub mod alias;
pub mod dispatch;
pub mod framing;
pub mod history;
pub mod json;
pub mod laws;
pub mod number;
pub mod record;
pub mod render;
pub mod reply;
pub mod retry;
pub mod sse;
pub mod startup;
pub mod text;
pub mod turn;
pub mod wire;
