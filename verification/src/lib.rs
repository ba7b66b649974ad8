//! Line-delimited JSON-RPC bridge core: an envelope codec over a structured
//! value type, a correlation table for bridged calls that must be answered
//! by an external responder, a navigation store over an ordered sequence of
//! questions, and the request dispatcher that ties them together.

pub mod value;
pub mod codec;
pub mod table;
pub mod bridge;
pub mod session;
pub mod dispatch;
pub mod doc;
