//! Verified core of a proxy that serves Anthropic-style messages from other providers.
//!
//! - [`sse`] frames an upstream response body into server-sent events.
//! - [`json`] reads and builds JSON, with `serde_json` underneath.
//! - [`chunk`] decodes one event of a streamed chat completion.
//! - [`reducer`] turns the decoded chunks into content-block events.
//! - [`accumulate`] collects those events into one message.
//! - [`manager`] decides when OAuth tokens are reused, reloaded, rotated or dropped.
//!
//! What holds of all inputs is proved beside it: of the framing in [`sse`] itself, of decoding in
//! [`json_laws`] and [`decode_laws`], of the events in [`reducer_laws`] and [`event_laws`], of the
//! message in [`accumulate_laws`], [`message_laws`] and [`cut_laws`], and of the tokens in
//! [`manager_laws`] and [`auth_laws`].
pub mod text;
pub mod json;
pub mod json_laws;
pub mod sse;
pub mod chunk;
pub mod decode_laws;
pub mod reducer;
pub mod reducer_laws;
pub mod event_laws;
pub mod accumulate;
pub mod accumulate_laws;
pub mod message_laws;
pub mod cut_laws;
pub mod manager;
pub mod manager_laws;
pub mod auth_laws;
