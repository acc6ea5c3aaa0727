//! The rules of a small chat server that speaks a bare-bones form of HTTP:
//! how a request is read, which file answers it and under which content
//! type, how submitted text enters the chat log, and how a response is put
//! together.

pub mod chat;
pub mod content;
pub mod method;
pub mod request;
pub mod response;
pub mod text;
