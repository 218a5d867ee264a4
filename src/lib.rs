//! Front half of a tiny browser: a character cursor, an HTML tokenizer
//! built on it, and the plain-text HTTP structures around a fetch.
use vstd::prelude::*;

pub mod text;
pub mod consumer;
pub mod html_parser;
pub mod render;
pub mod url;
pub mod request;
pub mod response;
pub mod client;

verus! {

} // verus!
