//! Extraction of structured, position-grounded information from text.
//!
//! The crate holds the text-processing core of an extraction pipeline:
//! tokenization, sentence detection, chunking, alignment of extracted
//! text with its source, prompt templates and result exports.

pub mod text;
pub mod exceptions;
pub mod tokenizer;
pub mod json;
pub mod data;
pub mod chunking;
pub mod visualization;
pub mod markup;
pub mod templates;
pub mod schema;
pub mod providers;
pub mod prompting;
pub mod config;
pub mod io;
pub mod pipeline;
pub mod layers;
pub mod resolver;
pub mod alignment;
pub mod http_client;
pub mod inference;
pub mod annotation;
pub mod coercion;
pub mod patterns;
