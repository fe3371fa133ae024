//! Typed decisions about a state: questions, token rows, request plans, serving and training rules.

pub mod agent;
pub mod augment;
pub mod bench;
pub mod calibrate;
pub mod cli;
pub mod config;
pub mod convert;
pub mod data;
pub mod engine;
pub mod float;
pub mod hub;
pub mod json;
pub mod metrics;
pub mod model;
pub mod pipeline;
pub mod plan;
pub mod random;
pub mod sequence;
pub mod serve;
pub mod text;
pub mod tokenizer;
pub mod tournament;
pub mod train;
pub mod validate;
