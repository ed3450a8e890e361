//! RBMEM: structured, temporal, graph-aware memory documents for agents.
pub mod text;
pub mod time;
pub mod version;
pub mod json;
pub mod document;
pub mod writer;
pub mod scalar;
pub mod body;
pub mod scan;
pub mod parser;
pub mod sat;
pub mod words;
pub mod rules;
pub mod planner;
pub mod problem;
pub mod plan;
pub mod steps;
pub mod record;
pub mod contexts;
pub mod sorted;
pub mod index;
pub mod infer;
pub mod resolve;
pub mod compact;
pub mod graph;
pub mod markdown;
pub mod sync;
pub mod diff;
pub mod query;
pub mod pack;
pub mod crypto;
pub mod hermes;
pub mod commands;
pub mod export;
pub mod report;
pub mod tree;
pub mod pgraph;
pub mod solver_text;
pub mod readback;
pub mod plan_json;
pub mod snapshot;
