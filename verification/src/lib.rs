//! The verified core of a memory for agents: memory records and their search, the
//! graph of facts behind them, a benchmark runner, and a case library that
//! documents are taken into, cut up, indexed and searched.

// Texts, values and orders.
pub mod text;
pub mod scan;
pub mod text_parts;
pub mod json;
pub mod order;

// Memory records.
pub mod error;
pub mod ids;
pub mod record;
pub mod api;
pub mod store;
pub mod manager;
pub mod ranking;
pub mod search;
pub mod retry;
pub mod embedding;

// The graph of facts.
pub mod graph_types;
pub mod graph_registry;
pub mod graph_extraction;
pub mod graph_clean;
pub mod graph_facts;
pub mod graph_claims;
pub mod graph_llm;
pub mod graph_runs;
pub mod graph_stages;
pub mod graph_cleaning;
pub mod graph_resolution;
pub mod graph_course;
pub mod graph_retrieval;
pub mod graph_bundle;
pub mod graph_context;
pub mod graph_finds;
pub mod graph_fusion;
pub mod graph_merge;

// The benchmark runner.
pub mod bench;
pub mod bench_run;
pub mod bench_search;
pub mod bench_course;

// The case library.
pub mod case_model;
pub mod case_config;
pub mod case_parser;
pub mod case_nodes;
pub mod case_chunker;
pub mod case_cuts;
pub mod case_terms;
pub mod case_overlap;
pub mod case_summary;
pub mod case_profile;
pub mod case_reading;
pub mod case_picks;
pub mod case_store;
pub mod case_tables;
pub mod notes;
pub mod case_retrieval;
pub mod case_results;
pub mod case_lines;
pub mod case_llm;
pub mod case_service;
pub mod case_course;
