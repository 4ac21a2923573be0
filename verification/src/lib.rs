//! Ductile: the verified core of a declarative pipeline engine.
#![allow(unused_imports)]

pub mod ast;
pub mod block_laws;
pub mod body;
pub mod body_laws;
pub mod check_laws;
pub mod choice_laws;
pub mod cli;
pub mod cli_laws;
pub mod condition;
pub mod condition_laws;
pub mod config;
pub mod config_laws;
pub mod critical;
pub mod draft_laws;
pub mod dslresult;
pub mod edge_laws;
pub mod egraph;
pub mod egraph_laws;
pub mod errflow;
pub mod error_laws;
pub mod explore;
pub mod explore_laws;
pub mod fault_laws;
pub mod flow;
pub mod flow_laws;
pub mod fuse;
pub mod fuse_laws;
pub mod grow;
pub mod grow_laws;
pub mod harvest;
pub mod harvest_laws;
pub mod hyper;
pub mod hyper_arg_laws;
pub mod hyper_args;
pub mod hyper_build_laws;
pub mod hyper_check;
pub mod hyper_emit;
pub mod hyper_graph;
pub mod hyper_key;
pub mod hyper_key_laws;
pub mod hyper_laws;
pub mod hyper_nodes;
pub mod hyper_parse;
pub mod hyper_project;
pub mod hyper_rank;
pub mod hyper_sig;
pub mod hyper_similar;
pub mod incident;
pub mod json;
pub mod json_laws;
pub mod jvalue;
pub mod merge_laws;
pub mod negotiate;
pub mod negotiate_laws;
pub mod node_laws;
pub mod order;
pub mod output_laws;
pub mod plan;
pub mod plan_laws;
pub mod policy;
pub mod ranking;
pub mod records;
pub mod records_laws;
pub mod report;
pub mod report_laws;
pub mod review;
pub mod run_laws;
pub mod said_laws;
pub mod schedule;
pub mod script;
pub mod script_card;
pub mod script_laws;
pub mod shape_laws;
pub mod sig_laws;
pub mod store_laws;
pub mod text;
pub mod text_laws;
pub mod time;
pub mod topo;
pub mod tree;
pub mod tree_laws;
pub mod tries;
pub mod unionfind;
pub mod verdict_laws;
pub mod word_laws;
