//! A deductive memory engine: facts, rules, provenance and a verified
//! evaluator.

pub mod agent;
pub mod amounts;
pub mod ast;
pub mod bignum;
pub mod builtins;
pub mod canonical;
pub mod clears;
pub mod confidence;
pub mod context;
pub mod decimal;
pub mod deep;
pub mod deep_folds;
pub mod demand;
pub mod engine;
pub mod env;
pub mod escape;
pub mod evaluate;
pub mod exact;
pub mod explain;
pub mod extract;
pub mod feed;
pub mod folds;
pub mod follow;
pub mod frame;
pub mod grounds;
pub mod history;
pub mod identity;
pub mod intact;
pub mod intern;
pub mod laid;
pub mod leftovers;
pub mod lexer;
pub mod lines;
pub mod message;
pub mod model;
pub mod name_map;
pub mod notation;
pub mod notes;
pub mod order;
pub mod parser;
pub mod perfect;
pub mod policy;
pub mod present;
pub mod products;
pub mod protocol;
pub mod query;
pub mod ranks;
pub mod quiet;
pub mod readings;
pub mod recompute;
pub mod refold;
pub mod relation;
pub mod reload;
pub mod renew;
pub mod restore;
pub mod rules;
pub mod runs;
pub mod scan;
pub mod scope;
pub mod script;
pub mod server;
pub mod slices;
pub mod snapshot;
pub mod solve;
pub mod sorted_set;
pub mod store;
pub mod stratify;
pub mod supposing;
pub mod syntax;
pub mod tally;
pub mod text;
pub mod tools;
pub mod trees;
pub mod turns;
pub mod unique;
pub mod upkeep;
pub mod value;
pub mod views;
pub mod windows;
