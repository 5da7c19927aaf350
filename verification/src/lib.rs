//! A DNS filtering proxy core: wire codec, blocking tree, TTL-aware cache,
//! instrumentation ring and the decisions of the query pipeline, with every
//! function's behaviour stated as a contract and proved.

pub mod cache;
pub mod config;
pub mod filter;
pub mod filter_statistics;
pub mod instrumentation;
pub mod listener;
pub mod message;
pub mod name;
pub mod name_wire;
pub mod network;
pub mod question;
pub mod resolver_manager;
pub mod resource_record;
pub mod responder;
pub mod ring_buffer;
pub mod tree;
pub mod web;
pub mod wire;
