//! A serverless WebAssembly cluster: routing, membership, admission, caching
//! and sandbox policy, each as a small verified state machine.
pub mod answer;
pub mod auth;
pub mod bench;
pub mod boot;
pub mod cache;
pub mod clock;
pub mod cluster;
pub mod control;
pub mod egress;
pub mod engine;
pub mod exec_pool;
pub mod gateway;
pub mod header;
pub mod heartbeat;
pub mod host;
pub mod idempotency;
pub mod kv;
pub mod mcp;
pub mod membership;
pub mod proto;
pub mod publish;
pub mod ratelimit;
pub mod registry;
pub mod ring;
pub mod script;
pub mod table;
pub mod tally;
pub mod text;
pub mod tls;
pub mod trace;
pub mod wizer;
pub mod worker;
