//! The verified core of an operation-first API framework.
pub mod application;
pub mod arguments;
pub mod assembly;
pub mod blocking;
pub mod body;
pub mod cancellation;
pub mod canonical;
pub mod compatibility;
pub mod config;
pub mod contract;
pub mod database;
pub mod dependency;
pub mod deploy;
pub mod dispatch;
pub mod docs;
pub mod executable;
pub mod files;
pub mod framing;
pub mod generated;
pub mod graph;
pub mod headers;
pub mod introspection;
pub mod json;
pub mod markdown;
pub mod metadata;
pub mod middleware;
pub mod multipart;
pub mod multipart_stream;
pub mod operation;
pub mod order;
pub mod outcome;
pub mod outputs;
pub mod pipeline;
pub mod pool;
pub mod request;
pub mod response;
pub mod router;
pub mod schema;
pub mod template;
pub mod text;
pub mod uploads;
pub mod url;
pub mod wiring;
