//! Analytics and connection-resilience core for a publish/subscribe topic
//! monitor: a topic index, a bounded message log, traffic statistics, metric
//! series, device health, latency and jitter, schema drift, and the reconnect
//! policy, each stated and proved against a model of its data.

pub mod clock;
pub mod keyed;
pub mod text;
pub mod number;
pub mod wildcard;
pub mod json;
pub mod message;
pub mod view_state;
pub mod config;
pub mod persistence;
pub mod resilience;
pub mod topic_tree;
pub mod message_buffer;
pub mod stats;
pub mod metric_tracker;
pub mod device_tracker;
pub mod latency_tracker;
pub mod schema_tracker;
pub mod dispatcher;
