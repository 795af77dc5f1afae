//! Collecting application metrics and preparing them for CloudWatch.
//!
//! A [`Collector`] is told what is recorded, sums it up by period and by key, and gives it out, once
//! it is due, as a batch of metrics. [`put_requests`] splits a batch up into requests that keep to
//! the limits of CloudWatch.
pub mod aggregate;
pub mod batch;
pub mod chunk;
pub mod collector;
pub mod config;
pub mod double;
pub mod histogram;
pub mod laws;
pub mod metric;
pub mod samples;
pub mod shown;
pub mod time;
pub mod totals;

pub use aggregate::{Aggregate, Counter};
pub use chunk::{count_option_vec, metric_size, metrics_chunks, put_requests, PutMetricDataInput};
pub use collector::{Collector, CollectorError, Message};
pub use config::CollectorConfig;
pub use metric::{Datum, Dimension, Key, Label, MetricDatum, StatisticSet, Value};
pub use time::{time_key, Resolution, Timestamp};
