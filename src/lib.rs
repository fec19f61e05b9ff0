//! Core of an observation-data platform for meteorological time series.
//!
//! - `kldata`: the text batch format, read and written, over the grammar in
//!   `text`, `numeric` and `obstime`; `batch_laws` proves that writing a
//!   batch that was read and reading it again gives the same batch.
//! - `params`: the parameter registry. `permissions`: the open-data policy.
//! - `ingest`: what becomes of each observation of a batch, and the reply.
//! - `store`: series labelling and value storage; `store_laws` proves that
//!   ingestion is idempotent and keeps one series per natural key.
//! - `query`: regular and irregular series, latest values, timeslices.
//! - `kvkafka`: the quality-controlled XML stream, flattened into flag rows.
//! - `partitions` and `seeder`: partition statements and synthetic series.

pub mod error;

pub mod text;
pub mod numeric;
pub mod obstime;

pub mod params;
pub mod permissions;

pub mod kldata;
pub mod batch_laws;

pub mod ingest;
pub mod store;
pub mod store_laws;

pub mod query;
pub mod kvkafka;

pub mod partitions;
pub mod seeder;
