//! A sharded-write engine for newline-delimited JSON logs: each record is keyed
//! by service, environment and calendar date, routed to a worker that owns the
//! shard, and recompressed into one gzip stream per shard under a bounded
//! budget of open files.

mod config;
mod encoders;
mod error;
mod file_pool;
mod key;
mod key_map;
mod lines;
mod partition;
mod router;
mod worker;

pub use config::{keyed_line, RunCfg};
pub use encoders::{ShardEncoders, LOW_WATER_MARK};
pub use error::{Error, ErrorKind, ReadError};
pub use file_pool::{FilePool, TakePlan};
pub use key::{CalendarDate, LineData, MsgKey, MsgKeyRaw};
pub use key_map::KeyMap;
pub use lines::{LineSource, LineSplitter, NEWLINE};
pub use partition::get_even_partition;
pub use router::Router;
pub use worker::{Worker, WriteJob};
