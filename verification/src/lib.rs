//! A local-first graph of typed objects and edges: an append-only operation
//! log is the durable record, and a relational projection is rebuilt from it
//! by replay.

pub mod clock;
pub mod db;
pub mod engine;
pub mod ids;
pub mod json;
pub mod laws;
pub mod log;
pub mod model;
pub mod order;
pub mod replay;
pub mod seqs;
pub mod text;
pub mod validate;

pub use db::Database;
pub use engine::{apply_op, replay_logs, Error};
pub use log::{append_op, get_data_dir, read_all_ops, EventLog};
pub use model::{EdgeV1, Kind, ObjectV1, Op};
pub use validate::validate_op;
