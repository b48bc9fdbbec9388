//! ShardVault: an append-only, erasure-coded, replicated object store.

pub mod block;
pub mod census;
pub mod codec;
pub mod convergence;
pub mod coverage;
pub mod durability;
pub mod error;
pub mod fault;
pub mod footprint;
pub mod gf;
pub mod guarantees;
pub mod history;
pub mod layout;
pub mod leadership;
pub mod linalg;
pub mod matrix;
pub mod node;
pub mod ordered;
pub mod protocol;
pub mod quorum;
pub mod recovery;
pub mod replay;
pub mod replica;
pub mod residue;
pub mod rollup;
pub mod rs;
pub mod segment;
pub mod session;
pub mod showing;
pub mod sorting;
pub mod state;
pub mod steps;
pub mod stream;
pub mod stripe;
pub mod table;
pub mod text;
pub mod values;
pub mod visible;
pub mod wal;
