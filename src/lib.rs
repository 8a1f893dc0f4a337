//! Statistical chunking of text: adaptive cut selection over a rolling
//! similarity signal, token-budgeted chunk assembly, and a batch driver that
//! carries the unfinished chunk across batch boundaries.

pub mod assemble;
pub mod boundary;
pub mod config;
pub mod span;
pub mod threshold;
pub mod chunker;
pub mod text;
pub mod run;
pub mod tokens;
