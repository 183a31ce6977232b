//! A form-transition engine for multi-device dataflow graphs.
//!
//! The library ingests a list of operator definitions, orders them
//! topologically, and compiles each operator into one replica per device of
//! its assigned form (full replication or axis-0 partition).  Mismatched
//! forms along an edge are reconciled by auxiliary operators: broadcast,
//! split, concatenate, resplit, sum aggregation, NCCL all-reduce and ring
//! all-reduce.
#![verifier::loop_isolation(false)]

pub mod names;
pub mod form;
pub mod attr;
pub mod tensor;
pub mod graph;
pub mod node;
pub mod transition;
