//! A single node of a topology-restricted anti-entropy broadcast protocol,
//! stated and proved as a state machine over plain values.
pub mod value_set;
pub mod node;
pub mod guarantees;
pub mod unique_id;
pub mod cluster;
