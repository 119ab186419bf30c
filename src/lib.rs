//! Binding of wire-protocol parameter values into prepared SQL statements.
//!
//! A statement tree is held as its pre-order sequence of nodes. Binding
//! leaves every node in place and turns each placeholder into a literal, so
//! the shape of the tree is kept exactly.
pub mod value;
pub mod statement;
pub mod laws;
pub mod sql;
