//! Free shipping over a subtotal threshold.
//!
//! `decimal` reads money strings into exact minor units and writes them back,
//! `document` models a loosely typed input tree and walks key paths in it,
//! and `evaluator` finds the subtotal among candidate paths and compares it
//! with the threshold.

pub mod decimal;
pub mod document;
pub mod evaluator;
