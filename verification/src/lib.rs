//! An ordered map from keys to values, kept as a skip list: a linked list of
//! the entries in key order, with shorter lists above it that let a search
//! skip ahead. The height of each node is drawn at random, so that searching,
//! inserting and removing take logarithmic time on average.
//!
//! The list and its operations are in [`skip_list`], the laws that hold of
//! them in [`laws`].

mod chain;
mod insertion;
pub mod laws;
pub mod level;
pub mod model;
mod nesting;
pub mod node;
pub mod order;
mod removal;
pub mod skip_list;
mod splice;
mod unlink;
