//! A virtual DOM: a user interface is described as an immutable tree of
//! elements and text, and the differ computes the patches that turn the
//! tree shown before into the tree to show now. A backend carries the
//! patches out on its live widgets; it finds the target of each patch by
//! the place the target has in the pre-order walk of the old tree.
//!
//! - [`node`], [`value`], [`builder`], [`slots`], [`attribute`]: trees and how to build them
//! - [`attr_diff`]: the attribute differ
//! - [`matching`], [`pairing`]: which old child goes with which new child
//! - [`diff`]: the tree differ
//! - [`patch`]: the patches
//! - [`apply`]: patches applied to a tree
//! - [`model`], [`walk`], [`content`]: what all of these mean, in mathematical terms
//! - [`laws`], [`order`], [`convergence`]: what holds of the differ on all trees
pub mod model;
pub mod walk;
pub mod value;
pub mod node;
pub mod slots;
pub mod builder;
pub mod attribute;
pub mod attr_diff;
pub mod matching;
pub mod pairing;
pub mod patch;
pub mod diff;
pub mod content;
pub mod apply;
pub mod laws;
pub mod order;
pub mod convergence;
