use vstd::prelude::*;

pub mod args;
pub mod errors;
pub mod index;
pub mod join;
pub mod numtext;
pub mod ownership;
pub mod question_index;
pub mod record;
pub mod relabel;
pub mod revisions;
pub mod spans;
pub mod split;
pub mod textops;
pub mod timestamp;
pub mod votes;
pub mod xml;

verus! {

/// Integer identifier of a logical item, stable across dumps.
pub type PostId = i64;

} // verus!
