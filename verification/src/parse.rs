//! The two layers of parsing: `l1` builds a tree of nodes addressed by
//! offsets into the input, `l2` re-tiles that tree into owned text spans.

pub mod l1;
pub mod l2;
pub mod wf;
