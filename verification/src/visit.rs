//! The streaming alternative to the tree model: a visitor that receives each
//! field as the buffer is walked, for consumers that want immediate-mode
//! output instead of a materialized tree.

use vstd::prelude::*;

verus! {

/// Receives the fields of a message in encounter order.
///
/// `string` and `bytes` may refuse (a sink that renders them can fail);
/// refusal stops the walk.  `start_message`/`end_message` bracket a nested
/// message, `start_group`/`end_group` merely mark the deprecated group
/// wire types.
pub trait Visit {
    fn varint(&mut self, tag: u32, value: u64);

    fn fixed32(&mut self, tag: u32, value: u32);

    fn fixed64(&mut self, tag: u32, value: u64);

    fn string(&mut self, tag: u32, value: &str) -> Result<(), ()>;

    fn bytes(&mut self, tag: u32, value: &[u8]) -> Result<(), ()>;

    fn start_group(&mut self, tag: u32);

    fn end_group(&mut self, tag: u32);

    fn start_message(&mut self, tag: u32);

    fn end_message(&mut self, tag: u32);
}

} // verus!
