//! The interactive inspector's state: the dotted tag path of the message
//! currently being walked.
//!
//! A renderer prefixes each nested message's fields with the path of tags
//! leading to it (`[3.7]` meaning tag 7 inside tag 3).  The path is kept
//! here as explicit state with a proved stack discipline, so a renderer
//! built on it cannot desynchronize the path from the walk.

use vstd::prelude::*;
use crate::models::{spec_zigzag, zigzag64};

verus! {

/// The tag path into the message currently being walked.
#[derive(Default)]
pub struct Inspector {
    path: Vec<u32>,
}

impl View for Inspector {
    type V = Seq<u32>;

    closed spec fn view(&self) -> Seq<u32> {
        self.path@
    }
}

impl Inspector {
    /// An inspector at the top level: the empty path.
    pub fn new() -> (r: Inspector)
        ensures
            r@ == Seq::<u32>::empty(),
    {
        Inspector { path: Vec::new() }
    }

    /// The zig-zag reading of a varint, as the inspector prints it beside
    /// the unsigned reading.
    pub fn from_uint64(value: u64) -> (r: i64)
        ensures
            r as int == spec_zigzag(value),
    {
        zigzag64(value)
    }

    /// Entering the nested message of `tag` pushes it onto the path.
    pub fn start_message(&mut self, tag: u32)
        ensures
            final(self)@ == old(self)@.push(tag),
    {
        self.path.push(tag);
    }

    /// Leaving a nested message pops the innermost tag; at the top level
    /// the path stays empty.
    pub fn end_message(&mut self)
        ensures
            final(self)@ == if old(self)@.len() == 0 {
                old(self)@
            } else {
                old(self)@.drop_last()
            },
    {
        let popped: Option<u32> = self.path.pop();
    }

    /// The current dotted path, outermost tag first.
    pub fn path(&self) -> (r: &Vec<u32>)
        ensures
            r@ == self@,
    {
        &self.path
    }
}

} // verus!
