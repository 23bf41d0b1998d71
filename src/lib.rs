use vstd::prelude::*;

use std::collections::HashMap;

pub mod bytes;
pub mod laws;
pub mod object;
pub mod parser;
pub mod scalar;
pub mod text;

verus! {

broadcast use vstd::std_specs::hash::group_hash_axioms;

/// Where an object lives in the document, under which generation, and whether it is in use.
#[derive(Debug, Clone, Copy, PartialEq, Eq, Structural)]
pub struct XRefEntry {
    pub offset: u32,
    pub generation: u32,
    pub in_use: bool,
}

/// The cross-reference table: from object number to its entry.
pub struct XRef {
    table: HashMap<u32, XRefEntry>,
}

impl View for XRef {
    type V = Map<u32, XRefEntry>;

    closed spec fn view(&self) -> Map<u32, XRefEntry> {
        self.table@
    }
}

/// The byte offset of an object that the table lists as in use.
pub open spec fn offset_in(xref: Map<u32, XRefEntry>, number: u32) -> Option<u32> {
    if xref.contains_key(number) && xref[number].in_use {
        Some(xref[number].offset)
    } else {
        None
    }
}

impl XRef {
    pub fn new() -> (x: XRef)
        ensures
            x@ == Map::<u32, XRefEntry>::empty(),
    {
        XRef { table: HashMap::new() }
    }

    /// Records the entry of object `number`, replacing any earlier one.
    pub fn add_entry(&mut self, number: u32, offset: u32, generation: u32, in_use: bool)
        ensures
            final(self)@ == old(self)@.insert(
                number,
                XRefEntry { offset: offset, generation: generation, in_use: in_use },
            ),
    {
        self.table.insert(number, XRefEntry { offset, generation, in_use });
    }

    /// The offset of object `number`, which must be listed and in use.
    pub fn get_offset(&self, number: u32) -> (r: u32)
        requires
            offset_in(self@, number) is Some,
        ensures
            offset_in(self@, number) == Some(r),
    {
        self.table.get(&number).unwrap().offset
    }

    /// The offset of object `number` when it is listed and in use; `None` otherwise.
    pub fn find_offset(&self, number: u32) -> (r: Option<u32>)
        ensures
            r == offset_in(self@, number),
    {
        match self.table.get(&number) {
            Some(entry) => {
                if entry.in_use {
                    Some(entry.offset)
                } else {
                    None
                }
            },
            None => None,
        }
    }
}

} // verus!
