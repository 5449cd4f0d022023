use std::ops::Range;

use vstd::prelude::*;
use vstd::string::StringSliceAdditionalSpecFns;
use vstd::utf8::encode_utf8;

use crate::ids::BufferId;

verus! {

/// One replacement made in a buffer: `old_text` at `range_start` became `new_text`.
#[derive(Debug)]
pub struct EditRecord {
    pub buffer_id: BufferId,
    pub range_start: usize,
    pub old_text: String,
    pub new_text: String,
}

/// The edits of one command, in the order they were made.
pub type EditTransaction = Vec<EditRecord>;

/// An edit record with its texts as UTF-8 bytes.
pub ghost struct RecordModel {
    pub buffer_id: BufferId,
    pub range_start: usize,
    pub old: Seq<u8>,
    pub new: Seq<u8>,
}

impl View for EditRecord {
    type V = RecordModel;

    open spec fn view(&self) -> RecordModel {
        RecordModel {
            buffer_id: self.buffer_id,
            range_start: self.range_start,
            old: encode_utf8(self.old_text@),
            new: encode_utf8(self.new_text@),
        }
    }
}

impl Clone for EditRecord {
    fn clone(&self) -> (r: Self)
        ensures
            r == *self,
    {
        EditRecord {
            buffer_id: self.buffer_id,
            range_start: self.range_start,
            old_text: self.old_text.clone(),
            new_text: self.new_text.clone(),
        }
    }
}

impl EditRecord {
    /// Where the new text stands after the edit: the range that undoing replaces.
    pub fn undo_range(&self) -> (r: Range<usize>)
        requires
            self.range_start + self@.new.len() <= usize::MAX,
        ensures
            r.start == self.range_start,
            r.end == self.range_start + self@.new.len(),
    {
        self.range_start..(self.range_start + self.new_text.as_str().len())
    }

    /// Where the old text stood before the edit: the range that redoing replaces.
    pub fn redo_range(&self) -> (r: Range<usize>)
        requires
            self.range_start + self@.old.len() <= usize::MAX,
        ensures
            r.start == self.range_start,
            r.end == self.range_start + self@.old.len(),
    {
        self.range_start..(self.range_start + self.old_text.as_str().len())
    }
}

/// A copy of a transaction.
pub fn clone_transaction(t: &EditTransaction) -> (r: EditTransaction)
    ensures
        r@ == t@,
{
    let mut out: Vec<EditRecord> = Vec::new();
    let mut i: usize = 0;
    while i < t.len()
        invariant
            i <= t.len(),
            out@ == t@.take(i as int),
        decreases t.len() - i,
    {
        out.push(t[i].clone());
        proof {
            assert(t@.take(i + 1) == t@.take(i as int).push(t@[i as int]));
        }
        i = i + 1;
    }
    proof {
        assert(t@.take(t.len() as int) == t@);
    }
    out
}

} // verus!
