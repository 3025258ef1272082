//! The metadata record kept beside each stored vector, and its
//! mathematical model.

use vstd::prelude::*;

verus! {

/// The abstract value of a [`ReviewMeta`]: the id together with the
/// title and body as character sequences.
pub ghost struct RecordView {
    pub id: nat,
    pub title: Seq<char>,
    pub body: Seq<char>,
}

/// Metadata of one stored record.  `id` is the record's dense,
/// zero-based position in the store's offset table.
#[derive(Clone, Debug)]
pub struct ReviewMeta {
    pub id: usize,
    pub title: String,
    pub body: String,
}

impl View for ReviewMeta {
    type V = RecordView;

    open spec fn view(&self) -> RecordView {
        RecordView { id: self.id as nat, title: self.title@, body: self.body@ }
    }
}

} // verus!
