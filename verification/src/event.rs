//! The change event carried from the store's publish mechanism to every
//! subscriber: one notified row mutation.

use vstd::prelude::*;

verus! {

/// The kind of row mutation a change event reports.
#[derive(Clone, Copy, PartialEq, Eq, Structural, Debug)]
pub enum Action {
    INSERT,
    UPDATE,
    DELETE,
}

/// One notified row mutation, as read off the wire.
///
/// `record` and `old` carry the store's own JSON encoding of the row state as
/// opaque text; this subsystem never re-parses them into domain types.
#[derive(Clone, Debug)]
pub struct Payload {
    pub timestamp: String,
    pub table: String,
    pub action: Action,
    pub id: String,
    pub record: String,
    pub old: Option<String>,
}

/// The mathematical value of a [`Payload`]: every text field as its character
/// sequence.
#[verifier::ext_equal]
pub struct PayloadView {
    pub timestamp: Seq<char>,
    pub table: Seq<char>,
    pub action: Action,
    pub id: Seq<char>,
    pub record: Seq<char>,
    pub old: Option<Seq<char>>,
}

impl View for Payload {
    type V = PayloadView;

    open spec fn view(&self) -> PayloadView {
        PayloadView {
            timestamp: self.timestamp@,
            table: self.table@,
            action: self.action,
            id: self.id@,
            record: self.record@,
            old: match self.old {
                Some(s) => Some(s@),
                None => None,
            },
        }
    }
}

} // verus!
