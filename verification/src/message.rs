//! The message data model: one conversation event, its kind, and the
//! duplicate relation used by the merge engine.

use vstd::prelude::*;

verus! {

/// The closed set of message kinds a log can hold.
#[derive(Clone, Copy, PartialEq, Eq, Structural, Debug)]
pub enum MessageKind {
    Message,
    Action,
    Ad,
    Roll,
    Warn,
    Event,
}

/// One conversation event. Timestamps are seconds since the epoch; sender
/// and body are byte strings exactly as they appear in the log file.
#[derive(Debug)]
pub struct Message {
    pub ts: u32,
    pub sender: Vec<u8>,
    pub kind: MessageKind,
    pub body: Vec<u8>,
}

/// The mathematical content of a message: what the codec reads and writes.
pub struct MessageView {
    pub ts: u32,
    pub sender: Seq<u8>,
    pub kind: MessageKind,
    pub body: Seq<u8>,
}

impl View for Message {
    type V = MessageView;

    open spec fn view(&self) -> MessageView {
        MessageView { ts: self.ts, sender: self.sender@, kind: self.kind, body: self.body@ }
    }
}

/// Two messages are duplicates of one another when they agree on sender,
/// kind and body text; their timestamps play no part.
pub open spec fn dup_match(a: Message, b: Message) -> bool {
    a.sender@ == b.sender@ && a.kind == b.kind && a.body@ == b.body@
}

/// Byte-string equality, stated over the views.
pub fn bytes_eq(a: &Vec<u8>, b: &Vec<u8>) -> (r: bool)
    ensures
        r == (a@ == b@),
{
    let r = a == b;
    proof {
        if r {
            assert(a@ =~= b@);
        } else if a@ == b@ {
            assert(false);
        }
    }
    r
}

impl Message {
    /// The duplicate test the engine applies: same sender, same kind,
    /// same body text, irrespective of either timestamp.
    pub fn duplicates(&self, other: &Message) -> (r: bool)
        ensures
            r == dup_match(*self, *other),
    {
        bytes_eq(&self.sender, &other.sender) && self.kind == other.kind
            && bytes_eq(&self.body, &other.body)
    }
}

impl PartialEq for Message {
    fn eq(&self, other: &Message) -> (r: bool) {
        self.ts == other.ts && bytes_eq(&self.sender, &other.sender) && self.kind == other.kind
            && bytes_eq(&self.body, &other.body)
    }
}

impl vstd::std_specs::cmp::PartialEqSpecImpl for Message {
    open spec fn obeys_eq_spec() -> bool {
        true
    }

    open spec fn eq_spec(&self, other: &Message) -> bool {
        self.ts == other.ts && self.sender@ == other.sender@ && self.kind == other.kind
            && self.body@ == other.body@
    }
}

} // verus!
