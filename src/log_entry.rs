//! The content of a log entry: a message, or the start or end of a group.

use vstd::prelude::*;

verus! {

/// Content of a log entry. Can either contain a simple message, or grouping
/// information.
#[derive(Debug)]
pub enum Content {
    Message(String),
    GroupBegin(GroupBegin),
    GroupEnd,
}

/// `Content::GroupBegin` representation.
#[derive(Debug)]
pub struct GroupBegin {
    pub collapsed: bool,
    pub message: String,
}

impl Content {
    /// Constructor.
    pub fn group_begin(collapsed: bool, message: String) -> (r: Self)
        ensures
            r == Content::GroupBegin(GroupBegin { collapsed, message }),
    {
        Content::GroupBegin(GroupBegin { collapsed, message })
    }

    /// Message getter. Returns `None` for the end of a group.
    pub fn message(&self) -> (r: Option<&str>)
        ensures
            match self {
                Content::Message(msg) => r is Some && r.unwrap()@ == msg@,
                Content::GroupBegin(t) => r is Some && r.unwrap()@ == t.message@,
                Content::GroupEnd => r is None,
            },
    {
        match self {
            Content::Message(msg) => Some(msg.as_str()),
            Content::GroupBegin(t) => Some(t.message.as_str()),
            Content::GroupEnd => None,
        }
    }
}

} // verus!
