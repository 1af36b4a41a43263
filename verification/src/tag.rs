//! Tags: names for commits, lightweight or annotated.
use vstd::prelude::*;
use crate::object::{Identity, Timestamp};

verus! {

/// The two kinds of tags.
#[derive(Debug, Clone, Copy, PartialEq, Eq, Structural)]
pub enum TagType {
    Lightweight,
    Annotated,
}

/// A tag.
#[derive(Debug)]
pub struct Tag {
    pub name: String,
    pub target_hash: String,
    pub tag_type: TagType,
    pub tagger: Option<Identity>,
    pub message: Option<String>,
    pub created_at: Timestamp,
}

impl Tag {
    /// A lightweight tag, made now: a bare name for a commit.
    pub fn lightweight(name: String, target_hash: String) -> (r: Tag)
        ensures
            r.name == name,
            r.target_hash == target_hash,
            r.tag_type == TagType::Lightweight,
            r.tagger is None,
            r.message is None,
    {
        Tag {
            name,
            target_hash,
            tag_type: TagType::Lightweight,
            tagger: None,
            message: None,
            created_at: Timestamp::now(),
        }
    }

    /// An annotated tag, made now, with a tagger and a message.
    pub fn annotated(name: String, target_hash: String, tagger: Identity, message: String) -> (r: Tag)
        ensures
            r.name == name,
            r.target_hash == target_hash,
            r.tag_type == TagType::Annotated,
            r.tagger == Some(tagger),
            r.message == Some(message),
    {
        Tag {
            name,
            target_hash,
            tag_type: TagType::Annotated,
            tagger: Some(tagger),
            message: Some(message),
            created_at: Timestamp::now(),
        }
    }
}

} // verus!
