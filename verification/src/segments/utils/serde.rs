//! The sizes of what is stored.
use crate::payload::{bytes_content, bytes_len};
use crate::protocol::{Publish, PublishProperties};
use bytes::Bytes;
use vstd::prelude::*;

verus! {

/// A value that takes up room in a log.
pub trait Storage {
    spec fn spec_size(&self) -> nat;

    /// The number of bytes that the value counts for.
    fn size(&self) -> (size: usize)
        requires
            self.spec_size() <= usize::MAX,
        ensures
            size == self.spec_size(),
    ;
}

impl Storage for Bytes {
    open spec fn spec_size(&self) -> nat {
        bytes_content(*self).len()
    }

    fn size(&self) -> (size: usize) {
        bytes_len(self)
    }
}

impl Storage for Vec<u8> {
    open spec fn spec_size(&self) -> nat {
        self@.len()
    }

    fn size(&self) -> (size: usize) {
        self.len()
    }
}

/// What a publish counts for: its topic, its payload, and a fixed header.
pub open spec fn publish_size(publish: Publish) -> nat {
    4 + bytes_content(publish.topic).len() + bytes_content(publish.payload).len()
}

impl Storage for (Publish, Option<PublishProperties>) {
    open spec fn spec_size(&self) -> nat {
        publish_size(self.0)
    }

    fn size(&self) -> (size: usize) {
        4 + bytes_len(&self.0.topic) + bytes_len(&self.0.payload)
    }
}

} // verus!
