//! Short replies of the servers beside the proxy.

use vstd::prelude::*;

use crate::wire;

verus! {

/// A complete response.
pub struct PlainReply {
    pub status: u16,
    pub content_type: Option<String>,
    pub body: Vec<u8>,
}

impl PlainReply {
    /// Whether this is a text with a status and no content type.
    pub open spec fn is_text(self, status: u16, text: Seq<char>) -> bool {
        &&& self.status == status
        &&& self.content_type is None
        &&& self.body@ == wire::utf8(text)
    }

    /// Whether this is a document of the given type, with status 200.
    pub open spec fn is_document(self, content_type: Seq<char>, body: Seq<u8>) -> bool {
        &&& self.status == 200
        &&& self.content_type is Some && self.content_type->0@ == content_type
        &&& self.body@ == body
    }

    /// A text with a status and no content type.
    pub fn text(status: u16, text: &str) -> (r: PlainReply)
        ensures
            r.is_text(status, text@),
    {
        PlainReply { status, content_type: None, body: text.as_bytes_vec() }
    }

    /// A document with status 200.
    pub fn document(content_type: &str, body: Vec<u8>) -> (r: PlainReply)
        ensures
            r.is_document(content_type@, body@),
    {
        PlainReply { status: 200, content_type: Some(content_type.to_string()), body }
    }
}

} // verus!
