use vstd::prelude::*;

verus! {

/// The content of a message: either an opaque encrypted box or plain data.
///
/// An encrypted box is held as its legacy text (for example `"<base64>.box"`).
#[derive(Debug, Clone, PartialEq, Eq)]
pub enum Content<T> {
    Encrypted(Vec<u8>),
    Plain(T),
}

/// A complete ssb message, signed and all.
///
/// The multiformat identifiers (`previous`, `author`, `signature`) are held
/// as their canonical legacy texts, and `timestamp` as the legacy rendering
/// of its float. This does not check whether the `content` value is valid.
#[derive(Debug, Clone, PartialEq, Eq)]
pub struct Message<T> {
    pub previous: Option<Vec<u8>>,
    pub author: Vec<u8>,
    pub sequence: u64,
    pub timestamp: Vec<u8>,
    pub content: Content<T>,
    pub swapped: bool,
    pub signature: Option<Vec<u8>>,
}

/// The bytes of an optional byte vector.
pub open spec fn opt_view(o: Option<Vec<u8>>) -> Option<Seq<u8>> {
    match o {
        None => None,
        Some(v) => Some(v@),
    }
}

/// Whether content is encrypted, and its bytes.
pub open spec fn content_view(c: Content<Vec<u8>>) -> (bool, Seq<u8>) {
    match c {
        Content::Encrypted(b) => (true, b@),
        Content::Plain(p) => (false, p@),
    }
}

/// Two messages that hold the same values, field by field.
pub open spec fn same_message(a: Message<Vec<u8>>, b: Message<Vec<u8>>) -> bool {
    &&& opt_view(a.previous) == opt_view(b.previous)
    &&& a.author@ == b.author@
    &&& a.sequence == b.sequence
    &&& a.timestamp@ == b.timestamp@
    &&& content_view(a.content) == content_view(b.content)
    &&& a.swapped == b.swapped
    &&& opt_view(a.signature) == opt_view(b.signature)
}

impl<T> Content<T> {
    pub open spec fn spec_is_encrypted(&self) -> bool {
        self is Encrypted
    }
}

impl<T> Message<T> {
    /// Return whether the content of this message is encrypted.
    pub fn is_encrypted(&self) -> (r: bool)
        ensures
            r == self.content.spec_is_encrypted(),
    {
        match self.content {
            Content::Encrypted(..) => true,
            Content::Plain(..) => false,
        }
    }

    /// The message with `sig` as its signature, in place of any it had.
    pub fn with_signature(self, sig: Vec<u8>) -> (r: Self)
        ensures
            r == (Message { signature: Some(sig), ..self }),
    {
        Message { signature: Some(sig), ..self }
    }
}

} // verus!
