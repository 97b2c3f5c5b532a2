//! Encoding and decoding of DNS messages as laid out by RFC 1035.
//!
//! Every decoder reads from a whole message held in memory, at an explicit
//! position, and hands back the decoded value together with the position just
//! past it. Compression pointers inside domain names are followed, so a name
//! may refer to bytes anywhere in the message. Encoders write names without
//! compression.
use vstd::prelude::*;

pub mod domain_name;
pub mod field;
pub mod header;
pub mod message;
pub mod resource_record;
pub mod sections;

pub use message::Message;



verus! {

/// Why a sequence of bytes could not be decoded.
#[derive(Debug, Clone)]
pub enum DecodeError {
    /// The bytes end before a field, a label or the resource data is complete.
    NotEnoughBytes,
    /// The bytes hold a value that is not allowed where it stands.
    IllegalValue(String),
}

impl DecodeError {
    /// A sentence that says what went wrong.
    pub fn message(&self) -> (r: String)
        ensures
            self is NotEnoughBytes ==> r@ == "failed to decode bytes: not enough bytes"@,
            self is IllegalValue ==> r@ == "failed to decode bytes: "@ + self->IllegalValue_0@,
    {
        let prefix = "failed to decode bytes: ".to_owned();
        match self {
            DecodeError::NotEnoughBytes => {
                let r = prefix.concat("not enough bytes");
                proof {
                    reveal_strlit("failed to decode bytes: ");
                    reveal_strlit("not enough bytes");
                    reveal_strlit("failed to decode bytes: not enough bytes");
                    assert(r@ =~= "failed to decode bytes: not enough bytes"@);
                }
                r
            },
            DecodeError::IllegalValue(reason) => prefix.concat(reason.as_str()),
        }
    }
}

/// What decoding a value that starts at some position of a message gives, in
/// the model: the value and the position just past it, or one of the two ways
/// of failing.
pub ghost enum Parse<T> {
    Done(T, int),
    Short,
    Illegal,
}

/// The result of an executable decoder is the one that the model gives.
pub open spec fn agrees<T: View>(r: Result<(T, usize), DecodeError>, p: Parse<T::V>) -> bool {
    match p {
        Parse::Done(v, end) => r is Ok && r->Ok_0.0@ == v && r->Ok_0.1 == end,
        Parse::Short => r is Err && r->Err_0 is NotEnoughBytes,
        Parse::Illegal => r is Err && r->Err_0 is IllegalValue,
    }
}

} // verus!
