//! Blob objects: a file's content, and the parser of a blob's canonical body.
use vstd::prelude::*;
use crate::codec::{decimal_at, digits_end, parse_decimal};
use crate::error::GitError;
use crate::hasher::blob_tag;

verus! {

/// A file's content as an object, with the name and digest it is known by.
#[derive(Debug, Clone)]
pub struct Blob {
    pub count: i32,
    pub name: String,
    pub hasher: Vec<u8>,
    pub content: Vec<u8>,
}

impl Blob {
    /// A blob known by `name`, with no digest and no content yet.
    pub fn new(name: String) -> (r: Blob)
        ensures
            r.name == name,
            r.count == 0,
            r.hasher@.len() == 0,
            r.content@.len() == 0,
    {
        Blob { count: 0, name, hasher: Vec::new(), content: Vec::new() }
    }
}

/// What a blob body holds: the declared length and the content, when it
/// starts with `"blob "`, a decimal length that fits in `i32`, and a NUL.
pub open spec fn parse_blob_spec(b: Seq<u8>) -> Option<(i32, Seq<u8>)> {
    let end = digits_end(b, 5);
    if b.len() < 5 || b.subrange(0, 5) != blob_tag().push(32u8) {
        None
    } else if decimal_at(b, 5) is None || end >= b.len() || b[end] != 0 {
        None
    } else {
        Some((decimal_at(b, 5)->Some_0, b.subrange(end + 1, b.len() as int)))
    }
}

/// Parses a blob's canonical body: the tag `"blob "`, the decimal length, a
/// NUL, and the content verbatim. A missing tag, length or NUL is a
/// `FormatError`.
pub fn parse_blob(b: &[u8]) -> (r: Result<Blob, GitError>)
    ensures
        r is Ok <==> parse_blob_spec(b@) is Some,
        r matches Ok(blob) ==> parse_blob_spec(b@) == Some((blob.count, blob.content@))
            && blob.name@.len() == 0 && blob.hasher@.len() == 0,
        r matches Err(e) ==> e == GitError::FormatError,
{
    if b.len() < 5 || b[0] != 98 || b[1] != 108 || b[2] != 111 || b[3] != 98 || b[4] != 32 {
        proof {
            if b@.len() >= 5 {
                assert(b@.subrange(0, 5)[0] == b@[0]);
                assert(b@.subrange(0, 5)[1] == b@[1]);
                assert(b@.subrange(0, 5)[2] == b@[2]);
                assert(b@.subrange(0, 5)[3] == b@[3]);
                assert(b@.subrange(0, 5)[4] == b@[4]);
            }
        }
        return Err(GitError::FormatError);
    }
    assert(b@.subrange(0, 5) =~= blob_tag().push(32u8));
    let (end, count) = parse_decimal(b, 5);
    proof {
        crate::codec::lemma_digits_end_bounds(b@, 5);
    }
    match count {
        None => Err(GitError::FormatError),
        Some(count) => {
            if end >= b.len() || b[end] != 0 {
                return Err(GitError::FormatError);
            }
            let content = crate::bytes::read_n_length_bytes(b, end + 1, b.len() - (end + 1)).unwrap();
            Ok(from_objects_file(count, content))
        },
    }
}

/// The blob of a parsed body, not yet named.
fn from_objects_file(count: i32, content: Vec<u8>) -> (r: Blob)
    ensures
        r.count == count,
        r.content == content,
        r.name@.len() == 0,
        r.hasher@.len() == 0,
{
    Blob { count, name: String::new(), hasher: Vec::new(), content }
}

} // verus!
