//! The two response bodies of the smart HTTP exchange that the library reads:
//! the ref advertisement, for the head revision, and the pack response.
use vstd::prelude::*;
use crate::objects::{bytes_equal_at, copy_range, find_byte};
use crate::tree::index_from;

verus! {

/// `001e# service=git-upload-pack\n0000`: the start of a ref advertisement.
pub open spec fn refs_preamble() -> Seq<u8> {
    seq![48u8, 48, 49, 101, 35, 32, 115, 101, 114, 118, 105, 99, 101, 61, 103, 105, 116, 45, 117,
        112, 108, 111, 97, 100, 45, 112, 97, 99, 107, 10, 48, 48, 48, 48]
}

/// `0008NAK\n`: the start of a pack response.
pub open spec fn nak_line() -> Seq<u8> {
    seq![48u8, 48, 48, 56, 78, 65, 75, 10]
}

/// The head revision in a ref advertisement: after the preamble, the first
/// line's text up to its first space, without its four-digit length prefix.
pub open spec fn head_rev_of(body: Seq<u8>) -> Option<Seq<u8>> {
    let n = refs_preamble().len() as int;
    if body.len() < n || body.subrange(0, n) != refs_preamble() {
        None
    } else {
        let rest = body.subrange(n, body.len() as int);
        let first = match index_from(rest, 0, 32) {
            Some(i) => rest.subrange(0, i),
            None => rest,
        };
        if first.len() < 4 {
            None
        } else {
            Some(first.subrange(4, first.len() as int))
        }
    }
}

/// The bytes of `body` after `prefix`, if it starts with it.
fn strip_prefix(body: &[u8], prefix: &[u8]) -> (r: Option<Vec<u8>>)
    ensures
        match r {
            Some(v) => body@.len() >= prefix@.len() && body@.subrange(0, prefix@.len() as int)
                == prefix@ && v@ == body@.subrange(prefix@.len() as int, body@.len() as int),
            None => !(body@.len() >= prefix@.len() && body@.subrange(0, prefix@.len() as int)
                == prefix@),
        },
{
    if body.len() < prefix.len() || !bytes_equal_at(body, 0, prefix) {
        return None;
    }
    Some(copy_range(body, prefix.len(), body.len()))
}

/// The head revision that a ref advertisement names, if it has the expected
/// shape.
pub fn head_rev(body: &[u8]) -> (r: Option<Vec<u8>>)
    ensures
        match r {
            Some(v) => head_rev_of(body@) == Some(v@),
            None => head_rev_of(body@) is None,
        },
{
    let preamble: [u8; 34] = [48u8, 48, 49, 101, 35, 32, 115, 101, 114, 118, 105, 99, 101, 61,
        103, 105, 116, 45, 117, 112, 108, 111, 97, 100, 45, 112, 97, 99, 107, 10, 48, 48, 48, 48];
    assert(preamble@ =~= refs_preamble());
    let rest = match strip_prefix(body, &preamble) {
        Some(rest) => rest,
        None => {
            return None;
        },
    };
    let end = match find_byte(rest.as_slice(), 0, 32u8) {
        Some(i) => i,
        None => rest.len(),
    };
    proof {
        crate::tree::lemma_index_from(rest@, 0, 32u8, if end < rest@.len() { Some(end as int) } else { None });
        if end == rest@.len() {
            assert(rest@.subrange(0, end as int) =~= rest@);
        }
    }
    if end < 4 {
        return None;
    }
    let first = copy_range(rest.as_slice(), 0, end);
    Some(copy_range(first.as_slice(), 4, end))
}

/// The pack in a pack response: the bytes after its `0008NAK\n` line.
pub fn pack_of_response(body: &[u8]) -> (r: Option<Vec<u8>>)
    ensures
        match r {
            Some(v) => body@.len() >= 8 && body@.subrange(0, 8) == nak_line() && v@ == body@.subrange(8, body@.len() as int),
            None => !(body@.len() >= 8 && body@.subrange(0, 8) == nak_line()),
        },
{
    let nak: [u8; 8] = [48u8, 48, 48, 56, 78, 65, 75, 10];
    assert(nak@ =~= nak_line());
    strip_prefix(body, &nak)
}

} // verus!
