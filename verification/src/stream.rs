//! Reading from bytes in memory.

use crate::error::{IoError, IoErrorKind};
use vstd::prelude::*;
use vstd::slice::slice_subrange;

verus! {

/// Takes exactly `len` bytes off the front of `r`. Where fewer are left the
/// rest is consumed and the stream counts as ended inside a message.
pub fn take_exact<'a>(r: &mut &'a [u8], len: usize) -> (out: Result<&'a [u8], IoError>)
    ensures
        len <= (*old(r))@.len() ==> (out matches Ok(bytes) && bytes@ == (*old(r))@.take(len as int)
            && (*final(r))@ == (*old(r))@.skip(len as int)),
        len > (*old(r))@.len() ==> (out matches Err(e) && e.kind == IoErrorKind::UnexpectedEof
            && e.message@ == "failed to fill whole buffer"@ && (*final(r))@.len() == 0),
{
    let all: &'a [u8] = *r;
    let n: usize = all.len();
    if len > n {
        *r = slice_subrange(all, n, n);
        return Err(IoError::new(IoErrorKind::UnexpectedEof, "failed to fill whole buffer"));
    }
    let head: &'a [u8] = slice_subrange(all, 0, len);
    *r = slice_subrange(all, len, n);
    Ok(head)
}

} // verus!
