//! Contiguous chunks of a file that is not contiguous.
use vstd::prelude::*;

verus! {

/// The chunks of a file, and how many of them were taken.
pub struct MultiBuf {
    pub chunks: Vec<Vec<u8>>,
    pub pos: usize,
}

/// The next chunk, and nothing after the last one.
pub fn next_chunk(buf: &mut MultiBuf) -> (r: &[u8])
    requires
        old(buf).pos < usize::MAX,
    ensures
        final(buf).chunks == old(buf).chunks,
        final(buf).pos == old(buf).pos + 1,
        r@ == (if old(buf).pos < old(buf).chunks@.len() {
            old(buf).chunks@[old(buf).pos as int]@
        } else {
            Seq::empty()
        }),
{
    let next: usize = buf.pos;
    buf.pos = next + 1;
    if next < buf.chunks.len() {
        buf.chunks[next].as_slice()
    } else {
        &[]
    }
}

} // verus!
