//! What holds of every chunking session.

use vstd::prelude::*;
use crate::chunker::{derived_min_chunksize, derived_window_size, lemma_derived_params, session_chunks, sizes_ok};
use crate::scan::{lemma_chunks_bounded, lemma_chunks_constant, lemma_chunks_flatten};

verus! {

/// The chunks of a buffer, joined in order, give back the buffer: no byte
/// is lost, repeated or moved.
pub proof fn lemma_chunks_reassemble(s: Seq<u8>, t: int, m: int, salt: u64)
    requires
        sizes_ok(t, m),
    ensures
        session_chunks(s, t, m, salt).flatten() == s,
{
    lemma_derived_params(t, m);
    lemma_chunks_flatten(s, derived_window_size(t), derived_min_chunksize(t), m, salt);
}

/// Every chunk holds at least one byte and at most the largest chunk size.
pub proof fn lemma_chunk_lengths_bounded(s: Seq<u8>, t: int, m: int, salt: u64)
    requires
        sizes_ok(t, m),
    ensures
        forall|k: int|
            0 <= k < session_chunks(s, t, m, salt).len() ==> 1 <= #[trigger] session_chunks(
                s,
                t,
                m,
                salt,
            )[k].len() <= m,
{
    lemma_derived_params(t, m);
    lemma_chunks_bounded(s, derived_window_size(t), derived_min_chunksize(t), m, salt);
}

/// Two sessions over buffers with the same bytes, with the same sizes and
/// salt, hand out the same chunks.
pub proof fn lemma_sessions_agree(s1: Seq<u8>, s2: Seq<u8>, t: int, m: int, salt: u64)
    requires
        sizes_ok(t, m),
        s1 == s2,
    ensures
        session_chunks(s1, t, m, salt) == session_chunks(s2, t, m, salt),
{
}

/// A buffer of one repeated byte is cut into `len / m` chunks of `m` bytes,
/// followed by one chunk of `len % m` bytes when that is not zero.
pub proof fn lemma_constant_buffer_chunks(s: Seq<u8>, t: int, m: int, salt: u64)
    requires
        sizes_ok(t, m),
        forall|j: int| 0 <= j < s.len() ==> #[trigger] s[j] == s[0],
    ensures
        ({
            let cs = session_chunks(s, t, m, salt);
            let q = s.len() as int / m;
            let r = s.len() as int % m;
            &&& cs.len() == if r == 0 { q } else { q + 1 }
            &&& forall|k: int| 0 <= k < cs.len() ==> #[trigger] cs[k].len() == if k < q { m } else { r }
        }),
{
    lemma_derived_params(t, m);
    lemma_chunks_constant(s, derived_window_size(t), derived_min_chunksize(t), m, salt);
}

/// An empty buffer has no chunks.
pub proof fn lemma_empty_buffer_has_no_chunks(t: int, m: int, salt: u64)
    requires
        sizes_ok(t, m),
    ensures
        session_chunks(Seq::<u8>::empty(), t, m, salt).len() == 0,
{
}

} // verus!
