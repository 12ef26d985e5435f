//! A chunking session over one borrowed buffer.

use vstd::prelude::*;
use vstd::slice::slice_subrange;
use crate::scan::{chunks_of, lemma_chunks_unfold, next_chunked_slice, scan_params_ok};

verus! {

/// The smallest target chunk size that a session accepts.
pub const MIN_TARGET_CHUNKSIZE: usize = 64;

/// Euler's number less one, as a numerator over `E_MINUS_ONE_DENOM`.
pub const E_MINUS_ONE_NUMER: u128 = 1_718_281_828_459_045;

/// The denominator of `E_MINUS_ONE_NUMER`.
pub const E_MINUS_ONE_DENOM: u128 = 1_000_000_000_000_000;

/// `t / (e - 1)`, truncated toward zero.
pub open spec fn target_window(t: int) -> int {
    t * E_MINUS_ONE_DENOM as int / E_MINUS_ONE_NUMER as int
}

/// The scan window of a session with target chunk size `t`: 56 percent of
/// `target_window(t)`, truncated.
pub open spec fn derived_window_size(t: int) -> int {
    target_window(t) * 56 / 100
}

/// The prefix that a session with target chunk size `t` skips before it
/// starts to look for a cutpoint.
pub open spec fn derived_min_chunksize(t: int) -> int {
    t - target_window(t)
}

/// The target and largest chunk sizes that a session accepts.
pub open spec fn sizes_ok(target_chunksize: int, max_chunksize: int) -> bool {
    &&& MIN_TARGET_CHUNKSIZE <= target_chunksize
    &&& 2 * target_chunksize <= max_chunksize
}

/// The chunks of `s` under target size `t`, largest size `m` and `salt`.
pub open spec fn session_chunks(s: Seq<u8>, t: int, m: int, salt: u64) -> Seq<Seq<u8>> {
    chunks_of(s, derived_window_size(t), derived_min_chunksize(t), m, salt)
}

/// Accepted sizes give scan parameters that every scan needs.
pub proof fn lemma_derived_params(t: int, m: int)
    requires
        sizes_ok(t, m),
    ensures
        scan_params_ok(derived_window_size(t), derived_min_chunksize(t), m),
        0 <= target_window(t) <= t - 8,
        derived_window_size(t) <= target_window(t),
{
    let n = E_MINUS_ONE_NUMER as int;
    let d = E_MINUS_ONE_DENOM as int;
    let tw = target_window(t);
    vstd::arithmetic::div_mod::lemma_fundamental_div_mod(t * d, n);
    vstd::arithmetic::div_mod::lemma_div_pos_is_pos(t * d, n);
    assert(n * tw <= t * d);
    assert(tw <= t - 8) by (nonlinear_arith)
        requires
            n * tw <= t * d,
            t >= 64,
            n == 1_718_281_828_459_045,
            d == 1_000_000_000_000_000,
    ;
    vstd::arithmetic::div_mod::lemma_div_is_ordered(tw * 56, tw * 100, 100);
    vstd::arithmetic::div_mod::lemma_div_multiples_vanish(tw, 100);
    vstd::arithmetic::div_mod::lemma_div_pos_is_pos(tw * 56, 100);
}

/// Why a session could not be created.
#[derive(Debug, Clone, Copy, PartialEq, Eq, Structural)]
pub enum ChunkerError {
    /// The largest chunk size is less than twice the target size.
    InsufficientMaxSize,
    /// The target chunk size is below `MIN_TARGET_CHUNKSIZE`.
    InsufficientTargetSize,
}

/// A chunking session: a borrowed buffer, the scan parameters, and how much
/// of the buffer has been handed out as chunks.
#[derive(Debug)]
pub struct Chunker<'a> {
    slice: &'a [u8],
    window_size: usize,
    max_chunksize: usize,
    min_chunksize: usize,
    salt: u64,
    bytes_processed: usize,
    bytes_remaining: usize,
}

/// What a session is: its buffer, its parameters and its cursor.
pub struct ChunkerView {
    pub buffer: Seq<u8>,
    pub window_size: int,
    pub min_chunksize: int,
    pub max_chunksize: int,
    pub salt: u64,
    pub cursor: int,
}

impl ChunkerView {
    /// The bytes not yet handed out.
    pub open spec fn remaining(self) -> Seq<u8> {
        self.buffer.subrange(self.cursor, self.buffer.len() as int)
    }

    /// The chunks that the session has still to hand out, in order.
    pub open spec fn pending(self) -> Seq<Seq<u8>> {
        chunks_of(self.remaining(), self.window_size, self.min_chunksize, self.max_chunksize, self.salt)
    }
}

impl<'a> View for Chunker<'a> {
    type V = ChunkerView;

    closed spec fn view(&self) -> ChunkerView {
        ChunkerView {
            buffer: self.slice@,
            window_size: self.window_size as int,
            min_chunksize: self.min_chunksize as int,
            max_chunksize: self.max_chunksize as int,
            salt: self.salt,
            cursor: self.bytes_processed as int,
        }
    }
}

/// Relies on rand's `thread_rng` and `RngCore::next_u64`: some 64-bit value
/// from the thread's random generator.
#[verifier::external_body]
fn random_u64() -> (r: u64) {
    rand::RngCore::next_u64(&mut rand::thread_rng())
}

impl<'a> Chunker<'a> {
    /// The session's invariant: the cursor and the count of remaining bytes
    /// add up to the buffer's length, and the scan parameters are usable.
    pub closed spec fn wf(&self) -> bool {
        &&& self.bytes_processed + self.bytes_remaining == self.slice@.len()
        &&& scan_params_ok(self.window_size as int, self.min_chunksize as int, self.max_chunksize as int)
    }

    /// A session over `slice` with the given target and largest chunk sizes
    /// and salt. The largest size must be at least twice the target, and the
    /// target at least `MIN_TARGET_CHUNKSIZE`.
    pub fn with_params(
        slice: &'a [u8],
        target_chunksize_bytes: usize,
        max_chunksize_bytes: usize,
        salt: u64,
    ) -> (r: Result<Chunker<'a>, ChunkerError>)
        ensures
            2 * target_chunksize_bytes > max_chunksize_bytes ==> r == Err::<Chunker<'a>, ChunkerError>(
                ChunkerError::InsufficientMaxSize,
            ),
            2 * target_chunksize_bytes <= max_chunksize_bytes && target_chunksize_bytes
                < MIN_TARGET_CHUNKSIZE ==> r == Err::<Chunker<'a>, ChunkerError>(
                ChunkerError::InsufficientTargetSize,
            ),
            sizes_ok(target_chunksize_bytes as int, max_chunksize_bytes as int) ==> r is Ok,
            r matches Ok(c) ==> {
                &&& c.wf()
                &&& c@.buffer == slice@
                &&& c@.window_size == derived_window_size(target_chunksize_bytes as int)
                &&& c@.min_chunksize == derived_min_chunksize(target_chunksize_bytes as int)
                &&& c@.max_chunksize == max_chunksize_bytes
                &&& c@.salt == salt
                &&& c@.cursor == 0
                &&& c@.pending() == session_chunks(
                    slice@,
                    target_chunksize_bytes as int,
                    max_chunksize_bytes as int,
                    salt,
                )
            },
    {
        if target_chunksize_bytes > max_chunksize_bytes / 2 {
            return Err(ChunkerError::InsufficientMaxSize);
        }
        if target_chunksize_bytes < MIN_TARGET_CHUNKSIZE {
            return Err(ChunkerError::InsufficientTargetSize);
        }
        proof {
            lemma_derived_params(target_chunksize_bytes as int, max_chunksize_bytes as int);
        }
        let target_window_size = ((target_chunksize_bytes as u128) * E_MINUS_ONE_DENOM
            / E_MINUS_ONE_NUMER) as usize;
        let my_window_size = ((target_window_size as u128) * 56 / 100) as usize;
        let min_chunksize = target_chunksize_bytes - target_window_size;
        let chunker = Chunker {
            slice,
            window_size: my_window_size,
            salt,
            max_chunksize: max_chunksize_bytes,
            min_chunksize,
            bytes_processed: 0,
            bytes_remaining: slice.len(),
        };
        assert(chunker@.remaining() =~= slice@);
        Ok(chunker)
    }

    /// A salt drawn from the thread's random generator.
    pub fn get_random_salt() -> u64 {
        random_u64()
    }

    /// Hands out the next chunk of the buffer, or `None` once the whole
    /// buffer has been handed out.
    pub fn next(&mut self) -> (r: Option<&'a [u8]>)
        requires
            old(self).wf(),
        ensures
            final(self).wf(),
            old(self)@.pending().len() == 0 ==> r is None && final(self)@ == old(self)@,
            old(self)@.pending().len() > 0 ==> r is Some,
            r matches Some(chunk) ==> {
                &&& chunk@ == old(self)@.pending()[0]
                &&& final(self)@ == (ChunkerView { cursor: old(self)@.cursor + chunk@.len(), ..old(self)@ })
                &&& final(self)@.pending() == old(self)@.pending().drop_first()
            },
    {
        let ghost rest = self@.remaining();
        if self.bytes_remaining == 0 {
            assert(rest.len() == 0);
            return None;
        }
        let remaining = slice_subrange(self.slice, self.bytes_processed, self.slice.len());
        let next_slice = next_chunked_slice(
            remaining,
            self.window_size,
            self.min_chunksize,
            self.max_chunksize,
            self.salt,
        );
        proof {
            lemma_chunks_unfold(rest, self.window_size as int, self.min_chunksize as int, self.max_chunksize as int, self.salt);
        }
        self.bytes_processed = self.bytes_processed + next_slice.len();
        self.bytes_remaining = self.bytes_remaining - next_slice.len();
        assert(self@.remaining() =~= rest.subrange(next_slice@.len() as int, rest.len() as int));
        Some(next_slice)
    }
}

} // verus!
