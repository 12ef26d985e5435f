//! The cutpoint scanner: where the next chunk of a buffer ends.

use vstd::prelude::*;
use vstd::slice::slice_subrange;
use crate::window::{salted_key, swapped_salted_isgt};

verus! {

/// Scan parameters that every session satisfies: the skipped prefix is not
/// empty, and skipping it plus one window covers at least one 8-byte word and
/// stays within the largest chunk.
pub open spec fn scan_params_ok(window_size: int, min_chunksize: int, max_chunksize: int) -> bool {
    &&& 1 <= min_chunksize
    &&& 0 <= window_size
    &&& 8 <= min_chunksize + window_size <= max_chunksize
}

/// The asymmetric-extremum scan of `s` from position `i` with the current
/// extremum at `marker`: the length of the chunk it settles on.
///
/// A position whose key does not exceed the marker's becomes the new marker;
/// a position one window past the marker with no new marker in between is a
/// cutpoint; the largest chunk size is a hard ceiling; and when fewer than
/// eight bytes follow, the chunk ends at the ceiling or at the end of `s`.
pub open spec fn scan_from(s: Seq<u8>, window_size: int, max_chunksize: int, salt: u64, i: int, marker: int) -> int
    decreases s.len() - 8 - i,
{
    if i >= s.len() - 8 {
        if max_chunksize < s.len() {
            max_chunksize
        } else {
            s.len() as int
        }
    } else if i == max_chunksize {
        i
    } else if !(salted_key(s, i, salt) > salted_key(s, marker, salt)) {
        scan_from(s, window_size, max_chunksize, salt, i + 1, i)
    } else if i == marker + window_size {
        i
    } else {
        scan_from(s, window_size, max_chunksize, salt, i + 1, marker)
    }
}

/// The length of the chunk that starts at the beginning of `s`: all of `s`
/// when it is no longer than the skipped prefix plus one window, else what
/// the scan from the end of the skipped prefix settles on.
pub open spec fn cut_len(s: Seq<u8>, window_size: int, min_chunksize: int, max_chunksize: int, salt: u64) -> int {
    if s.len() <= min_chunksize + window_size {
        s.len() as int
    } else {
        scan_from(s, window_size, max_chunksize, salt, min_chunksize, 0)
    }
}

/// The chunks of `s`, in order: the first `cut_len` bytes, then the chunks
/// of what follows them.
pub open spec fn chunks_of(s: Seq<u8>, window_size: int, min_chunksize: int, max_chunksize: int, salt: u64) -> Seq<Seq<u8>>
    decreases s.len(),
{
    if s.len() == 0 {
        Seq::empty()
    } else {
        let c = cut_len(s, window_size, min_chunksize, max_chunksize, salt);
        if 1 <= c <= s.len() {
            seq![s.subrange(0, c)] + chunks_of(s.subrange(c, s.len() as int), window_size, min_chunksize, max_chunksize, salt)
        } else {
            seq![s]
        }
    }
}

/// The first chunk of a non-empty buffer is its first `cut_len` bytes, and
/// the others are the chunks of the rest.
pub proof fn lemma_chunks_unfold(s: Seq<u8>, window_size: int, min_chunksize: int, max_chunksize: int, salt: u64)
    requires
        scan_params_ok(window_size, min_chunksize, max_chunksize),
        s.len() >= 1,
    ensures
        ({
            let c = cut_len(s, window_size, min_chunksize, max_chunksize, salt);
            let cs = chunks_of(s, window_size, min_chunksize, max_chunksize, salt);
            &&& 1 <= c <= s.len()
            &&& cs.len() >= 1
            &&& cs[0] == s.subrange(0, c)
            &&& cs.drop_first() == chunks_of(s.subrange(c, s.len() as int), window_size, min_chunksize, max_chunksize, salt)
        }),
{
    lemma_cut_len_bounds(s, window_size, min_chunksize, max_chunksize, salt);
    let c = cut_len(s, window_size, min_chunksize, max_chunksize, salt);
    let rest = chunks_of(s.subrange(c, s.len() as int), window_size, min_chunksize, max_chunksize, salt);
    assert((seq![s.subrange(0, c)] + rest).drop_first() =~= rest);
}

/// A scan that starts at or below the ceiling ends on a length in
/// `[1, max_chunksize]` that does not pass the end of `s`.
pub proof fn lemma_scan_bounds(s: Seq<u8>, window_size: int, max_chunksize: int, salt: u64, i: int, marker: int)
    requires
        1 <= i <= max_chunksize,
        s.len() >= 1,
    ensures
        1 <= scan_from(s, window_size, max_chunksize, salt, i, marker) <= max_chunksize,
        scan_from(s, window_size, max_chunksize, salt, i, marker) <= s.len(),
    decreases s.len() - 8 - i,
{
    if i >= s.len() - 8 {
    } else if i == max_chunksize {
    } else if !(salted_key(s, i, salt) > salted_key(s, marker, salt)) {
        lemma_scan_bounds(s, window_size, max_chunksize, salt, i + 1, i);
    } else if i == marker + window_size {
    } else {
        lemma_scan_bounds(s, window_size, max_chunksize, salt, i + 1, marker);
    }
}

/// Every chunk of a non-empty buffer has a length in `[1, max_chunksize]`
/// and fits in the buffer.
pub proof fn lemma_cut_len_bounds(s: Seq<u8>, window_size: int, min_chunksize: int, max_chunksize: int, salt: u64)
    requires
        scan_params_ok(window_size, min_chunksize, max_chunksize),
        s.len() >= 1,
    ensures
        1 <= cut_len(s, window_size, min_chunksize, max_chunksize, salt) <= max_chunksize,
        cut_len(s, window_size, min_chunksize, max_chunksize, salt) <= s.len(),
{
    if s.len() > min_chunksize + window_size {
        lemma_scan_bounds(s, window_size, max_chunksize, salt, min_chunksize, 0);
    }
}

/// The chunks of `s`, joined in order, give back `s`.
pub proof fn lemma_chunks_flatten(s: Seq<u8>, window_size: int, min_chunksize: int, max_chunksize: int, salt: u64)
    requires
        scan_params_ok(window_size, min_chunksize, max_chunksize),
    ensures
        chunks_of(s, window_size, min_chunksize, max_chunksize, salt).flatten() == s,
    decreases s.len(),
{
    if s.len() > 0 {
        lemma_chunks_unfold(s, window_size, min_chunksize, max_chunksize, salt);
        let c = cut_len(s, window_size, min_chunksize, max_chunksize, salt);
        lemma_chunks_flatten(s.subrange(c, s.len() as int), window_size, min_chunksize, max_chunksize, salt);
        assert(s.subrange(0, c) + s.subrange(c, s.len() as int) =~= s);
    }
}

/// Every chunk of `s` has a length in `[1, max_chunksize]`.
pub proof fn lemma_chunks_bounded(s: Seq<u8>, window_size: int, min_chunksize: int, max_chunksize: int, salt: u64)
    requires
        scan_params_ok(window_size, min_chunksize, max_chunksize),
    ensures
        forall|k: int|
            0 <= k < chunks_of(s, window_size, min_chunksize, max_chunksize, salt).len() ==> 1
                <= #[trigger] chunks_of(s, window_size, min_chunksize, max_chunksize, salt)[k].len()
                <= max_chunksize,
    decreases s.len(),
{
    if s.len() > 0 {
        lemma_chunks_unfold(s, window_size, min_chunksize, max_chunksize, salt);
        lemma_cut_len_bounds(s, window_size, min_chunksize, max_chunksize, salt);
        let c = cut_len(s, window_size, min_chunksize, max_chunksize, salt);
        let cs = chunks_of(s, window_size, min_chunksize, max_chunksize, salt);
        lemma_chunks_bounded(s.subrange(c, s.len() as int), window_size, min_chunksize, max_chunksize, salt);
        assert forall|k: int| 0 <= k < cs.len() implies 1 <= #[trigger] cs[k].len() <= max_chunksize by {
            if k > 0 {
                assert(cs[k] == cs.drop_first()[k - 1]);
            }
        }
    }
}

/// On a buffer of one repeated byte every key ties, so the scan runs to the
/// ceiling or to the end of the buffer.
proof fn lemma_scan_constant(s: Seq<u8>, window_size: int, max_chunksize: int, salt: u64, i: int, marker: int)
    requires
        forall|j: int| 0 <= j < s.len() ==> #[trigger] s[j] == s[0],
        0 <= marker <= i <= max_chunksize,
    ensures
        scan_from(s, window_size, max_chunksize, salt, i, marker) == if max_chunksize < s.len() {
            max_chunksize
        } else {
            s.len() as int
        },
    decreases s.len() - 8 - i,
{
    if i >= s.len() - 8 {
    } else if i == max_chunksize {
    } else {
        assert(salted_key(s, i, salt) == salted_key(s, marker, salt)) by {
            assert(s[i] == s[marker] && s[i + 1] == s[marker + 1] && s[i + 2] == s[marker + 2]);
            assert(s[i + 3] == s[marker + 3] && s[i + 4] == s[marker + 4] && s[i + 5] == s[marker + 5]);
            assert(s[i + 6] == s[marker + 6] && s[i + 7] == s[marker + 7]);
        }
        lemma_scan_constant(s, window_size, max_chunksize, salt, i + 1, i);
    }
}

/// On a buffer of one repeated byte the chunks are as long as the ceiling
/// allows: `len / max_chunksize` chunks of `max_chunksize` bytes, then one of
/// `len % max_chunksize` bytes if that is not zero.
pub proof fn lemma_chunks_constant(s: Seq<u8>, window_size: int, min_chunksize: int, max_chunksize: int, salt: u64)
    requires
        scan_params_ok(window_size, min_chunksize, max_chunksize),
        forall|j: int| 0 <= j < s.len() ==> #[trigger] s[j] == s[0],
    ensures
        ({
            let cs = chunks_of(s, window_size, min_chunksize, max_chunksize, salt);
            let q = s.len() as int / max_chunksize;
            let r = s.len() as int % max_chunksize;
            &&& cs.len() == if r == 0 { q } else { q + 1 }
            &&& forall|k: int| 0 <= k < cs.len() ==> #[trigger] cs[k].len() == if k < q { max_chunksize } else { r }
        }),
    decreases s.len(),
{
    let cs = chunks_of(s, window_size, min_chunksize, max_chunksize, salt);
    let m = max_chunksize;
    let n = s.len() as int;
    if n == 0 {
        vstd::arithmetic::div_mod::lemma_fundamental_div_mod_converse(n, m, 0, 0);
    } else {
        lemma_chunks_unfold(s, window_size, min_chunksize, max_chunksize, salt);
        let c = cut_len(s, window_size, min_chunksize, max_chunksize, salt);
        if n > min_chunksize + window_size {
            lemma_scan_constant(s, window_size, max_chunksize, salt, min_chunksize, 0);
        }
        if n < m {
            vstd::arithmetic::div_mod::lemma_fundamental_div_mod_converse(n, m, 0, n);
            assert(c == n);
            assert(cs.drop_first().len() == 0);
        } else if n == m {
            vstd::arithmetic::div_mod::lemma_fundamental_div_mod_converse(n, m, 1, 0);
            assert(c == n);
            assert(cs.drop_first().len() == 0);
        } else {
            assert(c == m);
            let t = s.subrange(m, n);
            assert forall|j: int| 0 <= j < t.len() implies #[trigger] t[j] == t[0] by {
                assert(t[j] == s[m + j] && t[0] == s[m]);
            }
            lemma_chunks_constant(t, window_size, min_chunksize, max_chunksize, salt);
            let q1 = (n - m) / m;
            let r1 = (n - m) % m;
            vstd::arithmetic::div_mod::lemma_fundamental_div_mod(n - m, m);
            vstd::arithmetic::div_mod::lemma_mod_pos_bound(n - m, m);
            assert(n == (q1 + 1) * m + r1) by (nonlinear_arith)
                requires
                    n - m == m * q1 + r1,
            ;
            vstd::arithmetic::div_mod::lemma_fundamental_div_mod_converse(n, m, q1 + 1, r1);
            let rest = cs.drop_first();
            assert forall|k: int| 0 <= k < cs.len() implies #[trigger] cs[k].len() == if k < q1 + 1 { m } else { r1 } by {
                if k > 0 {
                    assert(cs[k] == rest[k - 1]);
                }
            }
        }
    }
}

/// The next chunk of `remaining`: its first `cut_len` bytes.
pub fn next_chunked_slice<'a>(
    remaining: &'a [u8],
    window_size: usize,
    min_chunksize: usize,
    max_chunksize: usize,
    salt: u64,
) -> (r: &'a [u8])
    requires
        scan_params_ok(window_size as int, min_chunksize as int, max_chunksize as int),
        remaining@.len() >= 1,
    ensures
        r@ == remaining@.subrange(
            0,
            cut_len(remaining@, window_size as int, min_chunksize as int, max_chunksize as int, salt),
        ),
{
    let remaining_bytes_length = remaining.len();
    proof {
        lemma_cut_len_bounds(remaining@, window_size as int, min_chunksize as int, max_chunksize as int, salt);
    }
    if remaining_bytes_length <= min_chunksize + window_size {
        return slice_subrange(remaining, 0, remaining_bytes_length);
    }
    let ghost s = remaining@;
    let ghost whole = scan_from(s, window_size as int, max_chunksize as int, salt, min_chunksize as int, 0);
    let mut marker_position: usize = 0;
    let end_index: usize = remaining_bytes_length - 8;
    let mut i: usize = min_chunksize;
    while i < end_index
        invariant
            s == remaining@,
            remaining_bytes_length == s.len(),
            end_index == s.len() - 8,
            min_chunksize <= i <= max_chunksize,
            marker_position <= i,
            marker_position + 8 <= s.len(),
            scan_from(s, window_size as int, max_chunksize as int, salt, i as int, marker_position as int) == whole,
            whole == cut_len(s, window_size as int, min_chunksize as int, max_chunksize as int, salt),
            1 <= whole <= s.len(),
        decreases end_index - i,
    {
        if i == max_chunksize {
            return slice_subrange(remaining, 0, i);
        }
        if !swapped_salted_isgt(remaining, i, marker_position, salt) {
            marker_position = i;
        } else if i - marker_position == window_size {
            return slice_subrange(remaining, 0, i);
        }
        i = i + 1;
    }
    let cutpoint = if max_chunksize < remaining_bytes_length {
        max_chunksize
    } else {
        remaining_bytes_length
    };
    slice_subrange(remaining, 0, cutpoint)
}

} // verus!
