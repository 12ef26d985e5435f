use quickcdc::scan::next_chunked_slice;
use quickcdc::window::swapped_salted_isgt;
use quickcdc::{Chunker, ChunkerError};

fn pseudo_random_bytes(n: usize, seed: u64) -> Vec<u8> {
    let mut x = seed;
    let mut out = Vec::with_capacity(n);
    for _ in 0..n {
        x = x.wrapping_mul(6364136223846793005).wrapping_add(1442695040888963407);
        out.push((x >> 56) as u8);
    }
    out
}

fn all_chunks<'a>(buf: &'a [u8], target: usize, max: usize, salt: u64) -> Vec<&'a [u8]> {
    let mut chunker = Chunker::with_params(buf, target, max, salt).unwrap();
    let mut out = Vec::new();
    while let Some(chunk) = chunker.next() {
        out.push(chunk);
    }
    out
}

fn lengths(chunks: &[&[u8]]) -> Vec<usize> {
    chunks.iter().map(|c| c.len()).collect()
}

#[test]
fn chunks_reassemble_the_buffer() {
    for seed in 0..20u64 {
        let buf = pseudo_random_bytes(3000 + 97 * seed as usize, seed);
        let chunks = all_chunks(&buf, 64, 1024, seed.wrapping_mul(0x9E3779B97F4A7C15));
        let joined: Vec<u8> = chunks.concat();
        assert_eq!(joined, buf);
    }
}

#[test]
fn chunk_lengths_stay_within_bounds() {
    for seed in 0..20u64 {
        let buf = pseudo_random_bytes(5000, seed);
        for (target, max) in [(64, 128), (64, 1024), (256, 512), (1000, 4000)] {
            for chunk in all_chunks(&buf, target, max, seed) {
                assert!(chunk.len() >= 1);
                assert!(chunk.len() <= max);
            }
        }
    }
}

#[test]
fn same_inputs_give_same_chunks() {
    let buf = pseudo_random_bytes(8000, 3);
    let copy = buf.clone();
    let salt = 15222894464462204665;
    assert_eq!(all_chunks(&buf, 64, 1024, salt), all_chunks(&copy, 64, 1024, salt));
}

#[test]
fn constant_buffer_is_cut_at_the_ceiling() {
    let buf = vec![0xABu8; 10240 + 500];
    let lens = lengths(&all_chunks(&buf, 64, 1024, 77));
    let mut expected = vec![1024usize; 10];
    expected.push(500);
    assert_eq!(lens, expected);
}

#[test]
fn zero_buffer_of_exact_multiple_gives_full_chunks() {
    let buf = vec![0u8; 10240];
    let lens = lengths(&all_chunks(&buf, 64, 1024, 0));
    assert_eq!(lens, vec![1024usize; 10]);
}

#[test]
fn zero_buffer_with_one_extra_byte_ends_with_one_byte_chunk() {
    let buf = vec![0u8; 102401];
    let lens = lengths(&all_chunks(&buf, 64, 1024, 0));
    assert_eq!(lens.len(), 101);
    assert!(lens[..100].iter().all(|&l| l == 1024));
    assert_eq!(lens[100], 1);
}

#[test]
fn undersized_target_gives_target_error() {
    let buf = [0u8; 16];
    assert_eq!(Chunker::with_params(&buf, 63, 1024, 0).unwrap_err(), ChunkerError::InsufficientTargetSize);
}

#[test]
fn undersized_max_gives_max_error() {
    let buf = [0u8; 16];
    assert_eq!(Chunker::with_params(&buf, 64, 127, 0).unwrap_err(), ChunkerError::InsufficientMaxSize);
    assert!(Chunker::with_params(&buf, 64, 128, 0).is_ok());
}

#[test]
fn max_error_wins_when_both_sizes_are_wrong() {
    let buf = [0u8; 16];
    assert_eq!(Chunker::with_params(&buf, 63, 100, 0).unwrap_err(), ChunkerError::InsufficientMaxSize);
}

#[test]
fn empty_buffer_gives_no_chunks() {
    let buf: [u8; 0] = [];
    let mut chunker = Chunker::with_params(&buf, 64, 1024, 0).unwrap();
    assert!(chunker.next().is_none());
    assert!(chunker.next().is_none());
}

#[test]
fn exhausted_session_stays_exhausted() {
    let buf = pseudo_random_bytes(300, 11);
    let mut chunker = Chunker::with_params(&buf, 64, 1024, 0).unwrap();
    while chunker.next().is_some() {}
    assert!(chunker.next().is_none());
}

#[test]
fn short_buffer_is_one_chunk() {
    // With target 64 the skipped prefix is 27 bytes and the window 20.
    let buf = pseudo_random_bytes(47, 5);
    assert_eq!(lengths(&all_chunks(&buf, 64, 1024, 0)), vec![47]);
}

#[test]
fn known_cutpoints_for_target_64() {
    let buf = pseudo_random_bytes(4096, 7);
    let lens = lengths(&all_chunks(&buf, 64, 1024, 0));
    assert_eq!(lens.len(), 65);
    assert_eq!(&lens[..10], &[57, 66, 55, 61, 71, 58, 79, 71, 48, 57]);
    assert_eq!(lens[64], 11);
}

#[test]
fn known_cutpoints_for_target_64_with_salt() {
    let buf = pseudo_random_bytes(4096, 7);
    let lens = lengths(&all_chunks(&buf, 64, 1024, 0x9E3779B97F4A7C15));
    assert_eq!(lens.len(), 66);
    assert_eq!(&lens[..10], &[49, 61, 76, 61, 49, 54, 55, 81, 57, 56]);
}

#[test]
fn known_cutpoints_for_target_256() {
    let buf = pseudo_random_bytes(4096, 7);
    let lens = lengths(&all_chunks(&buf, 256, 1024, 0));
    assert_eq!(
        lens,
        vec![268, 241, 389, 265, 295, 225, 199, 272, 237, 262, 236, 354, 191, 203, 255, 204]
    );
}

#[test]
fn salt_changes_cutpoints_on_varied_data() {
    let mut differing = 0;
    for seed in 0..32u64 {
        let buf = pseudo_random_bytes(4096, seed + 100);
        let base = lengths(&all_chunks(&buf, 64, 1024, 0));
        let salt = (seed + 1).wrapping_mul(0xD1B54A32D192ED03);
        if lengths(&all_chunks(&buf, 64, 1024, salt)) != base {
            differing += 1;
        }
    }
    assert!(differing >= 30);
}

#[test]
fn comparator_reads_first_byte_as_most_significant() {
    let buf = [0x01u8, 0, 0, 0, 0, 0, 0, 0, 0xFF];
    assert!(swapped_salted_isgt(&buf, 0, 1, 0));
    assert!(!swapped_salted_isgt(&buf, 1, 0, 0));
    assert!(!swapped_salted_isgt(&buf, 0, 1, 0x0100_0000_0000_0000));
    assert!(!swapped_salted_isgt(&buf, 0, 0, 0));
}

#[test]
fn scanner_forces_cut_at_ceiling_on_constant_data() {
    let buf = [9u8; 600];
    assert_eq!(next_chunked_slice(&buf, 20, 27, 128, 5).len(), 128);
    assert_eq!(next_chunked_slice(&buf[..100], 20, 27, 128, 5).len(), 100);
}

#[test]
fn random_salts_vary() {
    let salts: Vec<u64> = (0..4).map(|_| Chunker::get_random_salt()).collect();
    assert!(salts.iter().any(|&s| s != salts[0]));
}
