#![allow(non_snake_case)]

use quickcdc::Chunker;

#[test]
fn chunker__processing_zeroed_array__always_returns_max_chunk_size() {
    let target_size = 64;
    let max_size = 1024;
    let zero_array = [0u8; 10240];

    let mut chunker = Chunker::with_params(&zero_array[..], target_size, max_size, 0).unwrap();

    while let Some(chunk) = chunker.next() {
        assert_eq!(chunk.len(), max_size);
    }
}

#[test]
fn chunker__when_array_not_evently_divisible__returns_expected_remainder() {
    let target_size = 64;
    let max_size = 1024;
    let uneven_array = vec![0u8; 102401];

    let mut chunker = Chunker::with_params(&uneven_array[..], target_size, max_size, 0).unwrap();
    let mut current = chunker.next();

    while let Some(chunk) = current {
        let following = chunker.next();
        if following.is_none() {
            assert_eq!(chunk.len(), 1);
        } else {
            assert_eq!(chunk.len(), max_size);
        }
        current = following;
    }
}

#[test]
fn chunker__when_given_undersized_target_size__returns_error() {
    let target_size = 63; // 64 is minimum
    let max_size = 1024;
    let zero_array = [0u8; 10240];

    let chunker = Chunker::with_params(&zero_array[..], target_size, max_size, 0);

    assert_eq!(chunker.is_err(), true);
}

#[test]
fn chunker__when_given_undersized_max_size__returns_error() {
    let target_size = 64;
    let max_size = 127; // must be at least 2 * target size
    let zero_array = [0u8; 10240];

    let chunker = Chunker::with_params(&zero_array[..], target_size, max_size, 0);

    assert_eq!(chunker.is_err(), true);
}
