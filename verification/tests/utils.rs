use memalloc::block::{padded_payload, MAX_REQUEST, MIN_BLOCK_SIZE, WORD_SIZE};
use memalloc::utils::align;

#[test]
fn align_pointer_size() {
    let aligments = vec![(1..8, 8), (9..16, 16), (17..24, 24), (25..32, 32)];

    for (sizes, expected) in aligments {
        for size in sizes {
            assert_eq!(expected, align(size, std::mem::size_of::<usize>()));
        }
    }
}

#[test]
fn align_page_size() {
    // For testing purposes we are assuming the page size is 4096
    let aligments = vec![(1..4096, 4096), (4097..8192, 8192)];

    for (sizes, expected) in aligments {
        for size in sizes {
            assert_eq!(expected, align(size, 4096))
        }
    }
}

#[test]
fn align_keeps_multiples() {
    assert_eq!(align(0, 8), 0);
    assert_eq!(align(8, 8), 8);
    assert_eq!(align(4096, 4096), 4096);
    assert_eq!(align(8192, 4096), 8192);
}

#[test]
fn align_to_any_positive_alignment() {
    assert_eq!(align(1, 800), 800);
    assert_eq!(align(801, 800), 1600);
    assert_eq!(align(7, 1), 7);
    assert_eq!(align(10, 24), 24);
}

#[test]
fn word_is_the_pointer_size() {
    assert_eq!(WORD_SIZE, std::mem::size_of::<usize>());
}

#[test]
fn padded_payload_rounds_and_floors() {
    assert_eq!(padded_payload(0), Some(MIN_BLOCK_SIZE));
    assert_eq!(padded_payload(1), Some(24));
    assert_eq!(padded_payload(24), Some(24));
    assert_eq!(padded_payload(25), Some(32));
    assert_eq!(padded_payload(128), Some(128));
    assert_eq!(padded_payload(129), Some(136));
    assert_eq!(padded_payload(264), Some(264));
}

#[test]
fn padded_payload_gives_up_near_the_top() {
    assert_eq!(padded_payload(usize::MAX - 8), Some(usize::MAX - 7));
    assert_eq!(MAX_REQUEST, usize::MAX - 8);
    assert_eq!(padded_payload(MAX_REQUEST + 1), None);
    assert_eq!(padded_payload(usize::MAX), None);
}
