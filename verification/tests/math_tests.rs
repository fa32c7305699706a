use basealloc::math::{align_down, align_mut_ptr, align_offset, align_ptr, align_up, is_aligned};

#[test]
fn test_is_aligned() {
    assert_eq!(is_aligned(0, 1), Some(true));
    assert_eq!(is_aligned(0, 2), Some(true));
    assert_eq!(is_aligned(0, 4), Some(true));
    assert_eq!(is_aligned(0, 8), Some(true));

    assert_eq!(is_aligned(1, 1), Some(true));
    assert_eq!(is_aligned(1, 2), Some(false));
    assert_eq!(is_aligned(1, 4), Some(false));

    assert_eq!(is_aligned(2, 2), Some(true));
    assert_eq!(is_aligned(2, 4), Some(false));

    assert_eq!(is_aligned(4, 4), Some(true));
    assert_eq!(is_aligned(4, 8), Some(false));

    assert_eq!(is_aligned(8, 8), Some(true));

    assert_eq!(is_aligned(16, 16), Some(true));
    assert_eq!(is_aligned(15, 16), Some(false));
    assert_eq!(is_aligned(17, 16), Some(false));

    assert_eq!(is_aligned(100, 3), None);
    assert_eq!(is_aligned(100, 5), None);
    assert_eq!(is_aligned(100, 6), None);
}

#[test]
fn test_align_up() {
    assert_eq!(align_up(0, 1), Some(0));
    assert_eq!(align_up(0, 2), Some(0));
    assert_eq!(align_up(0, 4), Some(0));
    assert_eq!(align_up(0, 8), Some(0));

    assert_eq!(align_up(1, 1), Some(1));
    assert_eq!(align_up(1, 2), Some(2));
    assert_eq!(align_up(1, 4), Some(4));
    assert_eq!(align_up(1, 8), Some(8));

    assert_eq!(align_up(2, 2), Some(2));
    assert_eq!(align_up(3, 2), Some(4));
    assert_eq!(align_up(2, 4), Some(4));
    assert_eq!(align_up(3, 4), Some(4));
    assert_eq!(align_up(4, 4), Some(4));
    assert_eq!(align_up(5, 4), Some(8));

    assert_eq!(align_up(7, 8), Some(8));
    assert_eq!(align_up(8, 8), Some(8));
    assert_eq!(align_up(9, 8), Some(16));

    assert_eq!(align_up(15, 16), Some(16));
    assert_eq!(align_up(16, 16), Some(16));
    assert_eq!(align_up(17, 16), Some(32));

    assert_eq!(align_up(100, 3), None);
    assert_eq!(align_up(100, 5), None);
    assert_eq!(align_up(100, 6), None);
}

#[test]
fn test_align_ptr() {
    let ptr: usize = 0x7f00_1003;

    assert!(align_ptr(ptr, 1).is_some());
    assert!(align_ptr(ptr, 2).is_some());
    assert!(align_ptr(ptr, 4).is_some());
    assert!(align_ptr(ptr, 8).is_some());

    assert!(align_ptr(ptr, 3).is_none());
    assert!(align_ptr(ptr, 5).is_none());

    let aligned = align_ptr(ptr, 8).unwrap();
    assert!(is_aligned(aligned, 8) == Some(true));
    assert!(aligned >= ptr);
}

#[test]
fn test_align_down() {
    assert_eq!(align_down(0, 8), Some(0));
    assert_eq!(align_down(7, 8), Some(0));
    assert_eq!(align_down(8, 8), Some(8));
    assert_eq!(align_down(15, 8), Some(8));
    assert_eq!(align_down(16, 8), Some(16));

    assert_eq!(align_down(123, 64), Some(64));
    assert_eq!(align_down(256, 64), Some(256));

    assert_eq!(align_down(100, 3), None);
}

#[test]
fn test_align_mut_ptr() {
    let ptr: usize = 0x7f00_2005;

    assert!(align_mut_ptr(ptr, 1).is_some());
    assert!(align_mut_ptr(ptr, 2).is_some());
    assert!(align_mut_ptr(ptr, 4).is_some());
    assert!(align_mut_ptr(ptr, 8).is_some());

    assert!(align_mut_ptr(ptr, 3).is_none());
    assert!(align_mut_ptr(ptr, 5).is_none());

    let aligned = align_mut_ptr(ptr, 8).unwrap();
    assert!(is_aligned(aligned, 8) == Some(true));
    assert!(aligned >= ptr);
}

#[test]
fn test_alignment_edge_cases() {
    assert_eq!(align_up(usize::MAX - 6, 8), None);
    assert_eq!(align_up(usize::MAX, 8), None);

    let max_align = 1usize << (usize::BITS - 1);
    assert_eq!(is_aligned(0, max_align), Some(true));
    assert_eq!(is_aligned(1, max_align), Some(false));
    assert_eq!(align_up(0, max_align), Some(0));
    assert_eq!(align_up(1, max_align), Some(max_align));
    assert_eq!(align_up(max_align + 1, max_align), None);
}

#[test]
fn test_align_offset() {
    assert_eq!(align_offset(0, 8), Some(0));
    assert_eq!(align_offset(1, 8), Some(7));
    assert_eq!(align_offset(7, 8), Some(1));
    assert_eq!(align_offset(8, 8), Some(0));
    assert_eq!(align_offset(9, 8), Some(7));

    assert_eq!(align_offset(0, 16), Some(0));
    assert_eq!(align_offset(1, 16), Some(15));
    assert_eq!(align_offset(15, 16), Some(1));
    assert_eq!(align_offset(16, 16), Some(0));

    assert_eq!(align_offset(100, 3), None);
    assert_eq!(align_offset(usize::MAX, 8), None);
}

fn place_in_buffer(buffer_start: usize, buffer_len: usize, size: usize, align: usize) -> Option<usize> {
    let offset = align_offset(buffer_start, align)?;
    if offset + size <= buffer_len {
        Some(buffer_start + offset)
    } else {
        None
    }
}

#[test]
fn test_struct_alignment_in_buffer() {
    // a struct of a u64 and a u32: sixteen bytes, aligned to eight
    let placed = place_in_buffer(0x5000_0001, 64, 16, 8).expect("Buffer should fit aligned struct");
    assert!(placed % 8 == 0);
    assert!(placed >= 0x5000_0001);
    assert!(placed + 16 <= 0x5000_0001 + 64);
}

#[test]
fn test_aligned_struct_placement() {
    let placed = place_in_buffer(0x5000_0003, 128, 16, 16).expect("Should place 16-byte aligned struct");
    assert_eq!(placed % 16, 0);
    assert_eq!(placed, 0x5000_0010);
}

#[test]
fn align_ptr_refuses_null() {
    assert_eq!(align_ptr(0, 8), None);
    assert_eq!(align_ptr(1, 8), Some(8));
}

#[test]
fn align_up_is_least_multiple() {
    for value in 0usize..200 {
        for shift in 0..6 {
            let align = 1usize << shift;
            let up = align_up(value, align).unwrap();
            assert_eq!(up % align, 0);
            assert!(up >= value && up < value + align);
            let down = align_down(value, align).unwrap();
            assert_eq!(down % align, 0);
            assert!(down <= value && value < down + align);
        }
    }
}
