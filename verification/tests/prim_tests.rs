use basealloc::prim::{
    is_page_aligned, min_align, page_align, page_align_down, page_size, va_size, word_width, PrimError,
};

#[test]
fn test_word_width() {
    assert_eq!(word_width(), core::mem::size_of::<usize>());
}

#[test]
fn test_min_align() {
    assert_eq!(min_align(), core::mem::align_of::<u128>());
}

#[test]
fn test_page_size() {
    let size = page_size();
    assert!(size > 0);
    assert!(size.is_power_of_two());
    assert_eq!(page_size(), size);
}

#[test]
fn test_page_align() {
    let ps = page_size();
    assert_eq!(page_align(0), Ok(0));
    assert_eq!(page_align(1), Ok(ps));
    assert_eq!(page_align(ps), Ok(ps));
    assert_eq!(page_align(ps + 1), Ok(ps * 2));
    assert_eq!(page_align(ps - 1), Ok(ps));

    assert!(matches!(page_align(usize::MAX), Err(PrimError::Overflow)));
    assert!(matches!(page_align(usize::MAX - ps + 2), Err(PrimError::Overflow)));
}

#[test]
fn test_is_page_aligned() {
    let ps = page_size();
    assert_eq!(is_page_aligned(0), Ok(true));
    assert_eq!(is_page_aligned(1), Ok(false));
    assert_eq!(is_page_aligned(ps), Ok(true));
    assert_eq!(is_page_aligned(ps + 1), Ok(false));
    assert_eq!(is_page_aligned(ps - 1), Ok(false));
    assert_eq!(is_page_aligned(ps * 2), Ok(true));
}

#[test]
fn page_align_down_values() {
    assert_eq!(page_align_down(0), Ok(0));
    assert_eq!(page_align_down(4095), Ok(0));
    assert_eq!(page_align_down(4096), Ok(4096));
    assert_eq!(page_align_down(12345), Ok(12288));
    assert_eq!(page_align_down(usize::MAX), Ok(usize::MAX - 4095));
    assert_eq!(va_size(), 48);
}
