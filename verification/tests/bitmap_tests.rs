use basealloc::bitmap::{Bitmap, BitmapError};

#[test]
fn test_multi_word_operations() {
    let storage: Vec<u64> = vec![0, 0];
    let bits = storage.len() * usize::BITS as usize;
    let mut bitmap = Bitmap::zero(storage, bits).unwrap();

    bitmap.set(0).unwrap();
    bitmap.set(63).unwrap();
    bitmap.set(64).unwrap();
    bitmap.set(99).unwrap();

    assert!(bitmap.get(0).unwrap());
    assert!(bitmap.get(63).unwrap());
    assert!(bitmap.get(64).unwrap());
    assert!(bitmap.get(99).unwrap());
    assert!(!bitmap.get(32).unwrap());
    assert!(!bitmap.get(96).unwrap());
}

#[test]
fn test_bulk_operations() {
    let storage: Vec<u64> = vec![0, 0, 0];
    let bits = storage.len() * usize::BITS as usize;
    let mut bitmap = Bitmap::zero(storage, bits).unwrap();

    bitmap.set(5).unwrap();
    bitmap.set(35).unwrap();
    bitmap.set(65).unwrap();

    assert!(bitmap.get(5).unwrap());
    assert!(bitmap.get(35).unwrap());
    assert!(bitmap.get(65).unwrap());

    bitmap.clear_all();
    assert!(!bitmap.get(5).unwrap());
    assert!(!bitmap.get(35).unwrap());
    assert!(!bitmap.get(65).unwrap());

    bitmap.set_all();
    assert!(bitmap.get(0).unwrap());
    assert!(bitmap.get(31).unwrap());
    assert!(bitmap.get(32).unwrap());
    assert!(bitmap.get(63).unwrap());
    assert!(bitmap.get(64).unwrap());
    assert!(bitmap.get(191).unwrap());
}

#[test]
fn test_search_operations() {
    let storage: Vec<u64> = vec![0, 0];
    let bits = storage.len() * usize::BITS as usize;
    let mut bitmap = Bitmap::zero(storage, bits).unwrap();

    assert_eq!(bitmap.find_fs(None), None);
    assert_eq!(bitmap.find_fc(None), Some(0));

    bitmap.set(5).unwrap();
    bitmap.set(65).unwrap();

    assert_eq!(bitmap.find_fs(None), Some(5));
    assert_eq!(bitmap.find_fc(None), Some(0));

    bitmap.set(0).unwrap();
    assert_eq!(bitmap.find_fc(None), Some(1));

    bitmap.set_all();
    assert_eq!(bitmap.find_fc(None), None);
    assert_eq!(bitmap.find_fs(None), Some(0));
}

#[test]
fn test_error_handling() {
    let bits = usize::BITS as usize;
    let err = Bitmap::zero(vec![0u64], bits + 1);
    assert!(matches!(
        err,
        Err(BitmapError::InsufficientSize { have, need }) if have < need
    ));

    let mut bitmap = Bitmap::zero(vec![0u64], bits).unwrap();

    assert!(bitmap.set(63).is_ok());
    assert!(bitmap.set(64).is_err());
    assert!(bitmap.get(64).is_err());
    assert!(bitmap.clear(64).is_err());

    let result = bitmap.check(128);
    assert!(result.is_err());
}

#[test]
fn test_partial_word_handling() {
    let bits = usize::BITS as usize;
    let mut bitmap = Bitmap::zero(vec![0u64], bits).unwrap();

    bitmap.set_all();
    for i in 0..64 {
        assert!(bitmap.get(i).unwrap());
    }

    bitmap.clear_all();
    for i in 0..64 {
        assert!(!bitmap.get(i).unwrap());
    }

    bitmap.set(63).unwrap();
    assert_eq!(bitmap.find_fs(None), Some(63));
}

#[test]
fn test_usize_word_type() {
    let storage: Vec<u64> = vec![0, 0];
    let bits = storage.len() * usize::BITS as usize;
    let mut bitmap = Bitmap::zero(storage, bits).unwrap();
    bitmap.set(7).unwrap();
    bitmap.set(64).unwrap();
    assert!(bitmap.get(7).unwrap());
    assert!(bitmap.get(64).unwrap());

    let single_bits = usize::BITS as usize;
    let mut single_bitmap = Bitmap::zero(vec![0u64], single_bits).unwrap();
    single_bitmap.set(9).unwrap();
    assert!(single_bitmap.get(9).unwrap());
    assert_eq!(single_bitmap.find_fs(None), Some(9));
}

#[test]
fn test_zero_and_one_constructors() {
    let storage: Vec<u64> = vec![0, 0];
    let bits = storage.len() * usize::BITS as usize;
    let bitmap_zero = Bitmap::zero(storage, bits).unwrap();
    assert!(bitmap_zero.is_clear());
    assert_eq!(bitmap_zero.find_fs(None), None);
    assert_eq!(bitmap_zero.find_fc(None), Some(0));

    let storage2: Vec<u64> = vec![0, 0];
    let bits2 = storage2.len() * usize::BITS as usize;
    let bitmap_one = Bitmap::one(storage2, bits2).unwrap();
    assert!(!bitmap_one.is_clear());
    assert_eq!(bitmap_one.find_fs(None), Some(0));
    assert_eq!(bitmap_one.find_fc(None), None);
}

#[test]
fn test_const_functionality() {
    let words_for_64_bits: usize = Bitmap::words(64);
    let bytes_for_64_bits: usize = Bitmap::bytes(64);

    assert_eq!(words_for_64_bits, 1);
    assert_eq!(bytes_for_64_bits, 8);

    let bitmap = Bitmap::zero(vec![0u64], 64).unwrap();

    assert_eq!(bitmap.bits(), 64);
    assert_eq!(bitmap.available(), 64);
}

#[test]
fn search_wraps_around_the_start_hint() {
    let mut bitmap = Bitmap::zero(vec![0u64, 0, 0], 130).unwrap();
    for i in 0..130 {
        bitmap.set(i).unwrap();
    }
    assert!(bitmap.is_full());
    assert!(!bitmap.one_clear());
    bitmap.clear(3).unwrap();
    bitmap.clear(70).unwrap();
    assert!(bitmap.one_clear());
    // from the hint forward first
    assert_eq!(bitmap.find_fc(Some(4)), Some(70));
    assert_eq!(bitmap.find_fc(Some(70)), Some(70));
    // then wraps to the flags below the hint
    assert_eq!(bitmap.find_fc(Some(71)), Some(3));
    assert_eq!(bitmap.find_fc(Some(129)), Some(3));
    // a hint at or past the end finds nothing
    assert_eq!(bitmap.find_fc(Some(130)), None);
    assert_eq!(bitmap.find_fs(Some(200)), None);
    // the flags past `bits` in the last word are never reported
    let tail = Bitmap::zero(vec![0u64, 0, 0], 130).unwrap();
    assert_eq!(tail.find_fc(Some(129)), Some(129));
    assert_eq!(tail.find_fs(Some(0)), None);
}

#[test]
fn set_counts_each_flag_once() {
    let mut bitmap = Bitmap::zero(vec![0u64], 10).unwrap();
    bitmap.set(4).unwrap();
    bitmap.set(4).unwrap();
    assert!(!bitmap.is_clear());
    bitmap.clear(4).unwrap();
    assert!(bitmap.is_clear());
    bitmap.clear(4).unwrap();
    assert!(bitmap.is_clear());
    assert_eq!(bitmap.set(10), Err(BitmapError::OutOfBounds { index: 10, size: 10 }));
    assert_eq!(bitmap.get(11), Err(BitmapError::OutOfBounds { index: 11, size: 10 }));
    assert_eq!(
        bitmap.check(65),
        Err(BitmapError::InsufficientSize { have: 64, need: 65 })
    );
    assert_eq!(Bitmap::words(0), 0);
    assert_eq!(Bitmap::words(65), 2);
    assert_eq!(Bitmap::bytes(129), 24);
}
