use basealloc::classes::{
    cache_for, class_at, class_for, generate_cache_sizes, generate_classes, generate_pages,
    generate_tiny_lookup, gcd, log2c, pages_for, total_cache_size, CacheSize, SizeClass,
    SizeClassIndex, SlabSize, CACHE_MAX, CACHE_MIN, FIRST_REGULAR, NGROUPS, NSCLASSES, NTINY, QUANTUM,
    SCLASS_CUTOFF, TINY_CUTOFF,
};
use basealloc::prim::page_size;

#[test]
fn constants_are_valid() {
    assert_eq!(QUANTUM, 16);
    assert_eq!(NGROUPS, 4);
    assert_eq!(NTINY, 64);
    assert_eq!(TINY_CUTOFF, 1024);
    assert_eq!(FIRST_REGULAR, 10);
    assert_eq!(SCLASS_CUTOFF, 2097152);
    assert!(NSCLASSES > 0 && NSCLASSES < 256);
}

#[test]
fn classes_are_monotonic() {
    let classes = generate_classes();
    for i in 1..NSCLASSES {
        let SizeClass(prev, _) = classes[i - 1];
        let SizeClass(curr, _) = classes[i];
        assert!(curr > prev, "class[{}]={} not > class[{}]={}", i, curr, i - 1, prev);
    }
}

#[test]
fn tiny_classes_correct() {
    let classes = generate_classes();
    for i in 0..NTINY {
        let SizeClass(size, _) = classes[i];
        assert_eq!(size, (i + 1) * QUANTUM);
    }
}

#[test]
fn class_for_boundary_cases() {
    assert_eq!(class_for(0), None);
    assert_eq!(class_for(SCLASS_CUTOFF), None);
    assert_eq!(class_for(SCLASS_CUTOFF + 1), None);

    let SizeClassIndex(idx) = class_for(1).unwrap();
    assert_eq!(idx, 0);

    let SizeClassIndex(idx) = class_for(QUANTUM).unwrap();
    assert_eq!(idx, 0);

    let SizeClassIndex(idx) = class_for(QUANTUM + 1).unwrap();
    assert_eq!(idx, 1);
}

#[test]
fn class_for_all_sizes_valid() {
    let classes = generate_classes();
    for idx in 0..NSCLASSES {
        let SizeClass(size, _) = classes[idx];

        if size >= SCLASS_CUTOFF {
            assert_eq!(class_for(size), None, "size {} should not have a class (>= SCLASS_CUTOFF)", size);
            continue;
        }

        let result = class_for(size);
        assert!(result.is_some(), "size {} (class {}) should have a class", size, idx);

        if idx > 0 {
            let SizeClass(prev_size, _) = classes[idx - 1];
            if prev_size + 1 < SCLASS_CUTOFF {
                let SizeClassIndex(found_idx) = class_for(prev_size + 1).unwrap();
                assert_eq!(found_idx, idx, "size {} should map to class {}", prev_size + 1, idx);
            }
        }
    }
}

#[test]
fn regular_classes_exponential() {
    let classes = generate_classes();
    for i in NTINY + 1..NSCLASSES {
        let SizeClass(size, _) = classes[i];
        assert!(size > TINY_CUTOFF);
    }
}

#[test]
fn page_sizes_are_multiples() {
    let pages = generate_pages();
    let ps = page_size();

    for (i, page) in pages.iter().enumerate() {
        let SlabSize(page_bytes) = *page;
        assert!(page_bytes > 0, "page size for class {} is zero", i);
        assert_eq!(page_bytes % ps, 0, "page size {} not multiple of page_size {}", page_bytes, ps);
    }
}

#[test]
fn page_sizes_minimize_waste() {
    let pages = generate_pages();
    let classes = generate_classes();

    for (i, page) in pages.iter().enumerate() {
        let SizeClass(class_size, _) = classes[i];
        let SlabSize(page_bytes) = *page;

        let objects_per_page = page_bytes / class_size;
        assert!(objects_per_page > 0, "class {} size {} too large for page {}", i, class_size, page_bytes);

        let waste = page_bytes - (objects_per_page * class_size);
        assert!(waste < class_size, "waste {} >= class_size {} for class {}", waste, class_size, i);
    }
}

#[test]
fn class_table_matches_class_at() {
    let classes = generate_classes();
    let pages = generate_pages();
    let caches = generate_cache_sizes();
    assert_eq!(classes.len(), NSCLASSES);
    for i in 0..NSCLASSES {
        assert_eq!(classes[i], class_at(SizeClassIndex(i)));
        assert_eq!(classes[i].1, SizeClassIndex(i));
        assert_eq!(pages[i], pages_for(SizeClassIndex(i)));
        assert_eq!(caches[i], cache_for(SizeClassIndex(i)));
    }
    assert_eq!(class_at(SizeClassIndex(0)).0, 16);
    assert_eq!(class_at(SizeClassIndex(63)).0, 1024);
    assert_eq!(class_at(SizeClassIndex(64)).0, 1280);
    assert_eq!(class_at(SizeClassIndex(67)).0, 2048);
    assert_eq!(class_at(SizeClassIndex(68)).0, 2560);
    assert_eq!(class_at(SizeClassIndex(107)).0, 2097152);
}

#[test]
fn class_for_serves_every_size() {
    let classes = generate_classes();
    for size in 1..SCLASS_CUTOFF {
        let SizeClassIndex(c) = class_for(size).unwrap();
        assert!(classes[c].0 >= size);
        if c > 0 {
            assert!(classes[c - 1].0 < size, "size {}", size);
        }
    }
    // a power of two is served by the class of its own size
    assert_eq!(class_for(2048), Some(SizeClassIndex(67)));
    assert_eq!(class_for(2049), Some(SizeClassIndex(68)));
    assert_eq!(class_for(2047), Some(SizeClassIndex(67)));
    assert_eq!(class_for(1280), Some(SizeClassIndex(64)));
    assert_eq!(class_for(1281), Some(SizeClassIndex(65)));
    assert_eq!(class_for(1024), Some(SizeClassIndex(63)));
    assert_eq!(class_for(1025), Some(SizeClassIndex(64)));
    assert_eq!(class_for(SCLASS_CUTOFF - 1), Some(SizeClassIndex(107)));
}

#[test]
fn tiny_lookup_is_the_tiny_class() {
    let table = generate_tiny_lookup();
    assert_eq!(table.len(), 64);
    for size in 1..=TINY_CUTOFF {
        assert_eq!(class_for(size), Some(SizeClassIndex(table[(size - 1) >> 4] as usize)));
    }
}

#[test]
fn slab_and_cache_geometry() {
    assert_eq!(pages_for(SizeClassIndex(0)), SlabSize(4096));
    assert_eq!(pages_for(SizeClassIndex(2)), SlabSize(3 * 4096));
    assert_eq!(pages_for(SizeClassIndex(63)), SlabSize(4096));
    assert_eq!(pages_for(SizeClassIndex(64)), SlabSize(5 * 4096));
    assert_eq!(pages_for(SizeClassIndex(107)), SlabSize(2097152));
    for i in 0..NSCLASSES {
        let SlabSize(bytes) = pages_for(SizeClassIndex(i));
        let SizeClass(size, _) = class_at(SizeClassIndex(i));
        assert_eq!(bytes % 4096, 0);
        assert_eq!(bytes % size, 0);
        assert!(bytes / size >= 1);
        let CacheSize(slots) = cache_for(SizeClassIndex(i));
        assert_eq!(slots, (SCLASS_CUTOFF / size).clamp(CACHE_MIN, CACHE_MAX));
    }
    assert_eq!(cache_for(SizeClassIndex(0)), CacheSize(200));
    assert_eq!(cache_for(SizeClassIndex(107)), CacheSize(8));
    let total: usize = (0..NSCLASSES).map(|i| cache_for(SizeClassIndex(i)).0 * 8).sum();
    assert_eq!(total_cache_size(), total);
}

#[test]
fn gcd_and_log2c_values() {
    assert_eq!(gcd(4096, 48), 16);
    assert_eq!(gcd(48, 4096), 16);
    assert_eq!(gcd(0, 7), 7);
    assert_eq!(gcd(7, 0), 7);
    assert_eq!(gcd(17, 5), 1);
    assert_eq!(log2c(1), 0);
    assert_eq!(log2c(2), 1);
    assert_eq!(log2c(3), 2);
    assert_eq!(log2c(1024), 10);
    assert_eq!(log2c(1025), 11);
}
