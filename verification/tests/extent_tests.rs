use basealloc::extent::{Extent, ExtentError};
use basealloc::misc::Giveup;
use basealloc::prim::page_size;
use basealloc::system::{MemSlice, SysError, SysOption, SysResult, System, UnsupportedSystem};
use std::cell::Cell;
use std::cmp::Ordering;

/// A host that hands out consecutive page-aligned ranges and counts what it is asked.
struct Host {
    next: Cell<usize>,
    released: Cell<usize>,
    modified: Cell<usize>,
}

impl Host {
    fn new() -> Self {
        Host { next: Cell::new(0x1000_0000), released: Cell::new(0), modified: Cell::new(0) }
    }
}

impl System for Host {
    fn allocate(&self, size: usize, _options: SysOption) -> SysResult<MemSlice> {
        if size % 4096 != 0 {
            return Err(SysError::InvalidArgument);
        }
        let base = self.next.get();
        self.next.set(base + size + 4096);
        Ok(MemSlice { base, len: size })
    }

    fn modify(&self, _slice: MemSlice, _options: SysOption) -> SysResult<()> {
        self.modified.set(self.modified.get() + 1);
        Ok(())
    }

    fn dealloc(&self, _slice: MemSlice) -> SysResult<()> {
        self.released.set(self.released.get() + 1);
        Ok(())
    }
}

#[test]
fn tests_test_extent_new() {
    let host = Host::new();
    let ps = page_size();
    let extent = Extent::new(&host, ps, SysOption::Commit);
    assert!(extent.is_ok());
    let extent = extent.unwrap();
    assert_eq!(extent.as_ref().len(), ps);
}

#[test]
fn tests_test_extent_zero_size() {
    let host = Host::new();
    let extent = Extent::new(&host, 0, SysOption::Commit);
    assert!(extent.is_ok());
    let extent = extent.unwrap();
    assert_eq!(extent.as_ref().len(), 0);
}

#[test]
fn tests_test_extent_as_ref() {
    let host = Host::new();
    let ps = page_size();
    let extent = Extent::new(&host, ps, SysOption::Commit).unwrap();
    let slice = extent.as_ref();
    assert_eq!(slice.len(), ps);
}

#[test]
fn tests_test_extent_as_mut() {
    let host = Host::new();
    let ps = page_size();
    let mut extent = Extent::new(&host, ps, SysOption::Commit).unwrap();
    let slice = extent.as_mut();
    assert_eq!(slice.len(), ps);
}

#[test]
fn tests_test_extent_check_valid() {
    let host = Host::new();
    let ps = page_size();
    let extent = Extent::new(&host, ps, SysOption::Commit).unwrap();
    assert!(extent.check(0..ps / 2).is_ok());
    assert!(extent.check(0..ps).is_ok());
    assert!(extent.check(100..100).is_ok());
}

#[test]
fn tests_test_extent_check_invalid() {
    let host = Host::new();
    let ps = page_size();
    let extent = Extent::new(&host, ps, SysOption::Commit).unwrap();
    assert!(matches!(extent.check(0..ps + 1), Err(ExtentError::OutOfBounds)));
    assert!(matches!(extent.check(100..50), Err(ExtentError::OutOfBounds)));
    assert!(matches!(extent.check(ps + 1..ps + 2), Err(ExtentError::OutOfBounds)));
}

#[test]
fn tests_test_extent_drop() {
    let host = Host::new();
    let ps = page_size();
    let extent = Extent::new(&host, ps, SysOption::Commit).unwrap();
    assert!(extent.release(&host).is_ok());
    assert_eq!(host.released.get(), 1);
}

#[test]
fn tests_test_extent_giveup() {
    let host = Host::new();
    let ps = page_size();
    let extent = Extent::new(&host, ps, SysOption::Commit).unwrap();
    let len = extent.as_ref().len();
    let extent2 = extent.giveup();
    assert_eq!(extent2.as_ref().len(), len);
}

#[test]
fn extent_test_extent_new() {
    let host = Host::new();
    let ps = page_size();
    let extent = Extent::new(&host, ps, SysOption::Commit);
    assert!(extent.is_ok());
    let extent = extent.unwrap();
    assert_eq!(extent.as_ref().len(), ps);
}

#[test]
fn extent_test_extent_zero_size() {
    let host = Host::new();
    let extent = Extent::new(&host, 0, SysOption::Commit);
    assert!(extent.is_ok());
    let extent = extent.unwrap();
    assert_eq!(extent.as_ref().len(), 0);
}

#[test]
fn extent_test_extent_as_ref() {
    let host = Host::new();
    let ps = page_size();
    let extent = Extent::new(&host, ps, SysOption::Commit).unwrap();
    let slice = extent.as_ref();
    assert_eq!(slice.len(), ps);
}

#[test]
fn extent_test_extent_as_mut() {
    let host = Host::new();
    let ps = page_size();
    let mut extent = Extent::new(&host, ps, SysOption::Commit).unwrap();
    let slice = extent.as_mut();
    assert_eq!(slice.len(), ps);
}

#[test]
fn extent_test_extent_check_valid() {
    let host = Host::new();
    let ps = page_size();
    let extent = Extent::new(&host, ps, SysOption::Commit).unwrap();
    assert!(extent.check(0..ps / 2).is_ok());
    assert!(extent.check(0..ps).is_ok());
    assert!(extent.check(100..100).is_ok());
}

#[test]
fn extent_test_extent_check_invalid() {
    let host = Host::new();
    let ps = page_size();
    let extent = Extent::new(&host, ps, SysOption::Commit).unwrap();
    assert!(matches!(extent.check(0..ps + 1), Err(ExtentError::OutOfBounds)));
    assert!(matches!(extent.check(100..50), Err(ExtentError::OutOfBounds)));
    assert!(matches!(extent.check(ps + 1..ps + 2), Err(ExtentError::OutOfBounds)));
}

#[test]
fn extent_test_extent_drop() {
    let host = Host::new();
    let ps = page_size();
    let extent = Extent::new(&host, ps, SysOption::Commit).unwrap();
    assert!(extent.release(&host).is_ok());
    assert_eq!(host.released.get(), 1);
}

#[test]
fn extent_test_extent_giveup() {
    let host = Host::new();
    let ps = page_size();
    let extent = Extent::new(&host, ps, SysOption::Commit).unwrap();
    let len = extent.as_ref().len();
    let extent2 = extent.giveup();
    assert_eq!(extent2.as_ref().len(), len);
}

#[test]
fn test_unsupported_system_alloc() {
    let size = 4096;
    let result = UnsupportedSystem {}.allocate(size, SysOption::Commit);
    assert!(result.is_err(), "Should fail on unsupported systems");
    if let Err(error) = result {
        assert!(matches!(error, SysError::Unsupported), "Should return Unsupported");
    }
}

#[test]
fn test_unsupported_system_modify() {
    let dummy = MemSlice { base: 0x1000, len: 4096 };
    let result = UnsupportedSystem {}.modify(dummy, SysOption::Commit);
    assert!(result.is_err(), "Should fail on unsupported systems");
    if let Err(error) = result {
        assert!(matches!(error, SysError::Unsupported), "Should return Unsupported");
    }
}

#[test]
fn test_unsupported_system_dealloc() {
    let dummy = MemSlice { base: 0x1000, len: 4096 };
    let result = UnsupportedSystem {}.dealloc(dummy);
    assert!(result.is_err(), "Should fail on unsupported systems");
    if let Err(error) = result {
        assert!(matches!(error, SysError::Unsupported), "Should return Unsupported");
    }
}

#[test]
fn extent_on_a_host_without_memory() {
    let r = Extent::new(&UnsupportedSystem {}, 4096, SysOption::Commit);
    assert_eq!(r, Err(ExtentError::SystemError(SysError::Unsupported)));
}

#[test]
fn extent_activation_follows_the_host() {
    let host = Host::new();
    let mut reserved = Extent::new(&host, 8192, SysOption::Reserve).unwrap();
    assert!(!reserved.is_activated());
    assert_eq!(reserved.activate(&host), Ok(()));
    assert!(reserved.is_activated());
    assert_eq!(reserved.deactivate(&host), Ok(()));
    assert!(!reserved.is_activated());
    assert_eq!(host.modified.get(), 2);
    let committed = Extent::new(&host, 4096, SysOption::Commit).unwrap();
    assert!(committed.is_activated());
    assert_eq!(committed.size(), 4096);
    assert_eq!(Extent::ord(&committed, &reserved), Ordering::Less);
    assert_eq!(Extent::ord(&reserved, &committed), Ordering::Greater);
    assert_eq!(Extent::ord(&reserved, &reserved), Ordering::Equal);
    let mut refused = Extent::new(&host, 4096, SysOption::Reserve).unwrap();
    assert_eq!(
        refused.activate(&UnsupportedSystem {}),
        Err(ExtentError::SystemError(SysError::Unsupported))
    );
    assert!(!refused.is_activated());
}

#[test]
fn giveup_through_the_trait_never_fails() {
    let host = Host::new();
    let ps = page_size();
    let extent = Extent::new(&host, ps, SysOption::Commit).unwrap();
    let range = *extent.as_ref();
    let handed = <Extent as Giveup>::giveup(extent);
    assert!(handed.is_ok());
    assert_eq!(*handed.unwrap().as_ref(), range);
}

#[test]
fn extent_follows_the_answer_of_the_host() {
    let range = MemSlice { base: 0x4000, len: 8192 };
    let mapped = Extent::from_mapping(Ok(range), SysOption::Commit).unwrap();
    assert_eq!(*mapped.as_ref(), range);
    assert!(mapped.is_activated());
    let reserved = Extent::from_mapping(Ok(range), SysOption::Reserve).unwrap();
    assert!(!reserved.is_activated());
    assert_eq!(
        Extent::from_mapping(Err(SysError::OutOfMemory), SysOption::Commit),
        Err(ExtentError::SystemError(SysError::OutOfMemory))
    );

    let mut kept = mapped;
    assert_eq!(
        kept.after_reclaim(Err(SysError::InvalidArgument)),
        Err(ExtentError::SystemError(SysError::InvalidArgument))
    );
    assert!(kept.is_activated());
    assert_eq!(kept.after_reclaim(Ok(())), Ok(()));
    assert!(!kept.is_activated());
    assert_eq!(*kept.as_ref(), range);

    assert_eq!(Extent::after_release(Ok(())), Ok(()));
    assert_eq!(
        Extent::after_release(Err(SysError::Unsupported)),
        Err(ExtentError::SystemError(SysError::Unsupported))
    );
}
