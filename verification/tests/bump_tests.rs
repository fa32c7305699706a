use basealloc::bump::{Bump, Chunk, ChunkError, CHUNK_HEADER_SIZE};
use basealloc::fixed::{Fixed, FixedError};
use basealloc::layout::Layout;
use basealloc::system::{MemSlice, SysError, SysOption, SysResult, System, UnsupportedSystem};
use basealloc::extent::ExtentError;
use basealloc::CHUNK_SIZE;
use std::cell::Cell;

/// A host that hands out consecutive page-aligned ranges and counts what it is asked.
struct Host {
    next: Cell<usize>,
    mapped: Cell<usize>,
    released: Cell<usize>,
    committed: Cell<usize>,
    reclaimed: Cell<usize>,
    budget: Cell<usize>,
}

impl Host {
    fn new() -> Self {
        Host {
            next: Cell::new(0x1000_0000),
            mapped: Cell::new(0),
            released: Cell::new(0),
            committed: Cell::new(0),
            reclaimed: Cell::new(0),
            budget: Cell::new(usize::MAX),
        }
    }
}

impl System for Host {
    fn allocate(&self, size: usize, _options: SysOption) -> SysResult<MemSlice> {
        if size % 4096 != 0 {
            return Err(SysError::InvalidArgument);
        }
        if self.budget.get() == 0 {
            return Err(SysError::OutOfMemory);
        }
        self.budget.set(self.budget.get() - 1);
        let base = self.next.get();
        self.next.set(base + size + 4096);
        self.mapped.set(self.mapped.get() + 1);
        Ok(MemSlice { base, len: size })
    }

    fn modify(&self, _slice: MemSlice, options: SysOption) -> SysResult<()> {
        match options {
            SysOption::Reclaim => self.reclaimed.set(self.reclaimed.get() + 1),
            _ => self.committed.set(self.committed.get() + 1),
        }
        Ok(())
    }

    fn dealloc(&self, _slice: MemSlice) -> SysResult<()> {
        self.released.set(self.released.get() + 1);
        Ok(())
    }
}

#[test]
fn chunk_allocate() {
    let host = Host::new();
    let mut chunk = Chunk::new(&host, CHUNK_SIZE).unwrap();
    {
        let layout = Layout::from_size_align(64, 8).unwrap();
        let slice = chunk.allocate(layout).unwrap();
        assert_eq!(slice.len(), 64);
        assert_eq!(slice.as_ptr() % 8, 0);
    }
}

#[test]
fn chunk_out_of_memory() {
    let host = Host::new();
    let mut chunk = Chunk::new(&host, CHUNK_SIZE).unwrap();
    let oversized = Layout::from_size_align(CHUNK_SIZE, 1).unwrap();
    let result = chunk.allocate(oversized);
    assert!(matches!(result, Err(ChunkError::FixedError(FixedError::OutOfMemory))));
}

#[test]
fn bump_new() {
    let bump = Bump::new(CHUNK_SIZE);
    assert_eq!(bump.chunk_size(), CHUNK_SIZE);
}

#[test]
fn bump_allocate() {
    let host = Host::new();
    let mut bump = Bump::new(CHUNK_SIZE);
    {
        let layout = Layout::from_size_align(64, 8).unwrap();
        let slice = bump.allocate(&host, layout).unwrap();
        assert_eq!(slice.len(), 64);
        assert_eq!(slice.as_ptr() % 8, 0);
    }
}

#[test]
fn bump_multiple_chunks() {
    let host = Host::new();
    let mut bump = Bump::new(CHUNK_SIZE);
    let half = Layout::from_size_align(CHUNK_SIZE / 2, 1).unwrap();
    let _slice1 = bump.allocate(&host, half).unwrap();
    {
        let slice2 = bump.allocate(&host, half).unwrap();
        assert_eq!(slice2.len(), CHUNK_SIZE / 2);
    }
    assert_eq!(bump.chunk_count(), 2);
}

#[test]
fn bump_drop() {
    let host = Host::new();
    let bump = Bump::new(CHUNK_SIZE);
    assert_eq!(bump.release(&host), 0);
}

#[test]
fn fixed_allocation_alignment() {
    let storage = MemSlice { base: 0x4000_0008, len: 128 };
    let mut fixed = Fixed::new(&storage);
    let layout = Layout::from_size_align(24, 16).unwrap();
    let expected_len = layout.size();

    let (first_addr, first_len) = {
        let first = fixed.allocate(&storage, layout).unwrap();
        let addr = first.as_ptr();
        let len = first.len();
        assert_eq!(addr % layout.align(), 0);
        assert_eq!(len, expected_len);
        (addr, len)
    };

    let second_layout = Layout::from_size_align(8, 8).unwrap();
    let expected_second_len = second_layout.size();
    let second = fixed.allocate(&storage, second_layout).unwrap();

    assert_eq!(second.as_ptr() % second_layout.align(), 0);
    assert_eq!(second.len(), expected_second_len);
    assert!(second.as_ptr() >= first_addr + first_len);
    // the first block starts at the first multiple of sixteen in the buffer
    assert_eq!(first_addr, 0x4000_0010);
    assert_eq!(second.as_ptr(), 0x4000_0028);
}

#[test]
fn fixed_reports_oom() {
    let storage = MemSlice { base: 0x4000_0000, len: 64 };
    let mut fixed = Fixed::new(&storage);
    let layout = Layout::from_size_align(32, 1).unwrap();

    {
        let _ = fixed.allocate(&storage, layout).unwrap();
    }
    {
        let _ = fixed.allocate(&storage, layout).unwrap();
    }

    let err = fixed.allocate(&storage, Layout::from_size_align(1, 1).unwrap()).unwrap_err();
    assert!(matches!(err, FixedError::OutOfMemory));
}

#[test]
fn bump_allocation_alignment() {
    let host = Host::new();
    let mut bump = Bump::new(0);
    let layout = Layout::from_size_align(48, 16).unwrap();
    let expected_len = layout.size();

    let slice = bump.allocate(&host, layout).unwrap();
    assert_eq!(slice.as_ptr() % layout.align(), 0);
    assert_eq!(slice.len(), expected_len);
}

#[test]
fn bump_grows_chunks() {
    let host = Host::new();
    let mut bump = Bump::new(0);
    let layout = Layout::from_size_align(512, 8).unwrap();

    let first_addr = {
        let slice = bump.allocate(&host, layout).unwrap();
        slice.as_ptr()
    };

    let second_addr = {
        let slice = bump.allocate(&host, layout).unwrap();
        slice.as_ptr()
    };

    assert_ne!(first_addr, second_addr);
}

#[test]
fn bump_create_zeroed() {
    // a struct of two u32: eight bytes, aligned to four
    let host = Host::new();
    let mut bump = Bump::new(0);
    let sample = Layout::from_size_align(8, 4).unwrap();
    let ptr = bump.create(&host, sample).unwrap();
    assert_ne!(ptr, 0);
    assert_eq!(ptr % 4, 0);
}

#[test]
fn bump_serves_from_the_newest_chunk() {
    let host = Host::new();
    let mut bump = Bump::new(8192);
    let layout = Layout::from_size_align(4000, 8).unwrap();
    let a = bump.allocate(&host, layout).unwrap();
    assert_eq!(bump.chunk_count(), 1);
    assert_eq!(a.as_ptr(), 0x1000_0000 + CHUNK_HEADER_SIZE);
    let b = bump.allocate(&host, layout).unwrap();
    assert_eq!(bump.chunk_count(), 1);
    assert_eq!(b.as_ptr(), a.as_ptr() + 4000);
    // the third block does not fit the first chunk any more
    let c = bump.allocate(&host, layout).unwrap();
    assert_eq!(bump.chunk_count(), 2);
    assert_eq!(c.as_ptr(), 0x1000_0000 + 8192 + 4096 + CHUNK_HEADER_SIZE);
    assert_eq!(host.mapped.get(), 2);
    // a block larger than the chunk size gets a chunk of its own size
    let big = bump.allocate(&host, Layout::from_size_align(100_000, 64).unwrap()).unwrap();
    assert_eq!(big.len(), 100_000);
    assert_eq!(big.as_ptr() % 64, 0);
    assert_eq!(bump.chunk_count(), 3);
    assert_eq!(bump.release(&host), 3);
    assert_eq!(host.released.get(), 3);
}

#[test]
fn bump_reports_the_host_refusal() {
    let mut bump = Bump::new(4096);
    let layout = Layout::from_size_align(16, 8).unwrap();
    assert_eq!(
        bump.allocate(&UnsupportedSystem {}, layout),
        Err(ChunkError::ExtentError(ExtentError::SystemError(SysError::Unsupported)))
    );
    assert_eq!(bump.chunk_count(), 0);
    let host = Host::new();
    assert_eq!(Chunk::new(&host, 0).err(), Some(ChunkError::FixedError(FixedError::OutOfMemory)));
}

#[test]
fn fixed_rejects_what_overflows() {
    let storage = MemSlice { base: usize::MAX - 100, len: 64 };
    let mut fixed = Fixed::new(&storage);
    let wide = Layout::from_size_align(8, 4096).unwrap();
    assert_eq!(fixed.allocate(&storage, wide), Err(FixedError::Invalid));
    assert_eq!(fixed.create(&storage, Layout::from_size_align(8, 1).unwrap()), Ok(usize::MAX - 100));
    assert!(Layout::from_size_align(8, 3).is_err());
    assert!(Layout::from_size_align(8, 0).is_err());
    assert!(Layout::from_size_align(isize::MAX as usize, 2).is_err());
    assert!(Layout::from_size_align(isize::MAX as usize, 1).is_ok());
}
