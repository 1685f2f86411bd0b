use riskyos::lock::{Locked, SharedPages};
use riskyos::logger::{log_step, LogStep, Logger};
use riskyos::page_allocator::PageAllocator;
use riskyos::satp::{enable_virtual_memory_sv39, is_virtual_memory_enabled};
use riskyos::sbi::SbiError;
use std::sync::Arc;

const BASE: u64 = 0x8000_0000;

#[test]
fn a_locked_value_is_reached_through_its_guard() {
    let cell = Locked::new(41u32);
    {
        let mut guard = cell.lock();
        *guard += 1;
    }
    assert_eq!(*cell.lock(), 42);
}

#[test]
fn shared_pages_allocate_and_free_under_the_lock() {
    let mut mem = PageAllocator::new();
    mem.init(BASE, 8 * 4096);
    let shared = SharedPages::new(mem);
    let p0 = shared.alloc_pages(2).unwrap();
    assert_eq!(p0, BASE);
    let p1 = shared.zalloc(3).unwrap();
    assert_eq!(p1, BASE + 2 * 4096);
    assert!(shared.dealloc(p0));
    assert!(!shared.dealloc(p0));
    assert_eq!(shared.alloc_pages(2), Some(p0));
    assert_eq!(shared.alloc_pages(4), None);
    assert!(!shared.dealloc(0));
}

#[test]
fn shared_pages_refuse_an_allocator_that_is_not_initialized() {
    let shared = SharedPages::new(PageAllocator::new());
    assert_eq!(shared.alloc_pages(1), None);
    assert_eq!(shared.zalloc(1), None);
    assert!(!shared.dealloc(BASE));
}

#[test]
fn every_holder_of_the_pool_sees_the_same_frames() {
    let mut mem = PageAllocator::new();
    mem.init(BASE, 64 * 4096);
    let shared = Arc::new(SharedPages::new(mem));
    let pools: Vec<Arc<SharedPages>> = (0..4).map(|_| Arc::clone(&shared)).collect();
    let mut all = Vec::new();
    for round in 0..16 {
        for pool in &pools {
            let p = pool.alloc_pages(1).unwrap();
            assert_eq!(p % 4096, 0);
            all.push(p);
        }
        assert_eq!(all.len(), 4 * (round + 1));
    }
    all.sort();
    all.dedup();
    assert_eq!(all.len(), 64);
    assert_eq!(shared.alloc_pages(1), None);
}

#[test]
fn a_consistent_allocator_says_so() {
    let mut mem = PageAllocator::new();
    assert!(mem.is_consistent());
    mem.init(BASE, 4 * 4096);
    mem.alloc_pages(2).unwrap();
    assert!(mem.is_consistent());
}

#[test]
fn writing_stops_at_the_first_refused_byte() {
    let bytes = b"ok!";
    assert_eq!(log_step(bytes, 0, None), LogStep::Send(b'o'));
    assert_eq!(log_step(bytes, 1, Some(SbiError::Success)), LogStep::Send(b'k'));
    assert_eq!(log_step(bytes, 2, Some(SbiError::Success)), LogStep::Send(b'!'));
    assert_eq!(log_step(bytes, 3, Some(SbiError::Success)), LogStep::Done);
    assert_eq!(log_step(bytes, 1, Some(SbiError::Failed)), LogStep::Failed);
    assert_eq!(log_step(bytes, 3, Some(SbiError::Denied)), LogStep::Failed);
    assert_eq!(log_step(bytes, 2, Some(SbiError::Unknown(-40))), LogStep::Failed);
    assert_eq!(log_step(b"", 0, None), LogStep::Done);
}

struct Collect(std::sync::Mutex<Vec<u8>>);

impl Logger for Collect {
    fn write(&self, bytes: &[u8]) -> Result<(), core::fmt::Error> {
        self.0.lock().unwrap().extend_from_slice(bytes);
        Ok(())
    }
}

#[test]
fn a_logger_takes_bytes() {
    let sink = Collect(std::sync::Mutex::new(Vec::new()));
    assert!(sink.write(b"trap").is_ok());
    assert_eq!(*sink.0.lock().unwrap(), b"trap".to_vec());
}

#[test]
fn the_translation_register_holds_mode_and_frame_number() {
    assert_eq!(enable_virtual_memory_sv39(0x8020_3000), (8 << 60) | 0x80203);
    assert_eq!(enable_virtual_memory_sv39(0), 8 << 60);
    assert!(is_virtual_memory_enabled(8 << 60));
    assert!(!is_virtual_memory_enabled(0));
}
