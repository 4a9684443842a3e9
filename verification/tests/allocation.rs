use etas_interpreter::allocation::{measure, AllocationEvent, AllocationMeter, Allocations};

#[test]
fn allocation_counter_distinguishes_retained_output_from_released_temporaries() {
    // `vec![7u8; 1024]` allocates its buffer and hands it out.
    let retained_cost = measure(&[AllocationEvent::Alloc(1024)]);
    assert_eq!(retained_cost.bytes, 1024);
    assert_eq!(retained_cost.released_bytes, 0);
    // dropping it releases the buffer and allocates nothing.
    let released_cost = measure(&[AllocationEvent::Dealloc(1024)]);
    assert_eq!(released_cost.bytes, 0);
    assert_eq!(released_cost.released_bytes, 1024);
}

#[test]
fn allocation_counter_includes_reallocated_old_storage_in_releases() {
    // `Vec::with_capacity(8)`, growing to 1024 by reallocation, then dropping.
    let cost = measure(&[
        AllocationEvent::Alloc(8),
        AllocationEvent::Realloc { old: 8, new: 1024, moved: true },
        AllocationEvent::Dealloc(1024),
    ]);
    assert!(cost.count >= 2);
    assert!(cost.bytes >= 1032);
    assert_eq!(cost.released_bytes, cost.bytes);
}

#[test]
fn failed_reallocation_keeps_the_old_storage() {
    let cost = measure(&[
        AllocationEvent::Alloc(16),
        AllocationEvent::Realloc { old: 16, new: 4096, moved: false },
    ]);
    assert_eq!(cost.count, 2);
    assert_eq!(cost.bytes, 16 + 4096);
    assert_eq!(cost.released_bytes, 0);
}

#[test]
fn counts_saturate_instead_of_wrapping() {
    let cost = measure(&[AllocationEvent::Alloc(usize::MAX), AllocationEvent::Alloc(5)]);
    assert_eq!(cost.count, 2);
    assert_eq!(cost.bytes, usize::MAX);
    let mut a = Allocations { count: usize::MAX, bytes: 0, released_bytes: usize::MAX - 1 };
    a.record(1);
    a.record_release(9);
    assert_eq!(a.count, usize::MAX);
    assert_eq!(a.released_bytes, usize::MAX);
}

#[test]
fn meter_counts_only_the_measured_region() {
    let mut meter = AllocationMeter::idle();
    meter.observe(AllocationEvent::Alloc(64));
    meter.start();
    meter.observe(AllocationEvent::Alloc(32));
    meter.observe(AllocationEvent::Dealloc(32));
    let region = meter.finish();
    assert_eq!(region, Allocations { count: 1, bytes: 32, released_bytes: 32 });
    assert!(meter.active.is_none());
    meter.observe(AllocationEvent::Dealloc(64));
    assert!(meter.active.is_none());
}
