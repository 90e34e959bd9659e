use kernel_bench::memory::{measure, peak_kb_of_status, Counting};

/// A counting closure that allocates `n` zero bytes and records them.
fn allocate(n: usize) -> impl FnOnce(Counting) -> (Vec<u8>, Counting) {
    move |mut c: Counting| {
        let v = vec![0u8; n];
        c.record_alloc(v.capacity());
        (v, c)
    }
}

#[test]
fn counts_a_known_allocation() {
    let mut counting = Counting::new();
    let (v, usage) = measure(&mut counting, allocate(1_000_000));
    assert_eq!(v.len(), 1_000_000);
    assert!(usage.allocs >= 1, "no allocation seen");
    assert!(usage.bytes >= 1_000_000, "reported {} bytes for a 1 MB vec", usage.bytes);
    assert!(usage.peak >= 1_000_000, "peak {} below the live 1 MB", usage.peak);
}

#[test]
fn peak_excludes_memory_freed_before_the_region() {
    let mut counting = Counting::new();
    let big = vec![0u8; 4_000_000];
    counting.record_alloc(big.capacity());
    let size = big.capacity();
    drop(big);
    counting.record_dealloc(size);
    let (_, usage) = measure(&mut counting, allocate(1000));
    assert!(usage.peak < 1_000_000, "peak {} carried over a freed 4 MB buffer", usage.peak);
}

#[test]
fn usage_is_exact_for_recorded_events() {
    let mut counting = Counting::new();
    counting.record_alloc(100);
    let ((), usage) = measure(&mut counting, |mut c: Counting| {
        c.record_alloc(40);
        c.record_alloc(60);
        c.record_dealloc(40);
        c.record_alloc(10);
        ((), c)
    });
    assert_eq!(usage.allocs, 3);
    assert_eq!(usage.bytes, 110);
    // Live was 100 on entry; the high-water mark inside is 100 + 40 + 60.
    assert_eq!(usage.peak, 100);
    assert_eq!(counting.live, 170);
}

#[test]
fn peak_is_the_high_water_mark_not_the_final_level() {
    let mut counting = Counting::new();
    counting.record_alloc(500);
    counting.record_dealloc(500);
    counting.record_alloc(200);
    assert_eq!(counting.peak, 500);
    assert_eq!(counting.live, 200);
    assert_eq!(counting.bytes, 700);
    assert_eq!(counting.allocs, 2);
}

#[test]
fn region_start_resets_peak_to_live() {
    let mut counting = Counting::new();
    counting.record_alloc(300);
    counting.record_dealloc(100);
    let region = counting.start_region();
    assert_eq!(counting.peak, 200);
    counting.record_alloc(50);
    let usage = counting.usage_since(&region);
    assert_eq!(usage.allocs, 1);
    assert_eq!(usage.bytes, 50);
    assert_eq!(usage.peak, 50);
}

#[test]
fn a_region_that_frees_reports_zero_peak() {
    let mut counting = Counting::new();
    counting.record_alloc(1000);
    let ((), usage) = measure(&mut counting, |mut c: Counting| {
        c.record_dealloc(1000);
        ((), c)
    });
    assert_eq!(usage.peak, 0);
    assert_eq!(usage.allocs, 0);
    assert_eq!(usage.bytes, 0);
}

/// What `peak_rss_kb` does with the status text, written with `str`.
fn reference_hwm(status: &str) -> Option<u64> {
    for line in status.lines() {
        if let Some(rest) = line.strip_prefix("VmHWM:") {
            return rest.split_whitespace().next()?.parse().ok();
        }
    }
    None
}

#[test]
fn the_high_water_mark_is_read_from_the_status_text() {
    let status = "Name:\tbench\nVmPeak:\t  123456 kB\nVmHWM:\t   41236 kB\nVmRSS:\t 40000 kB\n";
    assert_eq!(peak_kb_of_status(status.as_bytes()), Some(41236));
    for text in [
        status,
        "",
        "VmHWM:",
        "VmHWM:\n",
        "VmHWM: 12\r\n",
        "VmHWM:+7 kB",
        "VmHWM: + kB",
        "VmHWM: -3 kB",
        "VmHWM: 18446744073709551615 kB",
        "VmHWM: 18446744073709551616 kB",
        "VmHWM: 12x kB",
        "Name: x\nVmHWM:\nVmHWM: 5\n",
        "vmhwm: 5\nVmHWM 6\n",
        "xVmHWM: 5\nVmHWM:\t 9 kB",
        "VmHWM:\u{a0}321\u{2003}kB",
        "VmHWM:\u{3000}\u{85}44\u{205f}kB",
        "VmHWM: 4\u{a9} kB",
        "VmHWM:\u{1680}\u{2029}\u{202f}\u{2028}\u{200a}\u{2000}8",
        "VmHWM:\u{200b}8",
    ] {
        assert_eq!(peak_kb_of_status(text.as_bytes()), reference_hwm(text), "{text:?}");
    }
}
