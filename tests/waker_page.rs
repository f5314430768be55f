use catnip_sched::bits::iter_set_bits;
use catnip_sched::waker_page::WakerPage;

#[test]
fn page_initialize_notifies_and_resets() {
    let mut p = WakerPage::new();
    p.mark_dropped(5);
    p.mark_completed(5);
    p.initialize(5);
    assert!(!p.was_dropped(5));
    assert!(!p.has_completed(5));
    assert_eq!(p.take_notified(), 1u64 << 5);
    assert_eq!(p.take_notified(), 0);
}

#[test]
fn page_take_dropped_reads_and_clears() {
    let mut p = WakerPage::new();
    p.mark_dropped(0);
    p.mark_dropped(63);
    assert!(p.was_dropped(63));
    let bits = p.take_dropped();
    assert_eq!(iter_set_bits(bits), vec![0, 63]);
    assert!(!p.was_dropped(0));
    assert_eq!(p.take_dropped(), 0);
}

#[test]
fn page_clear_touches_one_slot() {
    let mut p = WakerPage::new();
    p.mark_completed(1);
    p.mark_completed(2);
    p.mark_notified(2);
    p.clear(2);
    assert!(p.has_completed(1));
    assert!(!p.has_completed(2));
    assert_eq!(p.take_notified(), 0);
}
