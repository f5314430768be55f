use catnip_sched::scheduler::{Operation, Scheduler};
use futures::task::{noop_waker, LocalFutureObj};
use std::future::Future;
use std::pin::Pin;
use std::task::{Context, Poll};

/// Pending on its first poll, ready on every later one.
struct TwoStep {
    polls: u32,
}

impl Future for TwoStep {
    type Output = ();

    fn poll(mut self: Pin<&mut Self>, _cx: &mut Context<'_>) -> Poll<()> {
        self.polls += 1;
        if self.polls >= 2 {
            Poll::Ready(())
        } else {
            Poll::Pending
        }
    }
}

fn two_step() -> Operation {
    Operation::Background(LocalFutureObj::from(Box::new(TwoStep { polls: 0 })))
}

fn ready_now() -> Operation {
    Operation::Tcp(LocalFutureObj::from(Box::new(async {})))
}

/// One scheduling pass, each slot polled with a waker that does nothing.
fn pass(s: &mut Scheduler) -> Vec<u64> {
    let waker = noop_waker();
    let mut cx = Context::from_waker(&waker);
    let mut polled = Vec::new();
    let mut ready = Vec::new();
    for page_ix in 0..s.page_count() {
        for key in s.take_notified_keys(page_ix) {
            polled.push(key);
            let done = match s.slot_mut(key) {
                Operation::Tcp(f) => Pin::new(f).poll(&mut cx).is_ready(),
                Operation::Background(f) => Pin::new(f).poll(&mut cx).is_ready(),
            };
            if done {
                ready.push(key);
            }
        }
    }
    s.finish_pass(&ready);
    polled
}

#[test]
fn end_to_end_completion() {
    let mut s = Scheduler::new();
    let h = s.insert(two_step());
    assert_eq!(pass(&mut s).len(), 1);
    assert!(!h.has_completed(&s));
    let key = h.into_raw();
    let token = s.wake_token(key).unwrap();
    assert_eq!(token.slot_key(), key);
    s.notify(token);
    assert_eq!(pass(&mut s), vec![key]);
    let h = s.from_raw_handle(key).unwrap();
    assert!(h.has_completed(&s));
    assert!(!h.was_dropped(&s));
    let op = s.take(h);
    assert!(matches!(op, Operation::Background(_)));
    assert!(s.from_raw_handle(key).is_none());
}

#[test]
fn not_polled_again_without_wake() {
    let mut s = Scheduler::new();
    let h = s.insert(two_step());
    pass(&mut s);
    assert!(pass(&mut s).is_empty());
    assert!(!h.has_completed(&s));
}

#[test]
fn end_to_end_cancellation() {
    let mut s = Scheduler::new();
    let h = s.insert(two_step());
    let key = s.from_raw_handle(0).map(|h| h.into_raw()).unwrap();
    assert_eq!(key, 0);
    s.release(h);
    pass(&mut s);
    assert!(s.from_raw_handle(key).is_none());
}

#[test]
fn release_marks_dropped_until_sweep() {
    let mut s = Scheduler::new();
    let h = s.insert(ready_now());
    let key = h.into_raw();
    let h = s.from_raw_handle(key).unwrap();
    s.release(h);
    let h = s.from_raw_handle(key).unwrap();
    assert!(h.was_dropped(&s));
    let _ = h.into_raw();
    s.sweep_dropped(0);
    assert!(s.from_raw_handle(key).is_none());
}

#[test]
fn take_frees_key_for_reuse() {
    let mut s = Scheduler::new();
    let a = s.insert(ready_now());
    let b = s.insert(ready_now());
    pass(&mut s);
    assert!(a.has_completed(&s));
    let _ = s.take(a);
    let c = s.insert(two_step());
    assert!(!c.has_completed(&s));
    assert!(b.has_completed(&s));
    assert_eq!(c.into_raw(), 0);
}

#[test]
fn stale_wake_does_not_touch_new_occupant() {
    let mut s = Scheduler::new();
    let a = s.insert(ready_now());
    let stale = s.wake_token(0).unwrap();
    pass(&mut s);
    let _ = s.take(a);
    let b = s.insert(two_step());
    pass(&mut s);
    s.notify(stale);
    assert!(pass(&mut s).is_empty());
    assert!(!b.has_completed(&s));
    assert!(!b.was_dropped(&s));
    let fresh = s.wake_token(0).unwrap();
    s.notify(fresh);
    assert_eq!(pass(&mut s), vec![0]);
    assert!(b.has_completed(&s));
}

#[test]
fn stale_wake_after_sweep_is_ignored() {
    let mut s = Scheduler::new();
    let a = s.insert(two_step());
    let stale = s.wake_token(0).unwrap();
    s.release(a);
    pass(&mut s);
    assert!(s.wake_token(0).is_none());
    let b = s.insert(two_step());
    assert_eq!(pass(&mut s), vec![0]);
    s.notify(stale);
    assert!(pass(&mut s).is_empty());
    assert!(!b.has_completed(&s));
}

#[test]
fn pages_grow_past_one_word() {
    let mut s = Scheduler::new();
    let mut handles = Vec::new();
    for _ in 0..65 {
        handles.push(s.insert(ready_now()));
    }
    assert_eq!(s.page_count(), 2);
    let polled = pass(&mut s);
    assert_eq!(polled, (0..65).collect::<Vec<u64>>());
    assert!(handles[64].has_completed(&s));
    assert!(handles[0].has_completed(&s));
}

#[test]
fn unknown_keys_have_no_handle_or_token() {
    let s = Scheduler::new();
    assert_eq!(s.page_count(), 0);
    assert!(s.from_raw_handle(1000).is_none());
    assert!(s.from_raw_handle(u64::MAX).is_none());
    assert!(s.wake_token(3).is_none());
}

#[test]
fn finish_pass_marks_ready_and_reclaims_released() {
    let mut s = Scheduler::new();
    let a = s.insert(ready_now());
    let b = s.insert(two_step());
    let c = s.insert(two_step());
    s.release(c);
    let mut ready = Vec::new();
    assert_eq!(s.take_notified_keys(0), vec![0, 1, 2]);
    ready.push(0);
    ready.push(77);
    s.finish_pass(&ready);
    assert!(a.has_completed(&s));
    assert!(!b.has_completed(&s));
    assert!(s.from_raw_handle(2).is_none());
    assert!(s.take_notified_keys(0).is_empty());
}

#[test]
fn complete_and_sweep_one_page() {
    let mut s = Scheduler::new();
    let a = s.insert(two_step());
    s.complete(0);
    assert!(a.has_completed(&s));
    s.release(a);
    s.sweep_dropped(0);
    assert!(s.from_raw_handle(0).is_none());
    assert_eq!(s.page_count(), 1);
}
