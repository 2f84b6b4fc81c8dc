use std::pin::Pin;
use std::sync::atomic::{AtomicU8, Ordering};
use std::sync::Arc;
use std::task::{Context, Poll};

use futures::future::poll_fn;

use futures::executor::block_on;
use futures::Future;

use futures_ratelimit::common::Passthrough;
use futures_ratelimit::ordered::{FuturesOrderedBounded, FuturesOrderedIter};

/// Completes with `value` after being polled `polls_left` more times.
struct Delayed {
    polls_left: u64,
    value: u64,
}

impl Future for Delayed {
    type Output = u64;

    fn poll(mut self: Pin<&mut Self>, cx: &mut Context<'_>) -> Poll<u64> {
        if self.polls_left == 0 {
            Poll::Ready(self.value)
        } else {
            self.polls_left -= 1;
            cx.waker().wake_by_ref();
            Poll::Pending
        }
    }
}

fn dummy(val: u64) -> Delayed {
    Delayed { polls_left: 0, value: val }
}

fn dummy_sleep(polls: u64) -> Delayed {
    Delayed { polls_left: polls, value: polls }
}

/// Counts itself in `counter` on its first poll, completes on its second
/// with the count it saw: the number of futures polled at the same time.
struct Checked {
    counter: Arc<AtomicU8>,
    seen: Option<u8>,
}

impl Future for Checked {
    type Output = u8;

    fn poll(mut self: Pin<&mut Self>, cx: &mut Context<'_>) -> Poll<u8> {
        match self.seen {
            None => {
                let seen = self.counter.fetch_add(1, Ordering::AcqRel) + 1;
                self.seen = Some(seen);
                cx.waker().wake_by_ref();
                Poll::Pending
            }
            Some(seen) => {
                self.counter.fetch_sub(1, Ordering::AcqRel);
                Poll::Ready(seen)
            }
        }
    }
}

fn dummy_checked(counter: Arc<AtomicU8>) -> Checked {
    Checked { counter, seen: None }
}

fn create_tasks() -> Vec<Delayed> {
    (0..100u64).map(dummy).collect()
}

/// One poll of a bounded runner to completion: the running set yields,
/// then the runner takes its step.
fn next_bounded<F: Future>(runner: &mut FuturesOrderedBounded<F>) -> Option<F::Output> {
    block_on(poll_fn(|cx| runner.poll_next(cx)))
}

fn next_iter<I, F>(runner: &mut FuturesOrderedIter<I, F>) -> Option<F::Output>
where
    F: Future,
    I: Iterator<Item = F>,
{
    block_on(poll_fn(|cx| runner.poll_next(cx)))
}

#[test]
fn test_futures_ordered_iter() {
    let tasks = create_tasks();
    let max_concurrent: u64 = 10;

    let mut fut_iter = FuturesOrderedIter::new(max_concurrent as usize, tasks.into_iter());

    let mut counter = 0;
    while let Some(result) = next_iter(&mut fut_iter) {
        assert_eq!(result, counter);
        counter += 1;
        // Inner struct should always have less than `max_concurrent` futures.
        assert!(fut_iter.borrow_inner().len() <= max_concurrent as usize);
    }
    assert_eq!(counter, 100);
}

#[test]
fn test_futures_ordered() {
    let mut fut_iter = FuturesOrderedBounded::new(10);
    for i in 0..100 {
        fut_iter.push_back(dummy(i as u64));
    }
    // Run poll just 1 time
    let result = next_bounded(&mut fut_iter);

    assert!(result.is_some());
    assert_eq!(fut_iter.borrow_queue().len(), 89); // we consumed 1 future

    // We should have 10 enqueued futures
    assert_eq!(fut_iter.borrow_inner().len(), 10);
    let _result = next_bounded(&mut fut_iter);
    // 2 consumed futures at this point
    assert_eq!(fut_iter.borrow_queue().len(), 88);
    // We should (still) have 10 enqueued futures
    assert_eq!(fut_iter.borrow_inner().len(), 10);
    // Test clear queue
    fut_iter.borrow_mut_queue().clear();
    assert_eq!(fut_iter.borrow_queue().len(), 0);

    // Consume all the futures
    while let Some(_) = next_bounded(&mut fut_iter) {}

    let result = next_bounded(&mut fut_iter);
    assert!(result.is_none());
    // Test push logic
    for i in 0..100 {
        fut_iter.push_back(dummy(i as u64));
    }
    assert_eq!(fut_iter.borrow_queue().len(), 90);
    assert_eq!(fut_iter.borrow_inner().len(), 10);

    let result = next_bounded(&mut fut_iter);
    assert!(result.is_some());
    // we consumed 1 future
    assert_eq!(fut_iter.borrow_queue().len(), 89);
    // We should have 10 enqueued futures
    assert_eq!(fut_iter.borrow_inner().len(), 10);
    // Test borrow* methods
    assert_eq!(fut_iter.borrow_queue().len(), 89);
    assert_eq!(fut_iter.borrow_mut_queue().len(), 89);

    assert_eq!(fut_iter.into_inner().len(), 10);
}

#[test]
fn ordered_test_max_concurrent() {
    // Test from iter
    let test_value = Arc::new(AtomicU8::new(0));
    let tasks = (0..50)
        .map(|_| dummy_checked(Arc::clone(&test_value)))
        .collect::<Vec<_>>();

    let mut fut_iter = FuturesOrderedIter::new(10, tasks.into_iter());
    let mut max_so_far = 0;
    let mut count = 0;
    while let Some(max_res) = next_iter(&mut fut_iter) {
        max_so_far = std::cmp::max(max_so_far, max_res);
        // Don't consume all the futures - we want to change the limit at runtime
        if count > 10 {
            fut_iter.set_max_concurrent(20);
            break;
        }
        count += 1;
    }
    assert_eq!(max_so_far, 10);
    // Ensure the new capacity limit was applied
    let mut rest = Vec::new();
    while let Some(max_res) = next_iter(&mut fut_iter) {
        rest.push(max_res);
    }
    let max = rest.into_iter().max();
    assert_eq!(max, Some(20));

    // Test bounded one
    let test_value = Arc::new(AtomicU8::new(0));
    let mut fut_iter = FuturesOrderedBounded::new(10);
    for _ in 0..50 {
        fut_iter.push_back(dummy_checked(Arc::clone(&test_value)));
    }
    let mut max_so_far = 0;
    while let Some(max_res) = next_bounded(&mut fut_iter) {
        max_so_far = std::cmp::max(max_so_far, max_res);
    }
    assert_eq!(max_so_far, 10);
    // Change capacity
    fut_iter.set_max_concurrent(20);
    for _ in 0..50 {
        fut_iter.push_back(dummy_checked(Arc::clone(&test_value)));
    }
    while let Some(max_res) = next_bounded(&mut fut_iter) {
        max_so_far = std::cmp::max(max_so_far, max_res);
    }
    assert_eq!(max_so_far, 20);
}

#[test]
fn ordered_test_iter_inner() {
    let max_concurrent: u64 = 10;
    let tasks = (0..100).map(|i| dummy(i)).collect::<Vec<_>>();

    let mut fut_iter = FuturesOrderedIter::new(max_concurrent as usize, tasks.into_iter());

    assert_eq!(fut_iter.borrow_inner().len(), 10);
    assert_eq!(fut_iter.borrow_inner().is_empty(), false);
    {
        let inner = fut_iter.borrow_inner();
        assert_eq!(inner.len(), 10);
    }
    {
        let inner = fut_iter.borrow_mut_inner();
        assert_eq!(inner.len(), 10);
    }
    // Bypass control mechanism
    fut_iter.borrow_mut_inner().push_back(dummy(123));
    assert_eq!(fut_iter.borrow_inner().len(), 11);

    let inner = fut_iter.into_inner();
    assert_eq!(inner.len(), 11);
}

#[test]
fn test_push_back_front() {
    let max_concurrent = 10;

    let mut fut_iter = FuturesOrderedBounded::new(max_concurrent);
    fut_iter.push_back(dummy(1));
    fut_iter.push_front(dummy(2));
    fut_iter.push_back(dummy(3));

    assert_eq!(next_bounded(&mut fut_iter), Some(2));
    assert_eq!(next_bounded(&mut fut_iter), Some(1));
    assert_eq!(next_bounded(&mut fut_iter), Some(3));

    let mut fut_iter = FuturesOrderedBounded::new(max_concurrent);
    fut_iter.push_back(dummy_sleep(1));
    fut_iter.push_back(dummy_sleep(10));
    fut_iter.push_back(dummy_sleep(2));
    assert_eq!(next_bounded(&mut fut_iter), Some(1));
    assert_eq!(next_bounded(&mut fut_iter), Some(10));
    assert_eq!(next_bounded(&mut fut_iter), Some(2));

    let futures = (1..4).rev().map(dummy_sleep).collect::<Vec<_>>();
    let mut fut_iter = FuturesOrderedIter::new(max_concurrent, futures.into_iter());
    assert_eq!(next_iter(&mut fut_iter), Some(3));
    assert_eq!(next_iter(&mut fut_iter), Some(2));
    assert_eq!(next_iter(&mut fut_iter), Some(1));
}

#[test]
fn ordered_place_back_starts_only_below_the_limit() {
    let mut runner = FuturesOrderedBounded::new(2);
    assert!(runner.place_back(0, dummy(1)).is_some());
    assert!(runner.place_back(2, dummy(2)).is_none());
    assert!(runner.place_back(5, dummy(3)).is_none());
    // A free slot starts the future even while others wait.
    assert_eq!(runner.place_back(1, dummy(4)).map(|d| d.value), Some(4));
    let waiting: Vec<u64> = runner.borrow_queue().iter().map(|d| d.value).collect();
    assert_eq!(waiting, vec![2, 3]);
}

#[test]
fn ordered_place_front_waits_ahead_of_the_queue() {
    let mut runner = FuturesOrderedBounded::new(1);
    assert!(runner.place_back(1, dummy(1)).is_none());
    assert!(runner.place_front(1, dummy(2)).is_none());
    let waiting: Vec<u64> = runner.borrow_queue().iter().map(|d| d.value).collect();
    assert_eq!(waiting, vec![2, 1]);
    // Below the limit it is handed back to be started, queue or not.
    assert_eq!(runner.place_front(0, dummy(3)).map(|d| d.value), Some(3));
    assert_eq!(runner.borrow_queue().len(), 2);
    let mut empty = FuturesOrderedBounded::new(1);
    assert_eq!(empty.place_front(0, dummy(4)).map(|d| d.value), Some(4));
}

#[test]
fn ordered_take_started_takes_the_front_up_to_free_slots() {
    let mut runner = FuturesOrderedBounded::new(4);
    for i in 0..6 {
        assert!(runner.place_back(4, dummy(i)).is_none());
    }
    let values = |v: Vec<Delayed>| v.into_iter().map(|d| d.value).collect::<Vec<u64>>();
    assert_eq!(values(runner.take_started(1)), vec![0, 1, 2]);
    assert_eq!(runner.borrow_queue().len(), 3);
    // A running set at or over the limit starts nothing.
    assert_eq!(values(runner.take_started(4)), Vec::<u64>::new());
    assert_eq!(values(runner.take_started(9)), Vec::<u64>::new());
    // A queue shorter than the free slots is emptied.
    assert_eq!(values(runner.take_started(0)), vec![3, 4, 5]);
    assert_eq!(values(runner.take_started(0)), Vec::<u64>::new());
    assert_eq!(runner.borrow_inner().len(), 0);
}

#[test]
fn ordered_pending_poll_changes_nothing() {
    let mut runner = FuturesOrderedBounded::new(1);
    runner.push_back(dummy_sleep(1));
    runner.push_back(dummy(2));
    assert_eq!(runner.borrow_inner().len(), 1);
    assert_eq!(runner.borrow_queue().len(), 1);
    let waker = futures::task::noop_waker();
    let mut cx = Context::from_waker(&waker);
    assert!(runner.poll_next(&mut cx).is_pending());
    assert_eq!(runner.borrow_inner().len(), 1);
    assert_eq!(runner.borrow_queue().len(), 1);
    // Only a yielded output frees a slot.
    assert_eq!(runner.poll_next(&mut cx), Poll::Ready(Some(1)));
    assert_eq!(runner.borrow_inner().len(), 1);
    assert_eq!(runner.borrow_queue().len(), 0);
    assert_eq!(runner.poll_next(&mut cx), Poll::Ready(Some(2)));
    assert_eq!(runner.poll_next(&mut cx), Poll::Ready(None));
}

#[test]
fn ordered_raised_limit_starts_a_new_future_at_once() {
    let mut runner = FuturesOrderedBounded::new(1);
    runner.push_back(dummy(1));
    runner.push_back(dummy(2));
    runner.set_max_concurrent(3);
    runner.push_back(dummy(3));
    // The raised limit leaves a free slot, so the new future starts now.
    assert_eq!(runner.borrow_inner().len(), 2);
    assert_eq!(runner.borrow_queue().len(), 1);
    assert_eq!(next_bounded(&mut runner), Some(1));
    assert_eq!(runner.borrow_inner().len(), 2);
    assert_eq!(runner.borrow_queue().len(), 0);
    // Outputs follow the order in which futures were started.
    assert_eq!(next_bounded(&mut runner), Some(3));
    assert_eq!(next_bounded(&mut runner), Some(2));
    assert_eq!(next_bounded(&mut runner), None);
}

#[test]
fn ordered_push_front_below_the_limit_is_next() {
    let mut runner = FuturesOrderedBounded::new(2);
    runner.push_back(dummy(1));
    runner.push_back(dummy(2));
    runner.push_back(dummy(3));
    runner.borrow_mut_queue().push_back(dummy(4));
    assert_eq!(next_bounded(&mut runner), Some(1));
    // The raised limit leaves one free slot while a future still waits.
    runner.set_max_concurrent(3);
    runner.push_front(dummy(0));
    assert_eq!(runner.borrow_inner().len(), 3);
    assert_eq!(next_bounded(&mut runner), Some(0));
    assert_eq!(next_bounded(&mut runner), Some(2));
    assert_eq!(next_bounded(&mut runner), Some(3));
    assert_eq!(next_bounded(&mut runner), Some(4));
    assert_eq!(next_bounded(&mut runner), None);
}

#[test]
fn ordered_results_come_in_push_order_within_the_limit() {
    let mut runner = FuturesOrderedBounded::new(3);
    for i in 0..20 {
        runner.push_back(dummy_sleep(20 - i));
        assert!(runner.borrow_inner().len() <= 3);
    }
    let mut out = Vec::new();
    while let Some(v) = next_bounded(&mut runner) {
        assert!(runner.borrow_inner().len() <= 3);
        assert!(runner.borrow_queue().is_empty() || runner.borrow_inner().len() == 3);
        out.push(v);
    }
    assert_eq!(out, (1..=20).rev().collect::<Vec<u64>>());
}

#[test]
fn ordered_iter_take_started_in_iterator_order() {
    let tasks: Vec<Delayed> = (0..5).map(dummy).collect();
    let mut runner = FuturesOrderedIter::new(2, tasks.into_iter());
    assert_eq!(runner.borrow_inner().len(), 2);
    let values = |v: Vec<Delayed>| v.into_iter().map(|d| d.value).collect::<Vec<u64>>();
    assert_eq!(values(runner.take_started(0)), vec![2, 3]);
    assert_eq!(values(runner.take_started(1)), vec![4]);
    assert_eq!(values(runner.take_started(0)), Vec::<u64>::new());
}

#[test]
fn ordered_iter_over_nothing_ends_at_once() {
    let mut runner = FuturesOrderedIter::new(3, Vec::<Delayed>::new().into_iter());
    assert_eq!(runner.borrow_inner().len(), 0);
    assert_eq!(next_iter(&mut runner), None);
    let mut bounded: FuturesOrderedBounded<Delayed> = FuturesOrderedBounded::new(3);
    assert_eq!(next_bounded(&mut bounded), None);
}
