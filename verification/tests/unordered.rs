use std::pin::Pin;
use std::sync::atomic::{AtomicU8, Ordering};
use std::sync::Arc;
use std::task::{Context, Poll};

use futures::future::poll_fn;

use futures::executor::block_on;
use futures::Future;

use futures_ratelimit::common::UnorderedPassthrough;
use futures_ratelimit::unordered::{FuturesUnorderedBounded, FuturesUnorderedIter};

/// Completes with `value` after being polled `polls_left` more times.
struct Delayed {
    polls_left: u64,
    value: u64,
}

impl Future for Delayed {
    type Output = u64;

    fn poll(mut self: Pin<&mut Self>, cx: &mut Context<'_>) -> Poll<u64> {
        if self.polls_left == 0 {
            Poll::Ready(self.value)
        } else {
            self.polls_left -= 1;
            cx.waker().wake_by_ref();
            Poll::Pending
        }
    }
}

fn dummy(val: u64) -> Delayed {
    Delayed { polls_left: 0, value: val }
}

/// Counts itself in `counter` on its first poll, completes on its second
/// with the count it saw: the number of futures polled at the same time.
struct Checked {
    counter: Arc<AtomicU8>,
    seen: Option<u8>,
}

impl Future for Checked {
    type Output = u8;

    fn poll(mut self: Pin<&mut Self>, cx: &mut Context<'_>) -> Poll<u8> {
        match self.seen {
            None => {
                let seen = self.counter.fetch_add(1, Ordering::AcqRel) + 1;
                self.seen = Some(seen);
                cx.waker().wake_by_ref();
                Poll::Pending
            }
            Some(seen) => {
                self.counter.fetch_sub(1, Ordering::AcqRel);
                Poll::Ready(seen)
            }
        }
    }
}

fn dummy_checked(counter: Arc<AtomicU8>) -> Checked {
    Checked { counter, seen: None }
}

fn create_tasks() -> Vec<Delayed> {
    (0..100u64).map(dummy).collect()
}

/// One poll of a bounded runner to completion: the running set yields,
/// then the runner takes its step.
fn next_bounded<F: Future>(runner: &mut FuturesUnorderedBounded<F>) -> Option<F::Output> {
    block_on(poll_fn(|cx| runner.poll_next(cx)))
}

fn next_iter<I, F>(runner: &mut FuturesUnorderedIter<I, F>) -> Option<F::Output>
where
    F: Future,
    I: Iterator<Item = F>,
{
    block_on(poll_fn(|cx| runner.poll_next(cx)))
}

#[test]
fn test_futures_unordered_iter() {
    let tasks = create_tasks();
    let max_concurrent: u64 = 10;

    let mut fut_iter = FuturesUnorderedIter::new(max_concurrent as usize, tasks.into_iter());

    let mut counter = 0;
    while let Some(result) = next_iter(&mut fut_iter) {
        assert_eq!(result, counter);
        counter += 1;
        // Inner struct should always have less than `max_concurrent` futures.
        assert!(fut_iter.len_inner() <= max_concurrent as usize);
    }
    assert_eq!(counter, 100);
}

#[test]
fn test_futures_unordered() {
    let mut fut_iter = FuturesUnorderedBounded::new(10);
    for i in 0..100 {
        fut_iter.push(dummy(i as u64));
    }
    // Run poll just 1 time
    let result = next_bounded(&mut fut_iter);

    assert!(result.is_some());
    assert_eq!(fut_iter.len_queue(), 89); // we consumed 1 future

    // We should have 10 enqueued futures
    assert_eq!(fut_iter.len_inner(), 10);
    let _result = next_bounded(&mut fut_iter);
    // 2 consumed futures at this point
    assert_eq!(fut_iter.len_queue(), 88);
    // We should (still) have 10 enqueued futures
    assert_eq!(fut_iter.len_inner(), 10);
    // Test clear queue
    fut_iter.clear_queue();
    assert_eq!(fut_iter.len_queue(), 0);
    assert!(fut_iter.is_empty_inner());
    assert_eq!(fut_iter.borrow_inner().len(), 0);

    let result = next_bounded(&mut fut_iter);
    assert!(result.is_none());
    // Test push logic
    for i in 0..100 {
        fut_iter.push(dummy(i as u64));
    }
    assert_eq!(fut_iter.len_queue(), 90);
    assert_eq!(fut_iter.len_inner(), 10);

    let result = next_bounded(&mut fut_iter);
    assert!(result.is_some());
    // we consumed 1 future
    assert_eq!(fut_iter.len_queue(), 89);
    // We should have 10 enqueued futures
    assert_eq!(fut_iter.len_inner(), 10);
    // Test borrow* methods
    assert_eq!(fut_iter.borrow_queue().len(), 89);
    assert_eq!(fut_iter.borrow_mut_queue().len(), 89);

    assert_eq!(fut_iter.into_inner().len(), 10);
}

#[test]
fn unordered_test_max_concurrent() {
    // Test from iter
    let test_value = Arc::new(AtomicU8::new(0));
    let tasks = (0..50)
        .map(|_| dummy_checked(Arc::clone(&test_value)))
        .collect::<Vec<_>>();

    let mut fut_iter = FuturesUnorderedIter::new(10, tasks.into_iter());
    let mut max_so_far = 0;
    let mut count = 0;
    while let Some(max_res) = next_iter(&mut fut_iter) {
        max_so_far = std::cmp::max(max_so_far, max_res);
        // Don't consume all the futures - we want to change the limit at runtime
        if count > 10 {
            fut_iter.set_capacity(20);
            break;
        }
        count += 1;
    }
    assert_eq!(max_so_far, 10);
    // Ensure the new capacity limit was applied
    let mut rest = Vec::new();
    while let Some(max_res) = next_iter(&mut fut_iter) {
        rest.push(max_res);
    }
    let max = rest.into_iter().max();
    assert_eq!(max, Some(20));

    // Test bounded one
    let test_value = Arc::new(AtomicU8::new(0));
    let mut fut_iter = FuturesUnorderedBounded::new(10);
    for _ in 0..50 {
        fut_iter.push(dummy_checked(Arc::clone(&test_value)));
    }
    let mut max_so_far = 0;
    while let Some(max_res) = next_bounded(&mut fut_iter) {
        max_so_far = std::cmp::max(max_so_far, max_res);
    }
    assert_eq!(max_so_far, 10);
    // Change capacity
    fut_iter.set_capacity(20);
    for _ in 0..50 {
        fut_iter.push(dummy_checked(Arc::clone(&test_value)));
    }
    while let Some(max_res) = next_bounded(&mut fut_iter) {
        max_so_far = std::cmp::max(max_so_far, max_res);
    }
    assert_eq!(max_so_far, 20);
}

#[test]
fn unordered_test_iter_inner() {
    let max_concurrent: u64 = 10;
    let tasks = (0..100).map(|i| dummy(i)).collect::<Vec<_>>();

    let mut fut_iter = FuturesUnorderedIter::new(max_concurrent as usize, tasks.into_iter());

    assert_eq!(fut_iter.len_inner(), 10);
    assert_eq!(fut_iter.is_empty_inner(), false);
    {
        let inner = fut_iter.borrow_inner();
        assert_eq!(inner.len(), 10);
    }
    {
        let inner = fut_iter.borrow_mut_inner();
        assert_eq!(inner.len(), 10);
    }
    // Bypass control mechanism
    fut_iter.push_inner(dummy(123));
    assert_eq!(fut_iter.len_inner(), 11);

    // Clear internal struct
    fut_iter.clear_inner();
    assert_eq!(fut_iter.len_inner(), 0);

    let inner = fut_iter.into_inner();
    assert_eq!(inner.len(), 0);
}

#[test]
fn unordered_take_started_pops_the_last_pushed_first() {
    let mut runner = FuturesUnorderedBounded::new(3);
    for i in 1..=5 {
        assert!(runner.place(3, dummy(i)).is_none());
    }
    let values = |v: &Vec<Delayed>| v.iter().map(|d| d.value).collect::<Vec<u64>>();
    assert_eq!(values(runner.borrow_queue()), vec![1, 2, 3, 4, 5]);
    assert_eq!(values(&runner.take_started(1)), vec![5, 4]);
    assert_eq!(values(runner.borrow_queue()), vec![1, 2, 3]);
    assert_eq!(values(&runner.take_started(3)), Vec::<u64>::new());
    assert_eq!(values(&runner.take_started(0)), vec![3, 2, 1]);
    assert_eq!(runner.len_queue(), 0);
    assert!(runner.is_empty_inner());
}

#[test]
fn unordered_place_starts_only_below_the_limit() {
    let mut runner = FuturesUnorderedBounded::new(10);
    assert!(runner.place(10, dummy(1)).is_none());
    runner.set_capacity(20);
    // A free slot starts the future even while others wait.
    assert_eq!(runner.place(10, dummy(2)).map(|d| d.value), Some(2));
    assert_eq!(runner.len_queue(), 1);
    runner.set_capacity(5);
    assert!(runner.place(7, dummy(3)).is_none());
    assert_eq!(runner.len_queue(), 2);
    let mut empty = FuturesUnorderedBounded::new(5);
    assert_eq!(empty.place(4, dummy(4)).map(|d| d.value), Some(4));
    assert!(runner.take_started(7).is_empty());
    assert_eq!(runner.take_started(4).into_iter().map(|d| d.value).collect::<Vec<u64>>(), vec![3]);
}

#[test]
fn unordered_every_future_runs_once_within_the_limit() {
    let mut runner = FuturesUnorderedBounded::new(4);
    for i in 0..25 {
        runner.push(Delayed { polls_left: (i * 7) % 5, value: i });
        assert!(runner.len_inner() <= 4);
    }
    let mut done = Vec::new();
    while let Some(v) = next_bounded(&mut runner) {
        assert!(runner.len_inner() <= 4);
        assert!(runner.len_queue() == 0 || runner.len_inner() == 4);
        done.push(v);
    }
    done.sort();
    assert_eq!(done, (0..25).collect::<Vec<u64>>());
}

#[test]
fn unordered_pending_poll_changes_nothing() {
    let mut runner = FuturesUnorderedBounded::new(1);
    runner.push(Delayed { polls_left: 1, value: 1 });
    runner.push(dummy(2));
    let waker = futures::task::noop_waker();
    let mut cx = Context::from_waker(&waker);
    assert!(runner.poll_next(&mut cx).is_pending());
    assert_eq!(runner.len_inner(), 1);
    assert_eq!(runner.len_queue(), 1);
    assert_eq!(runner.poll_next(&mut cx), Poll::Ready(Some(1)));
    assert_eq!(runner.len_inner(), 1);
    assert_eq!(runner.len_queue(), 0);
    assert_eq!(runner.poll_next(&mut cx), Poll::Ready(Some(2)));
    assert_eq!(runner.poll_next(&mut cx), Poll::Ready(None));
}

#[test]
fn unordered_raised_capacity_starts_a_new_future_at_once() {
    let mut runner = FuturesUnorderedBounded::new(1);
    runner.push(dummy(1));
    runner.push(dummy(2));
    runner.set_capacity(3);
    runner.push(dummy(3));
    assert_eq!(runner.len_inner(), 2);
    assert_eq!(runner.len_queue(), 1);
    let mut done = vec![next_bounded(&mut runner).unwrap()];
    assert_eq!(runner.len_inner(), 2);
    assert_eq!(runner.len_queue(), 0);
    while let Some(v) = next_bounded(&mut runner) {
        done.push(v);
    }
    done.sort();
    assert_eq!(done, vec![1, 2, 3]);
}

#[test]
fn unordered_push_after_clear_inner_starts_and_drains() {
    let mut runner = FuturesUnorderedBounded::new(2);
    runner.push(dummy(1));
    runner.push(dummy(2));
    runner.push(dummy(3));
    runner.clear_inner();
    assert_eq!(runner.len_inner(), 0);
    assert_eq!(runner.len_queue(), 1);
    runner.push(dummy(4));
    assert_eq!(runner.len_inner(), 1);
    let mut done = Vec::new();
    while let Some(v) = next_bounded(&mut runner) {
        done.push(v);
    }
    done.sort();
    assert_eq!(done, vec![3, 4]);
}

#[test]
fn unordered_clear_queue_ends_the_stream() {
    let mut runner = FuturesUnorderedBounded::new(2);
    for i in 0..5 {
        runner.push(dummy(i));
    }
    runner.clear_queue();
    assert_eq!(runner.len_queue(), 0);
    assert!(runner.is_empty_inner());
    assert_eq!(next_bounded(&mut runner), None);
}

#[test]
fn unordered_iter_over_nothing_ends_at_once() {
    let mut runner = FuturesUnorderedIter::new(3, Vec::<Delayed>::new().into_iter());
    assert!(runner.is_empty_inner());
    assert_eq!(next_iter(&mut runner), None);
    let mut bounded: FuturesUnorderedBounded<Delayed> = FuturesUnorderedBounded::new(3);
    assert_eq!(next_bounded(&mut bounded), None);
}
