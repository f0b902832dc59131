use oxide_rs::dynamic_batcher::{
    BatchConfig, BatchError, BatchRequest, BatchResult, DynamicBatcher,
};

fn request(t: u32) -> BatchRequest {
    BatchRequest { tokens: vec![t], max_tokens: 16, stop_token: None }
}

fn config(max_batch_size: usize) -> BatchConfig {
    BatchConfig { max_batch_size, max_wait_ms: 50, max_retries: 1 }
}

#[test]
fn test_fifo_scheduling_unlimited_capacity() {
    let mut b = DynamicBatcher::new(config(10));
    let h1 = b.submit(request(1), 100);
    let h2 = b.submit(request(2), 101);
    let h3 = b.submit(request(3), 102);
    let round = b.poll_batch();
    assert_eq!(round, vec![h1, h2, h3]);
}

#[test]
fn test_fifo_scheduling_limited_capacity() {
    let mut b = DynamicBatcher::new(config(2));
    let h1 = b.submit(request(1), 100);
    let h2 = b.submit(request(2), 101);
    let h3 = b.submit(request(3), 102);
    let h4 = b.submit(request(4), 103);

    // The two earliest-submitted win the first round.
    assert_eq!(b.poll_batch(), vec![h1, h2]);
    // The remainder keeps its order for the next round.
    assert_eq!(b.poll_batch(), vec![h3, h4]);
    assert_eq!(b.poll_batch(), vec![]);
}

#[test]
fn test_exactly_once_delivery() {
    let mut b = DynamicBatcher::new(config(4));
    let h = b.submit(request(5), 0);
    assert!(b.take_result(h).is_none());

    let round = b.poll_batch();
    assert_eq!(round, vec![h]);
    assert!(b.mark_running(h));
    assert!(b.complete(h, vec![42, 43]));

    // The one result comes out once.
    assert_eq!(b.take_result(h), Some(BatchResult::Completed(vec![42, 43])));
    assert!(b.take_result(h).is_none());

    // A terminal request is frozen: no second outcome ever lands.
    assert!(!b.complete(h, vec![9]));
    assert!(!b.fail(h, BatchError::ModelBackendFailure));
    assert!(!b.cancel(h));
    assert!(b.take_result(h).is_none());
}

#[test]
fn test_cancel_queued_request() {
    let mut b = DynamicBatcher::new(config(4));
    let h = b.submit(request(1), 0);
    assert!(b.cancel(h));
    assert_eq!(b.take_result(h), Some(BatchResult::Cancelled));
    assert!(b.take_result(h).is_none());
    // A cancelled request is never scheduled.
    assert_eq!(b.poll_batch(), vec![]);
}

#[test]
fn test_fail_delivers_reason() {
    let mut b = DynamicBatcher::new(config(4));
    let h = b.submit(request(1), 0);
    b.poll_batch();
    assert!(b.fail(h, BatchError::ModelBackendFailure));
    assert_eq!(
        b.take_result(h),
        Some(BatchResult::Failed(BatchError::ModelBackendFailure))
    );
}

#[test]
fn test_defer_retries_then_fails_out_of_memory() {
    let mut b = DynamicBatcher::new(config(4));
    let h = b.submit(request(1), 0);

    // First round: no capacity; the request goes back to the queue.
    assert_eq!(b.poll_batch(), vec![h]);
    b.defer(h);
    assert!(b.take_result(h).is_none());

    // Second round: it kept its place and is selected again; the retry
    // limit of one is now spent.
    assert_eq!(b.poll_batch(), vec![h]);
    b.defer(h);
    assert_eq!(b.take_result(h), Some(BatchResult::Failed(BatchError::OutOfMemory)));
}

#[test]
fn test_deferred_request_keeps_queue_position() {
    let mut b = DynamicBatcher::new(BatchConfig { max_batch_size: 1, max_wait_ms: 50, max_retries: 5 });
    let h1 = b.submit(request(1), 0);
    let h2 = b.submit(request(2), 1);
    assert_eq!(b.poll_batch(), vec![h1]);
    b.defer(h1);
    // Deferred, the older request still precedes the younger one.
    assert_eq!(b.poll_batch(), vec![h1]);
    b.defer(h1);
    assert_eq!(b.poll_batch(), vec![h1]);
    assert!(b.complete(h1, vec![7]));
    assert_eq!(b.poll_batch(), vec![h2]);
}

#[test]
fn test_should_flush_on_size_and_age() {
    let mut b = DynamicBatcher::new(BatchConfig { max_batch_size: 2, max_wait_ms: 100, max_retries: 0 });
    assert!(!b.should_flush(0));
    b.submit(request(1), 10);
    assert!(!b.should_flush(10));
    // The oldest queued request has waited out the window.
    assert!(b.should_flush(110));
    // Or the queue reaches the batch size.
    b.submit(request(2), 11);
    assert!(b.should_flush(12));
}

#[test]
fn test_queue_depth() {
    let mut b = DynamicBatcher::new(config(8));
    assert_eq!(b.queue_depth(), 0);
    let h1 = b.submit(request(1), 0);
    let _h2 = b.submit(request(2), 0);
    assert_eq!(b.queue_depth(), 2);
    b.cancel(h1);
    assert_eq!(b.queue_depth(), 1);
    b.poll_batch();
    assert_eq!(b.queue_depth(), 0);
}
