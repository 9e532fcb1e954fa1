use grimoire::disk_scheduler::{DiskRequest, RequestQueue};
use grimoire::errors::DiskError;
use tokio::sync::oneshot;

type Reply = oneshot::Receiver<Result<Vec<u8>, DiskError>>;

fn request(is_write: bool, page_id: i32, data: Vec<u8>) -> (DiskRequest, Reply) {
    let (tx, rx) = oneshot::channel();
    (DiskRequest { is_write, data, page_id, callback: tx }, rx)
}

fn shape(batch: &[Vec<DiskRequest>]) -> Vec<Vec<(bool, i32, u8)>> {
    batch
        .iter()
        .map(|g| g.iter().map(|r| (r.is_write, r.page_id, r.data[0])).collect())
        .collect()
}

#[test]
fn test_worker_schedule_mixed_requests() {
    let mut queue = RequestQueue::new();
    let page_id_1: i32 = 1;
    let page_id_2: i32 = 2;
    let mut replies = Vec::new();
    for (is_write, page, fill) in [
        (true, page_id_1, 42u8),
        (true, page_id_2, 77u8),
        (false, page_id_1, 0u8),
        (false, page_id_2, 0u8),
    ] {
        let (req, rx) = request(is_write, page, vec![fill; 4096]);
        queue.enqueue(req);
        replies.push(rx);
    }
    let batch = queue.take_batch(10);
    assert_eq!(queue.len(), 0);
    assert_eq!(
        shape(&batch),
        vec![
            vec![(true, 1, 42), (false, 1, 0)],
            vec![(true, 2, 77), (false, 2, 0)],
        ]
    );
    // Completing a request delivers its result on the caller's channel.
    let mut batch = batch;
    let first = batch[0].remove(0);
    first.callback.send(Ok(first.data)).unwrap();
    let got = replies.remove(0).try_recv().unwrap().unwrap();
    assert_eq!(got, vec![42u8; 4096]);
}

#[test]
fn batch_takes_at_most_count_requests_in_order() {
    let mut queue = RequestQueue::new();
    for (i, page) in [3, 4, 3, 5, 3].iter().enumerate() {
        let (req, _rx) = request(i % 2 == 0, *page, vec![i as u8; 1]);
        queue.enqueue(req);
    }
    let batch = queue.take_batch(4);
    assert_eq!(queue.len(), 1);
    assert_eq!(
        shape(&batch),
        vec![
            vec![(true, 3, 0), (true, 3, 2)],
            vec![(false, 4, 1)],
            vec![(false, 5, 3)],
        ]
    );
    let rest = queue.take_batch(4);
    assert_eq!(shape(&rest), vec![vec![(true, 3, 4)]]);
    assert!(queue.take_batch(4).is_empty());
}

#[test]
fn batch_of_zero_takes_nothing() {
    let mut queue = RequestQueue::new();
    let (req, _rx) = request(true, 1, vec![1]);
    queue.enqueue(req);
    assert!(queue.take_batch(0).is_empty());
    assert_eq!(queue.len(), 1);
}
